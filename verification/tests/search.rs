use nyaland::search::{
    category_from_lowercase, parse_category, parse_filter, parse_order, parse_sort, search_options,
    CategoryFilter, Order, SearchParams, SortBy, TrustedFilter,
};

#[test]
fn categories_ignore_case() {
    assert_eq!(parse_category("Anime"), CategoryFilter::Anime);
    assert_eq!(parse_category("AUDIO"), CategoryFilter::Audio);
    assert_eq!(parse_category("literature"), CategoryFilter::Literature);
    assert_eq!(parse_category("Live-Action"), CategoryFilter::LiveAction);
    assert_eq!(parse_category("liveaction"), CategoryFilter::LiveAction);
    assert_eq!(parse_category("pictures"), CategoryFilter::Pictures);
    assert_eq!(parse_category("Software"), CategoryFilter::Software);
    assert_eq!(parse_category("games"), CategoryFilter::Games);
    assert_eq!(parse_category("movies"), CategoryFilter::All);
    assert_eq!(parse_category(""), CategoryFilter::All);
}

#[test]
fn lowercase_names_are_matched_exactly() {
    assert_eq!(category_from_lowercase("anime"), CategoryFilter::Anime);
    assert_eq!(category_from_lowercase("Anime"), CategoryFilter::All);
}

#[test]
fn filters_sorts_orders() {
    assert_eq!(parse_filter("Trusted"), TrustedFilter::TrustedOnly);
    assert_eq!(parse_filter("trustedonly"), TrustedFilter::TrustedOnly);
    assert_eq!(parse_filter("NoRemakes"), TrustedFilter::NoRemakes);
    assert_eq!(parse_filter("x"), TrustedFilter::NoFilter);
    assert_eq!(parse_sort("Seeders"), SortBy::Seeders);
    assert_eq!(parse_sort("leechers"), SortBy::Leechers);
    assert_eq!(parse_sort("downloads"), SortBy::Downloads);
    assert_eq!(parse_sort("size"), SortBy::Size);
    assert_eq!(parse_sort("comments"), SortBy::Comments);
    assert_eq!(parse_sort("name"), SortBy::Date);
    assert_eq!(parse_order("ASC"), Order::Asc);
    assert_eq!(parse_order("desc"), Order::Desc);
    assert_eq!(parse_order("sideways"), Order::Desc);
}

#[test]
fn options_default_when_absent() {
    let p = SearchParams {
        query: "naruto".to_string(),
        page: None,
        category: None,
        filter: None,
        sort: None,
        order: None,
    };
    let o = search_options(&p);
    assert_eq!(o.page, None);
    assert_eq!(o.category, Some(CategoryFilter::All));
    assert_eq!(o.filter, Some(TrustedFilter::NoFilter));
    assert_eq!(o.sort, Some(SortBy::Date));
    assert_eq!(o.order, Some(Order::Desc));
}

#[test]
fn options_read_from_request() {
    let p = SearchParams {
        query: "naruto".to_string(),
        page: Some(3),
        category: Some("anime".to_string()),
        filter: Some("trusted".to_string()),
        sort: Some("Seeders".to_string()),
        order: Some("asc".to_string()),
    };
    let o = search_options(&p);
    assert_eq!(o.page, Some(3));
    assert_eq!(o.category, Some(CategoryFilter::Anime));
    assert_eq!(o.filter, Some(TrustedFilter::TrustedOnly));
    assert_eq!(o.sort, Some(SortBy::Seeders));
    assert_eq!(o.order, Some(Order::Asc));
}
