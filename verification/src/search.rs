//! The options of a catalogue search, read from the front end's loosely typed request:
//! names are matched case-insensitively, and anything unknown falls back to a default.
use vstd::prelude::*;
use crate::text::{ascii_lowercase, lowercase, lowered, str_equal};
use vstd::utf8::is_ascii_chars;

verus! {

/// The category searched.
#[derive(Debug, Clone, Copy, PartialEq, Eq, Structural)]
pub enum CategoryFilter {
    All,
    Anime,
    Audio,
    Literature,
    LiveAction,
    Pictures,
    Software,
    Games,
}

/// Which uploads are admitted.
#[derive(Debug, Clone, Copy, PartialEq, Eq, Structural)]
pub enum TrustedFilter {
    NoFilter,
    NoRemakes,
    TrustedOnly,
}

/// The column the results are sorted by.
#[derive(Debug, Clone, Copy, PartialEq, Eq, Structural)]
pub enum SortBy {
    Date,
    Seeders,
    Leechers,
    Downloads,
    Size,
    Comments,
}

/// The direction of the sort.
#[derive(Debug, Clone, Copy, PartialEq, Eq, Structural)]
pub enum Order {
    Asc,
    Desc,
}

/// A search request as the front end sends it.
#[derive(Debug, Clone)]
pub struct SearchParams {
    pub query: String,
    pub page: Option<u64>,
    pub category: Option<String>,
    pub filter: Option<String>,
    pub sort: Option<String>,
    pub order: Option<String>,
}

/// The options handed to the catalogue client.
#[derive(Debug, Clone, Copy)]
pub struct SearchOptions {
    pub page: Option<u64>,
    pub category: Option<CategoryFilter>,
    pub filter: Option<TrustedFilter>,
    pub sort: Option<SortBy>,
    pub order: Option<Order>,
}

/// The category named by a lowercase name.
pub open spec fn category_of(l: Seq<char>) -> CategoryFilter {
    if l == "anime"@ {
        CategoryFilter::Anime
    } else if l == "audio"@ {
        CategoryFilter::Audio
    } else if l == "literature"@ {
        CategoryFilter::Literature
    } else if l == "live-action"@ || l == "liveaction"@ {
        CategoryFilter::LiveAction
    } else if l == "pictures"@ {
        CategoryFilter::Pictures
    } else if l == "software"@ {
        CategoryFilter::Software
    } else if l == "games"@ {
        CategoryFilter::Games
    } else {
        CategoryFilter::All
    }
}

/// The filter named by a lowercase name.
pub open spec fn filter_of(l: Seq<char>) -> TrustedFilter {
    if l == "trusted"@ || l == "trustedonly"@ {
        TrustedFilter::TrustedOnly
    } else if l == "noremakes"@ {
        TrustedFilter::NoRemakes
    } else {
        TrustedFilter::NoFilter
    }
}

/// The sort column named by a lowercase name.
pub open spec fn sort_of(l: Seq<char>) -> SortBy {
    if l == "seeders"@ {
        SortBy::Seeders
    } else if l == "leechers"@ {
        SortBy::Leechers
    } else if l == "downloads"@ {
        SortBy::Downloads
    } else if l == "size"@ {
        SortBy::Size
    } else if l == "comments"@ {
        SortBy::Comments
    } else {
        SortBy::Date
    }
}

/// The direction named by a lowercase name.
pub open spec fn order_of(l: Seq<char>) -> Order {
    if l == "asc"@ {
        Order::Asc
    } else {
        Order::Desc
    }
}

/// The options for a request: its page, and each named option read from the lowercased
/// name (see `lowered`), or its default (all categories, no filter, by date, descending)
/// when absent.
pub open spec fn options_for(p: SearchParams) -> SearchOptions {
    SearchOptions {
        page: p.page,
        category: Some(
            match p.category {
                Some(c) => category_of(lowered(c@)),
                None => CategoryFilter::All,
            },
        ),
        filter: Some(
            match p.filter {
                Some(f) => filter_of(lowered(f@)),
                None => TrustedFilter::NoFilter,
            },
        ),
        sort: Some(
            match p.sort {
                Some(s) => sort_of(lowered(s@)),
                None => SortBy::Date,
            },
        ),
        order: Some(
            match p.order {
                Some(o) => order_of(lowered(o@)),
                None => Order::Desc,
            },
        ),
    }
}

/// The category named by `l`, already lowercase.
pub fn category_from_lowercase(l: &str) -> (r: CategoryFilter)
    ensures
        r == category_of(l@),
{
    if str_equal(l, "anime") {
        CategoryFilter::Anime
    } else if str_equal(l, "audio") {
        CategoryFilter::Audio
    } else if str_equal(l, "literature") {
        CategoryFilter::Literature
    } else if str_equal(l, "live-action") || str_equal(l, "liveaction") {
        CategoryFilter::LiveAction
    } else if str_equal(l, "pictures") {
        CategoryFilter::Pictures
    } else if str_equal(l, "software") {
        CategoryFilter::Software
    } else if str_equal(l, "games") {
        CategoryFilter::Games
    } else {
        CategoryFilter::All
    }
}

/// The filter named by `l`, already lowercase.
pub fn filter_from_lowercase(l: &str) -> (r: TrustedFilter)
    ensures
        r == filter_of(l@),
{
    if str_equal(l, "trusted") || str_equal(l, "trustedonly") {
        TrustedFilter::TrustedOnly
    } else if str_equal(l, "noremakes") {
        TrustedFilter::NoRemakes
    } else {
        TrustedFilter::NoFilter
    }
}

/// The sort column named by `l`, already lowercase.
pub fn sort_from_lowercase(l: &str) -> (r: SortBy)
    ensures
        r == sort_of(l@),
{
    if str_equal(l, "seeders") {
        SortBy::Seeders
    } else if str_equal(l, "leechers") {
        SortBy::Leechers
    } else if str_equal(l, "downloads") {
        SortBy::Downloads
    } else if str_equal(l, "size") {
        SortBy::Size
    } else if str_equal(l, "comments") {
        SortBy::Comments
    } else {
        SortBy::Date
    }
}

/// The direction named by `l`, already lowercase.
pub fn order_from_lowercase(l: &str) -> (r: Order)
    ensures
        r == order_of(l@),
{
    if str_equal(l, "asc") {
        Order::Asc
    } else {
        Order::Desc
    }
}

/// The category named by `s`, in any case.
pub fn parse_category(s: &str) -> (r: CategoryFilter)
    ensures
        r == category_of(lowered(s@)),
        is_ascii_chars(s@) ==> r == category_of(ascii_lowercase(s@)),
{
    let l = lowercase(s);
    category_from_lowercase(l.as_str())
}

/// The filter named by `s`, in any case.
pub fn parse_filter(s: &str) -> (r: TrustedFilter)
    ensures
        r == filter_of(lowered(s@)),
        is_ascii_chars(s@) ==> r == filter_of(ascii_lowercase(s@)),
{
    let l = lowercase(s);
    filter_from_lowercase(l.as_str())
}

/// The sort column named by `s`, in any case.
pub fn parse_sort(s: &str) -> (r: SortBy)
    ensures
        r == sort_of(lowered(s@)),
        is_ascii_chars(s@) ==> r == sort_of(ascii_lowercase(s@)),
{
    let l = lowercase(s);
    sort_from_lowercase(l.as_str())
}

/// The direction named by `s`, in any case.
pub fn parse_order(s: &str) -> (r: Order)
    ensures
        r == order_of(lowered(s@)),
        is_ascii_chars(s@) ==> r == order_of(ascii_lowercase(s@)),
{
    let l = lowercase(s);
    order_from_lowercase(l.as_str())
}

/// The options of the search that `params` asks for.
pub fn search_options(params: &SearchParams) -> (o: SearchOptions)
    ensures
        o == options_for(*params),
{
    let category = match &params.category {
        Some(c) => parse_category(c.as_str()),
        None => CategoryFilter::All,
    };
    let filter = match &params.filter {
        Some(f) => parse_filter(f.as_str()),
        None => TrustedFilter::NoFilter,
    };
    let sort = match &params.sort {
        Some(s) => parse_sort(s.as_str()),
        None => SortBy::Date,
    };
    let order = match &params.order {
        Some(x) => parse_order(x.as_str()),
        None => Order::Desc,
    };
    SearchOptions {
        page: params.page,
        category: Some(category),
        filter: Some(filter),
        sort: Some(sort),
        order: Some(order),
    }
}

} // verus!
