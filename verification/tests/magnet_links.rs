use nyaland::magnet::{
    btih_segment, display_name_defined_exec, download_key, extract_hash_from_magnet,
    extract_trackers_from_magnet, format_hex, hash_fallback, truncate_magnet,
};

const HASH_UPPER: &str = "ABCDEF0123456789ABCDEF0123456789ABCDEF01";
const HASH_LOWER: &str = "abcdef0123456789abcdef0123456789abcdef01";

#[test]
fn hash_is_extracted_and_lowercased() {
    let m = format!("magnet:?xt=urn:btih:{}&dn=Show", HASH_UPPER);
    assert_eq!(extract_hash_from_magnet(&m), Some(HASH_LOWER.to_string()));
}

#[test]
fn hash_at_end_of_link() {
    let m = format!("magnet:?dn=x&xt=urn:btih:{}", HASH_LOWER);
    assert_eq!(extract_hash_from_magnet(&m), Some(HASH_LOWER.to_string()));
}

#[test]
fn hash_of_wrong_length_is_refused() {
    let m = format!("magnet:?xt=urn:btih:{}&dn=Show", &HASH_LOWER[..39]);
    assert_eq!(extract_hash_from_magnet(&m), None);
    let m = format!("magnet:?xt=urn:btih:{}0&dn=Show", HASH_LOWER);
    assert_eq!(extract_hash_from_magnet(&m), None);
}

#[test]
fn hash_needs_the_marker() {
    assert_eq!(extract_hash_from_magnet("magnet:?dn=Show"), None);
    assert_eq!(extract_hash_from_magnet(""), None);
}

#[test]
fn hash_length_counts_bytes() {
    // 38 ASCII characters and one two-byte character: 40 bytes, 39 characters.
    let seg = format!("{}é", &HASH_LOWER[..38]);
    let m = format!("magnet:?xt=urn:btih:{}", seg);
    assert_eq!(btih_segment(&m), Some(seg.clone()));
    assert_eq!(extract_hash_from_magnet(&m), Some(seg));
}

#[test]
fn raw_segment_keeps_case() {
    let m = format!("magnet:?xt=urn:btih:{}", HASH_UPPER);
    assert_eq!(btih_segment(&m), Some(HASH_UPPER.to_string()));
}

#[test]
fn trackers_are_decoded_in_order() {
    let m = "magnet:?xt=urn:btih:x&tr=udp%3A%2F%2Ftracker.example%3A80&dn=a&tr=http://b/announce";
    assert_eq!(
        extract_trackers_from_magnet(m),
        vec!["udp://tracker.example:80".to_string(), "http://b/announce".to_string()]
    );
}

#[test]
fn undecodable_tracker_is_skipped() {
    let m = "magnet:?tr=%FF%FE&tr=ok";
    assert_eq!(extract_trackers_from_magnet(m), vec!["ok".to_string()]);
}

#[test]
fn no_trackers() {
    assert!(extract_trackers_from_magnet("magnet:?xt=urn:btih:x&dn=y").is_empty());
    assert!(extract_trackers_from_magnet("").is_empty());
    assert_eq!(extract_trackers_from_magnet("tr="), vec!["".to_string()]);
}

#[test]
fn display_name_from_dn_field() {
    assert_eq!(truncate_magnet("magnet:?xt=urn:btih:x&dn=My%20Show%20%5B1080p%5D&tr=t"), "My Show [1080p]");
    assert_eq!(truncate_magnet("magnet:?dn=plain+name"), "plain+name");
}

#[test]
fn undecodable_dn_gives_empty_name() {
    assert_eq!(truncate_magnet("magnet:?dn=%FF"), "");
}

#[test]
fn short_link_is_its_own_name() {
    let m = "magnet:?xt=urn:btih:abc";
    assert_eq!(truncate_magnet(m), m);
}

#[test]
fn long_link_is_cut_at_sixty_bytes() {
    let m = format!("magnet:?xt=urn:btih:{}{}", HASH_LOWER, HASH_LOWER);
    assert!(display_name_defined_exec(&m));
    assert_eq!(truncate_magnet(&m), format!("{}...", &m[..60]));
}

#[test]
fn cut_inside_a_character_is_refused() {
    let m = format!("{}é{}", "a".repeat(59), "b".repeat(10));
    assert!(!display_name_defined_exec(&m));
    let ok = format!("{}é{}", "a".repeat(58), "b".repeat(10));
    assert!(display_name_defined_exec(&ok));
    assert_eq!(truncate_magnet(&ok), format!("{}é...", "a".repeat(58)));
}

#[test]
fn fnv1a_known_values() {
    assert_eq!(hash_fallback(b""), 0xcbf29ce484222325);
    assert_eq!(hash_fallback(b"a"), 0xaf63dc4c8601ec8c);
    assert_eq!(hash_fallback(b"foobar"), 0x85944171f73967e8);
}

#[test]
fn hex_formatting() {
    assert_eq!(format_hex(0), "0");
    assert_eq!(format_hex(15), "f");
    assert_eq!(format_hex(255), "ff");
    assert_eq!(format_hex(0xcbf29ce484222325), "cbf29ce484222325");
    assert_eq!(format_hex(u64::MAX), format!("{:x}", u64::MAX));
}

#[test]
fn download_key_prefers_hash() {
    let m = format!("magnet:?xt=urn:btih:{}", HASH_UPPER);
    assert_eq!(download_key(&m), HASH_LOWER);
}

#[test]
fn download_key_falls_back_to_fnv() {
    let m = "magnet:?dn=nohash";
    assert_eq!(download_key(m), format!("{:x}", hash_fallback(m.as_bytes())));
}

#[test]
fn hash_ignores_ascii_case() {
    let mixed = "AbCdEf0123456789aBcDeF0123456789AbCdEf01";
    let a = extract_hash_from_magnet(&format!("magnet:?xt=urn:btih:{}&dn=x", HASH_UPPER));
    let b = extract_hash_from_magnet(&format!("magnet:?xt=urn:btih:{}&dn=x", HASH_LOWER));
    let c = extract_hash_from_magnet(&format!("magnet:?xt=urn:btih:{}&dn=x", mixed));
    assert_eq!(a, b);
    assert_eq!(b, c);
    let h = a.unwrap();
    assert_eq!(h.len(), 40);
    assert_eq!(h, h.to_ascii_lowercase());
}

#[test]
fn hash_of_written_link_reads_back() {
    let h = HASH_LOWER.to_string();
    assert_eq!(extract_hash_from_magnet(&format!("magnet:?xt=urn:btih:{h}&dn=x")), Some(h.clone()));
}

#[test]
fn hash_keeps_under_case_change_inside_link() {
    let a = extract_hash_from_magnet(&format!("magnet:?dn=a&xt=urn:btih:{}&tr=t", HASH_UPPER));
    let b = extract_hash_from_magnet(&format!("magnet:?dn=a&xt=urn:btih:{}&tr=t", HASH_LOWER));
    assert_eq!(a, b);
    assert_eq!(a, Some(HASH_LOWER.to_string()));
}

#[test]
fn percent_decoding_rules() {
    assert_eq!(truncate_magnet("magnet:?dn=a+b%2bc%2Bd"), "a+b+c+d");
    assert_eq!(truncate_magnet("magnet:?dn=100%zz%4"), "100%zz%4");
    assert_eq!(truncate_magnet("magnet:?dn=%%41"), "%A");
    assert_eq!(truncate_magnet("magnet:?dn=%E3%81%82"), "\u{3042}");
    assert_eq!(truncate_magnet("magnet:?dn=%E3%81"), "");
}
