use nyaland::order::{sort_dedup_strings, sort_strings, string_le};

fn strings(v: &[&str]) -> Vec<String> {
    v.iter().map(|s| s.to_string()).collect()
}

#[test]
fn sorts_as_std_does() {
    let input = strings(&["b", "a", "ab", "", "B", "é", "a", "z"]);
    let mut expected = input.clone();
    expected.sort();
    assert_eq!(sort_strings(input), expected);
}

#[test]
fn sort_dedup_matches_std() {
    let input = strings(&["udp://b", "http://a", "udp://b", "http://a", "x"]);
    let mut expected = input.clone();
    expected.sort_unstable();
    expected.dedup();
    assert_eq!(sort_dedup_strings(input), expected);
}

#[test]
fn string_order() {
    assert!(string_le(&"a".to_string(), &"ab".to_string()));
    assert!(!string_le(&"ab".to_string(), &"a".to_string()));
    assert!(string_le(&"".to_string(), &"".to_string()));
    assert!(string_le(&"Z".to_string(), &"a".to_string()));
}
