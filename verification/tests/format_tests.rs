use changedir::storefmt::{parse_store, serialize_store};

fn strings(items: &[&str]) -> Vec<String> {
    items.iter().map(|s| s.to_string()).collect()
}

#[test]
fn parse_splits_on_newlines() {
    assert_eq!(parse_store("/a\n/b\n/c"), strings(&["/a", "/b", "/c"]));
}

#[test]
fn parse_skips_blank_lines() {
    assert_eq!(parse_store("/a\n\n/b\n   \n"), strings(&["/a", "/b"]));
}

#[test]
fn parse_trims_each_line() {
    assert_eq!(parse_store("  /a \n\t/b\r\n"), strings(&["/a", "/b"]));
}

#[test]
fn parse_of_empty_text_is_empty() {
    assert_eq!(parse_store(""), Vec::<String>::new());
    assert_eq!(parse_store("\n\n"), Vec::<String>::new());
}

#[test]
fn serialize_joins_with_newlines() {
    assert_eq!(serialize_store(&strings(&["/a", "/b"])), "/a\n/b");
    assert_eq!(serialize_store(&strings(&["/a"])), "/a");
    assert_eq!(serialize_store(&Vec::new()), "");
}

#[test]
fn save_then_load_restores_the_entries() {
    let entries = strings(&["/a", "/b/c", "/long/path/with spaces inside"]);
    assert_eq!(parse_store(&serialize_store(&entries)), entries);
}
