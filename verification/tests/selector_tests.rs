use changedir::selector::{build, char_to_index, index_to_char, resolve, SelectError};

fn strings(items: &[&str]) -> Vec<String> {
    items.iter().map(|s| s.to_string()).collect()
}

#[test]
fn index_to_char_digits_and_letters() {
    assert_eq!(index_to_char(0), '0');
    assert_eq!(index_to_char(5), '5');
    assert_eq!(index_to_char(9), '9');
    assert_eq!(index_to_char(10), 'a');
    assert_eq!(index_to_char(18), 'i');
    assert_eq!(index_to_char(35), 'z');
}

#[test]
fn index_to_char_sentinel_past_range() {
    assert_eq!(index_to_char(36), '?');
    assert_eq!(index_to_char(100), '?');
}

#[test]
fn char_to_index_digits_and_letters() {
    assert_eq!(char_to_index('0'), Some(0));
    assert_eq!(char_to_index('9'), Some(9));
    assert_eq!(char_to_index('a'), Some(10));
    assert_eq!(char_to_index('z'), Some(35));
}

#[test]
fn char_to_index_rejects_other_characters() {
    assert_eq!(char_to_index('A'), None);
    assert_eq!(char_to_index('?'), None);
    assert_eq!(char_to_index(' '), None);
    assert_eq!(char_to_index('/'), None);
}

#[test]
fn char_round_trip_all_indices() {
    for i in 0..36 {
        assert_eq!(char_to_index(index_to_char(i)), Some(i));
    }
}

#[test]
fn build_merges_and_deduplicates() {
    let bookmarks = strings(&["/a", "/b"]);
    let history = strings(&["/c", "/a"]);
    let unified = build(&bookmarks, &history);
    assert_eq!(unified, strings(&["/a", "/b", "/c"]));
}

#[test]
fn build_length_is_bookmarks_plus_new_history() {
    let bookmarks = strings(&["/a", "/b", "/c"]);
    let history = strings(&["/b", "/d", "/a", "/e"]);
    let unified = build(&bookmarks, &history);
    assert_eq!(unified.len(), 3 + 2);
    assert_eq!(unified, strings(&["/a", "/b", "/c", "/d", "/e"]));
}

#[test]
fn build_of_empty_stores_is_empty() {
    let unified = build(&Vec::new(), &Vec::new());
    assert!(unified.is_empty());
}

#[test]
fn resolve_returns_entry_at_index() {
    let list = strings(&["/a", "/b", "/c"]);
    assert_eq!(resolve(&list, '0'), Ok("/a".to_string()));
    assert_eq!(resolve(&list, '1'), Ok("/b".to_string()));
    assert_eq!(resolve(&list, '2'), Ok("/c".to_string()));
}

#[test]
fn resolve_rejects_out_of_range_index() {
    let list = strings(&["/a", "/b", "/c"]);
    assert_eq!(resolve(&list, 'z'), Err(SelectError::OutOfRange));
    assert_eq!(resolve(&list, '3'), Err(SelectError::OutOfRange));
}

#[test]
fn resolve_rejects_invalid_character() {
    let list = strings(&["/a", "/b", "/c"]);
    assert_eq!(resolve(&list, '!'), Err(SelectError::InvalidChar));
}

#[test]
fn build_of_duplicate_free_stores_has_no_duplicates() {
    let bookmarks = strings(&["/a", "/b", "/c"]);
    let history = strings(&["/c", "/b", "/d", "/a"]);
    let unified = build(&bookmarks, &history);
    assert_eq!(unified, strings(&["/a", "/b", "/c", "/d"]));
    for i in 0..unified.len() {
        for j in (i + 1)..unified.len() {
            assert_ne!(unified[i], unified[j]);
        }
    }
}

#[test]
fn resolve_boundary_at_last_addressable_slot() {
    let mut list: Vec<String> = Vec::new();
    for i in 0..37 {
        list.push(format!("/dir{}", i));
    }
    // Index 35 is the last slot a character can name; entry 36 is present in
    // the list but no character reaches it.
    assert_eq!(resolve(&list, 'z'), Ok("/dir35".to_string()));
    for c in "0123456789abcdefghijklmnopqrstuvwxyz".chars() {
        assert!(resolve(&list, c).is_ok());
    }
}
