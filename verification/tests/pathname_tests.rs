use changedir::pathname::{ancestor_candidates, basename, join_path, matching_bookmarks, parent_dir};
use changedir::subdirs::{path_le, sort_paths};

fn strings(items: &[&str]) -> Vec<String> {
    items.iter().map(|s| s.to_string()).collect()
}

#[test]
fn basename_is_the_final_segment() {
    assert_eq!(basename("/a/b/c"), "c");
    assert_eq!(basename("/a"), "a");
    assert_eq!(basename("/"), "");
    assert_eq!(basename("plain"), "plain");
}

#[test]
fn parent_walks_one_level_up() {
    assert_eq!(parent_dir("/a/b/c"), Some("/a/b".to_string()));
    assert_eq!(parent_dir("/a"), Some("/".to_string()));
}

#[test]
fn parent_of_root_is_none() {
    assert_eq!(parent_dir("/"), None);
    assert_eq!(parent_dir("plain"), None);
}

#[test]
fn join_appends_with_a_separator() {
    assert_eq!(join_path(&"/a/b".to_string(), &"c".to_string()), "/a/b/c");
    assert_eq!(join_path(&"/".to_string(), &"c".to_string()), "/c");
}

#[test]
fn ancestor_candidates_walk_up_to_the_depth_limit() {
    let got = ancestor_candidates(
        &"/one/two/three/four/five/six/seven".to_string(),
        &"n".to_string(),
        5,
    );
    assert_eq!(
        got,
        strings(&[
            "/one/two/three/four/five/six/n",
            "/one/two/three/four/five/n",
            "/one/two/three/four/n",
            "/one/two/three/n",
            "/one/two/n",
        ])
    );
}

#[test]
fn ancestor_candidates_stop_at_the_root() {
    let got = ancestor_candidates(&"/a/b".to_string(), &"n".to_string(), 5);
    assert_eq!(got, strings(&["/a/n", "/n"]));
}

#[test]
fn matching_bookmarks_filter_by_final_segment() {
    let bookmarks = strings(&["/x/dev", "/y/dev", "/z/other"]);
    let got = matching_bookmarks(&bookmarks, &"dev".to_string());
    assert_eq!(got, strings(&["/x/dev", "/y/dev"]));
}

#[test]
fn matching_bookmarks_of_no_match_is_empty() {
    let bookmarks = strings(&["/x/dev"]);
    let got = matching_bookmarks(&bookmarks, &"missing".to_string());
    assert!(got.is_empty());
}

#[test]
fn path_le_orders_lexicographically() {
    assert!(path_le("/a", "/b"));
    assert!(!path_le("/b", "/a"));
    assert!(path_le("/a", "/a"));
    assert!(path_le("/a", "/ab"));
    assert!(!path_le("/ab", "/a"));
    assert!(path_le("", "/a"));
}

#[test]
fn sort_paths_orders_the_listing() {
    let got = sort_paths(strings(&["/c", "/a", "/b", "/a"]));
    assert_eq!(got, strings(&["/a", "/a", "/b", "/c"]));
}

#[test]
fn sort_paths_of_empty_listing_is_empty() {
    assert!(sort_paths(Vec::new()).is_empty());
}
