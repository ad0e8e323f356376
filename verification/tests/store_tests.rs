use changedir::bookmarks::{AddOutcome, BookmarkStore};
use changedir::history::HistoryStore;
use changedir::MAX_ENTRIES;

fn strings(items: &[&str]) -> Vec<String> {
    items.iter().map(|s| s.to_string()).collect()
}

#[test]
fn add_appends_new_path() {
    let mut store = BookmarkStore::new();
    assert_eq!(store.add("/a".to_string()), AddOutcome::Added);
    assert_eq!(store.add("/b".to_string()), AddOutcome::Added);
    assert_eq!(store.entries(), &strings(&["/a", "/b"]));
}

#[test]
fn add_duplicate_is_a_warning_and_no_op() {
    let mut store = BookmarkStore::new();
    assert_eq!(store.add("/a".to_string()), AddOutcome::Added);
    assert_eq!(store.add("/a".to_string()), AddOutcome::AlreadyPresent);
    assert_eq!(store.entries(), &strings(&["/a"]));
}

#[test]
fn add_at_capacity_fails_and_leaves_store_unchanged() {
    let mut store = BookmarkStore::new();
    for i in 0..MAX_ENTRIES {
        assert_eq!(store.add(format!("/dir{}", i)), AddOutcome::Added);
    }
    assert_eq!(store.entries().len(), 36);
    let before = store.entries().clone();
    assert_eq!(store.add("/one-more".to_string()), AddOutcome::AtCapacity);
    assert_eq!(store.entries(), &before);
}

#[test]
fn remove_drops_the_path_and_reports_it() {
    let mut store = BookmarkStore::new();
    store.add("/a".to_string());
    store.add("/b".to_string());
    assert!(store.remove(&"/a".to_string()));
    assert_eq!(store.entries(), &strings(&["/b"]));
}

#[test]
fn remove_of_absent_path_is_a_no_op() {
    let mut store = BookmarkStore::new();
    store.add("/a".to_string());
    assert!(!store.remove(&"/b".to_string()));
    assert_eq!(store.entries(), &strings(&["/a"]));
}

#[test]
fn clear_forgets_everything() {
    let mut store = BookmarkStore::new();
    store.add("/a".to_string());
    store.add("/b".to_string());
    store.clear();
    assert!(store.entries().is_empty());
}

#[test]
fn record_visit_inserts_at_front() {
    let mut history = HistoryStore::new();
    history.record_visit("/x".to_string());
    history.record_visit("/y".to_string());
    assert_eq!(history.entries(), &strings(&["/y", "/x"]));
}

#[test]
fn record_visit_moves_revisited_path_to_front() {
    let mut history = HistoryStore::new();
    history.record_visit("/x".to_string());
    history.record_visit("/y".to_string());
    history.record_visit("/x".to_string());
    assert_eq!(history.entries(), &strings(&["/x", "/y"]));
}

#[test]
fn record_visit_evicts_the_oldest_beyond_ten() {
    let mut history = HistoryStore::new();
    for i in 0..11 {
        history.record_visit(format!("/dir{}", i));
    }
    assert_eq!(history.entries().len(), 10);
    assert_eq!(history.entries()[0], "/dir10");
    assert_eq!(history.entries()[9], "/dir1");
    assert!(!history.entries().contains(&"/dir0".to_string()));
}

#[test]
fn most_recent_fails_on_empty_history() {
    let history = HistoryStore::new();
    assert_eq!(history.most_recent(), None);
}

#[test]
fn most_recent_returns_the_front_entry() {
    let mut history = HistoryStore::new();
    history.record_visit("/x".to_string());
    history.record_visit("/y".to_string());
    assert_eq!(history.most_recent(), Some("/y".to_string()));
}

#[test]
fn stores_loaded_from_entries_keep_them() {
    let store = BookmarkStore::from_entries(strings(&["/a", "/b"]));
    assert_eq!(store.entries(), &strings(&["/a", "/b"]));
    let history = HistoryStore::from_entries(strings(&["/x"]));
    assert_eq!(history.entries(), &strings(&["/x"]));
}
