use repository::config::{ConfigContract, Repository};

#[test]
fn test_has() {
    let items = Vec::new();
    let repo = Repository::new(items);
    assert!(!repo.has("test"));
}

#[test]
fn test_get() {
    let mut items = Vec::new();
    items.push((String::from("key"), String::from("value")));
    let repo = Repository::new(items);
    assert_eq!(Some("value"), repo.get("key"));
    assert_eq!(None, repo.get("non_existent_key"));
}

#[test]
fn test_set() {
    let items = Vec::new();
    let mut repo = Repository::new(items);
    repo.set("key", "value");
    assert_eq!(Some("value"), repo.get("key"));
}

#[test]
fn test_all() {
    let mut items = Vec::new();
    items.push((String::from("key1"), String::from("value1")));
    items.push((String::from("key2"), String::from("value2")));
    let repo = Repository::new(items.clone());
    let entries = repo.all();
    assert_eq!(2, entries.len());
    assert!(entries.contains(&(String::from("key1"), String::from("value1"))));
    assert!(entries.contains(&(String::from("key2"), String::from("value2"))));
}

#[test]
fn empty_then_two_sets() {
    let mut repo = Repository::new(Vec::new());
    repo.set("foo", "baz");
    repo.set("bar", "qux");
    assert!(repo.has("foo"));
    assert_eq!(Some("qux"), repo.get("bar"));
    assert!(!repo.has("missing"));
}

#[test]
fn set_overwrites_existing_key() {
    let mut items = Vec::new();
    items.push((String::from("foo"), String::from("bar")));
    let mut repo = Repository::new(items);
    repo.set("foo", "baz");
    assert_eq!(Some("baz"), repo.get("foo"));
    assert_eq!(1, repo.all().len());
}

#[test]
fn set_twice_same_pair_changes_nothing() {
    let mut repo = Repository::new(Vec::new());
    repo.set("k", "v");
    let once: Vec<(String, String)> = repo.all().clone();
    repo.set("k", "v");
    let twice: Vec<(String, String)> = repo.all().clone();
    assert_eq!(once, twice);
    assert_eq!(Some("v"), repo.get("k"));
    assert_eq!(1, repo.all().len());
}

#[test]
fn overwrite_keeps_latest_value() {
    let mut repo = Repository::new(Vec::new());
    repo.set("k", "v1");
    repo.set("k", "v2");
    assert_eq!(Some("v2"), repo.get("k"));
    assert_eq!(1, repo.all().len());
}

#[test]
fn all_reflects_every_set() {
    let mut repo = Repository::new(Vec::new());
    repo.set("a", "1");
    repo.set("b", "2");
    repo.set("a", "3");
    let entries = repo.all();
    assert_eq!(2, entries.len());
    assert!(entries.contains(&(String::from("a"), String::from("3"))));
    assert!(entries.contains(&(String::from("b"), String::from("2"))));
}

#[test]
fn new_keeps_last_of_duplicate_keys() {
    let mut items = Vec::new();
    items.push((String::from("dup"), String::from("first")));
    items.push((String::from("other"), String::from("kept")));
    items.push((String::from("dup"), String::from("second")));
    let repo = Repository::new(items);
    assert_eq!(Some("second"), repo.get("dup"));
    assert_eq!(Some("kept"), repo.get("other"));
    assert_eq!(2, repo.all().len());
}

#[test]
fn empty_key_and_empty_value_are_accepted() {
    let mut repo = Repository::new(Vec::new());
    repo.set("", "empty key");
    repo.set("empty value", "");
    assert_eq!(Some("empty key"), repo.get(""));
    assert_eq!(Some(""), repo.get("empty value"));
}
