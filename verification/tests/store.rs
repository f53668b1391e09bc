use gotors::codec::decode;
use gotors::codec::encode;
use gotors::codec::encode_line;
use gotors::store::Store;
use gotors::store::StoreError;

#[test]
fn lookup_miss_fails_with_not_found() {
    let store = decode("proj:/a\n").unwrap();
    let r = store.lookup(&"doesnotexist".to_string());
    assert!(matches!(r, Err(StoreError::NotFound)));
}

#[test]
fn lookup_miss_on_empty_store() {
    let store = decode("").unwrap();
    let r = store.lookup(&"doesnotexist".to_string());
    assert!(matches!(r, Err(StoreError::NotFound)));
}

#[test]
fn lookup_hit_returns_the_bound_path() {
    let store = decode("proj:/a\nother:/b\n").unwrap();
    assert_eq!(store.lookup(&"proj".to_string()).unwrap(), "/a");
    assert_eq!(store.lookup(&"other".to_string()).unwrap(), "/b");
}

#[test]
fn list_on_fresh_empty_backing_file_is_empty() {
    let store = decode("").unwrap();
    assert!(store.list().is_empty());
}

#[test]
fn list_keeps_first_line_order() {
    let store = decode("b:/2\na:/1\n").unwrap();
    let entries = store.list();
    assert_eq!(entries[0].name, "b");
    assert_eq!(entries[1].name, "a");
}

#[test]
fn add_with_default_name_then_lookup() {
    // An add appends to the backing text; the store sees it on next load.
    let mut text = String::new();
    let name = Store::resolve_name(None, "/home/alice/project").unwrap();
    assert_eq!(name, "project");
    text.push_str(&encode_line(&name, "/home/alice/project"));
    assert_eq!(text, "project:/home/alice/project\n");
    let store = decode(&text).unwrap();
    assert_eq!(store.lookup(&"project".to_string()).unwrap(), "/home/alice/project");
}

#[test]
fn add_twice_shadows_but_keeps_both_lines() {
    let mut text = String::from("keep:/k\n");
    text.push_str(&encode_line("n", "/p1"));
    text.push_str(&encode_line("n", "/p2"));
    assert_eq!(text, "keep:/k\nn:/p1\nn:/p2\n");
    let store = decode(&text).unwrap();
    assert_eq!(store.lookup(&"n".to_string()).unwrap(), "/p2");
    assert_eq!(store.lookup(&"keep".to_string()).unwrap(), "/k");
}

#[test]
fn resolve_name_prefers_the_given_name() {
    let name = Store::resolve_name(Some("given".to_string()), "/home/alice/project");
    assert_eq!(name.unwrap(), "given");
}

#[test]
fn resolve_name_fails_on_root() {
    let r = Store::resolve_name(None, "/");
    assert!(matches!(r, Err(StoreError::NoBasename)));
}

#[test]
fn remove_rewrites_without_the_entry() {
    let mut store = decode("proj:/a\nold:/b\n").unwrap();
    let removed = store.remove(&"old".to_string()).unwrap();
    assert_eq!(removed, "/b");
    assert_eq!(encode(&store), "proj:/a\n");
    let r = store.remove(&"old".to_string());
    assert!(matches!(r, Err(StoreError::NotFound)));
}

#[test]
fn remove_of_missing_name_leaves_store_unchanged() {
    let mut store = decode("proj:/a\n").unwrap();
    let r = store.remove(&"ghost".to_string());
    assert!(matches!(r, Err(StoreError::NotFound)));
    assert_eq!(encode(&store), "proj:/a\n");
}

#[test]
fn remove_heals_duplicate_lines_on_rewrite() {
    let mut store = decode("n:/x\nn:/y\nother:/z\n").unwrap();
    let removed = store.remove(&"other".to_string()).unwrap();
    assert_eq!(removed, "/z");
    let text = encode(&store);
    assert_eq!(text, "n:/y\n");
    let again = decode(&text).unwrap();
    assert_eq!(again.list().len(), 1);
    assert_eq!(again.lookup(&"n".to_string()).unwrap(), "/y");
}
