use tiddler_store::codec::{json_to_chars, parse_json};
use tiddler_store::json::JsonValue;
use tiddler_store::store::MemoryTiddlersStore;
use tiddler_store::store::Store;

fn jstr(v: &JsonValue) -> String {
    json_to_chars(v).into_iter().collect()
}

fn body(text: &str) -> JsonValue {
    parse_json(text).expect("canonical value must parse")
}

#[test]
fn global_revision_counts_every_mutation() {
    let mut store = MemoryTiddlersStore::new();
    assert_eq!(store.global_revision_num(), 0);
    store.put_tiddler("a".to_string(), body("{\"x\":1}"), "one".to_string());
    assert_eq!(store.global_revision_num(), 1);
    store.put_tiddler("b".to_string(), body("{\"x\":2}"), "two".to_string());
    assert_eq!(store.global_revision_num(), 2);
    store.delete_tiddler(&"a".to_string());
    assert_eq!(store.global_revision_num(), 3);
}

#[test]
fn delete_on_missing_key_still_counts() {
    let mut store = MemoryTiddlersStore::new();
    let removed = store.delete_tiddler(&"nothing".to_string());
    assert!(!removed);
    assert_eq!(store.global_revision_num(), 1);
    assert!(store.get_tiddler(&"nothing".to_string()).is_none());
}

#[test]
fn item_revisions_progress_per_key() {
    let mut store = MemoryTiddlersStore::new();
    assert_eq!(store.put_tiddler("a".to_string(), body("{}"), String::new()), 0);
    assert_eq!(store.put_tiddler("b".to_string(), body("{}"), String::new()), 0);
    assert_eq!(store.put_tiddler("a".to_string(), body("{}"), String::new()), 1);
    assert_eq!(store.put_tiddler("b".to_string(), body("{}"), String::new()), 1);
    assert_eq!(store.put_tiddler("a".to_string(), body("{}"), String::new()), 2);
}

#[test]
fn item_revision_restarts_after_delete() {
    let mut store = MemoryTiddlersStore::new();
    assert_eq!(store.put_tiddler("a".to_string(), body("{}"), String::new()), 0);
    assert_eq!(store.put_tiddler("a".to_string(), body("{}"), String::new()), 1);
    store.delete_tiddler(&"a".to_string());
    assert_eq!(store.put_tiddler("a".to_string(), body("{}"), String::new()), 0);
}

#[test]
fn get_merges_text_into_metadata() {
    let mut store = MemoryTiddlersStore::new();
    store.put_tiddler(
        "foo".to_string(),
        body("{\"meta\":\"x\"}"),
        "hello".to_string(),
    );
    let (meta, rev) = store.get_tiddler(&"foo".to_string()).expect("item exists");
    assert_eq!(rev, "0");
    assert_eq!(jstr(&meta), "{\"meta\":\"x\",\"text\":\"hello\"}");
}

#[test]
fn get_leaves_non_object_metadata_alone() {
    let mut store = MemoryTiddlersStore::new();
    store.put_tiddler("n".to_string(), body("5"), "ignored".to_string());
    let (meta, rev) = store.get_tiddler(&"n".to_string()).expect("item exists");
    assert_eq!(rev, "0");
    assert_eq!(jstr(&meta), "5");
}

#[test]
fn listing_reports_metadata_without_text() {
    let mut store = MemoryTiddlersStore::new();
    store.put_tiddler("a".to_string(), body("{\"t\":\"a\"}"), "body a".to_string());
    store.put_tiddler("b".to_string(), body("{\"t\":\"b\"}"), "body b".to_string());
    let all = store.all_tiddlers();
    assert_eq!(jstr(&all), "[{\"t\":\"a\"},{\"t\":\"b\"}]");
}

#[test]
fn replace_if_newer_ignores_older_or_equal() {
    let mut store = MemoryTiddlersStore::new();
    store.put_tiddler("k".to_string(), body("{\"v\":1}"), "local".to_string());
    let mut same = MemoryTiddlersStore::new();
    same.put_tiddler("k".to_string(), body("{\"v\":9}"), "remote".to_string());
    store.replace_if_newer(same);
    let (meta, _) = store.get_tiddler(&"k".to_string()).expect("item exists");
    assert_eq!(jstr(&meta), "{\"v\":1,\"text\":\"local\"}");
    assert_eq!(store.global_revision_num(), 1);
}

#[test]
fn replace_if_newer_takes_strictly_newer_copy() {
    let mut store = MemoryTiddlersStore::new();
    store.put_tiddler("k".to_string(), body("{\"v\":1}"), "local".to_string());
    let mut newer = MemoryTiddlersStore::new();
    newer.put_tiddler("k".to_string(), body("{\"v\":9}"), "remote".to_string());
    newer.put_tiddler("other".to_string(), body("{}"), String::new());
    store.replace_if_newer(newer);
    assert_eq!(store.global_revision_num(), 2);
    let (meta, _) = store.get_tiddler(&"k".to_string()).expect("item exists");
    assert_eq!(jstr(&meta), "{\"v\":9,\"text\":\"remote\"}");
    assert!(store.get_tiddler(&"other".to_string()).is_some());
}

#[test]
fn snapshot_round_trip_preserves_store() {
    let mut store = MemoryTiddlersStore::new();
    store.put_tiddler(
        "plain".to_string(),
        body("{\"title\":\"plain\"}"),
        "line one\nline two".to_string(),
    );
    store.put_tiddler(
        "quoted".to_string(),
        body("{\"title\":\"say \\\"hi\\\"\"}"),
        "a\\b\t\"c\"".to_string(),
    );
    store.put_tiddler("plain".to_string(), body("{\"title\":\"plain2\"}"), "x".to_string());
    let text = store.to_json_string();
    let loaded = MemoryTiddlersStore::from_json_string(&text).expect("snapshot must load");
    assert_eq!(loaded.global_revision_num(), store.global_revision_num());
    assert_eq!(loaded.to_json_string(), text);
    let (meta, rev) = loaded.get_tiddler(&"plain".to_string()).expect("item exists");
    assert_eq!(rev, "1");
    assert_eq!(jstr(&meta), "{\"title\":\"plain2\",\"text\":\"x\"}");
    let (meta2, rev2) = loaded.get_tiddler(&"quoted".to_string()).expect("item exists");
    assert_eq!(rev2, "0");
    assert_eq!(
        jstr(&meta2),
        "{\"title\":\"say \\\"hi\\\"\",\"text\":\"a\\\\b\\t\\\"c\\\"\"}"
    );
}

#[test]
fn empty_snapshot_round_trip() {
    let store = MemoryTiddlersStore::new();
    let text = store.to_json_string();
    assert_eq!(text, "{\"tiddlers\":{},\"revision\":0}");
    let loaded = MemoryTiddlersStore::from_json_string(&text).expect("snapshot must load");
    assert_eq!(loaded.global_revision_num(), 0);
}

#[test]
fn snapshot_rejects_trailing_garbage() {
    let store = MemoryTiddlersStore::new();
    let mut text = store.to_json_string();
    text.push(' ');
    assert!(MemoryTiddlersStore::from_json_string(&text).is_none());
    assert!(MemoryTiddlersStore::from_json_string("{\"tiddlers\":{}").is_none());
    assert!(MemoryTiddlersStore::from_json_string("").is_none());
}

#[test]
fn snapshot_rejects_duplicate_keys() {
    let text = "{\"tiddlers\":{\"a\":{\"meta\":null,\"text\":\"\",\"revision\":0},\"a\":{\"meta\":null,\"text\":\"\",\"revision\":1}},\"revision\":2}";
    assert!(MemoryTiddlersStore::from_json_string(text).is_none());
}

#[test]
fn item_revision_reports_current_counter() {
    let mut store = MemoryTiddlersStore::new();
    assert_eq!(store.item_revision(&"a".to_string()), None);
    store.put_tiddler("a".to_string(), body("{}"), String::new());
    store.put_tiddler("a".to_string(), body("{}"), String::new());
    assert_eq!(store.item_revision(&"a".to_string()), Some(1));
}

fn exercise_any_store<S: Store>(store: &mut S) -> (u32, bool, u64) {
    let rev = store.put_tiddler("k".to_string(), JsonValue::Null, "t".to_string());
    let removed = store.delete_tiddler(&"k".to_string());
    (rev, removed, store.global_revision_num())
}

#[test]
fn store_trait_exposes_the_same_operations() {
    let mut store = MemoryTiddlersStore::new();
    let (rev, removed, global) = exercise_any_store(&mut store);
    assert_eq!(rev, 0);
    assert!(removed);
    assert_eq!(global, 2);
}

#[test]
fn snapshot_agrees_with_general_json_parser() {
    let mut store = MemoryTiddlersStore::new();
    store.put_tiddler("a".to_string(), body("{\"x\":[1,2,true,null]}"), "t".to_string());
    let text = store.to_json_string();
    let as_value = parse_json(&text).expect("snapshot text is canonical JSON");
    assert_eq!(jstr(&as_value), text);
}
