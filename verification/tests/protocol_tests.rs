use tiddler_store::codec::{json_to_chars, parse_json};
use tiddler_store::cond::{cache_control, compare_etag_and_response};
use tiddler_store::json::JsonValue;
use tiddler_store::redirect::{is_https_forwarded, RedirectHTTPS};
use tiddler_store::request::{prepare_put_meta, put_etag};
use tiddler_store::store::MemoryTiddlersStore;
use tiddler_store::sync::RemoteSync;

fn render(v: &JsonValue) -> String {
    json_to_chars(v).into_iter().collect()
}

fn parse(text: &str) -> JsonValue {
    parse_json(text).expect("canonical value must parse")
}

#[test]
fn matching_token_yields_not_modified() {
    let r = compare_etag_and_response(
        Some(&"\"5\"".to_string()),
        "5".to_string(),
        parse("{\"a\":1}"),
    );
    assert!(r.not_modified);
    assert!(r.body.is_none());
    assert_eq!(r.etag, "5");
}

#[test]
fn stale_or_absent_token_yields_payload() {
    let r = compare_etag_and_response(
        Some(&"\"4\"".to_string()),
        "5".to_string(),
        parse("{\"a\":1}"),
    );
    assert!(!r.not_modified);
    assert_eq!(render(&r.body.expect("payload present")), "{\"a\":1}");
    assert_eq!(r.etag, "5");

    let r2 = compare_etag_and_response(None, "5".to_string(), parse("{\"a\":1}"));
    assert!(!r2.not_modified);
    assert!(r2.body.is_some());
}

#[test]
fn unquoted_or_short_tokens_never_match() {
    let r = compare_etag_and_response(Some(&"5".to_string()), "5".to_string(), parse("[]"));
    assert!(!r.not_modified);
    let r2 = compare_etag_and_response(Some(&"\"\"".to_string()), "".to_string(), parse("[]"));
    assert!(!r2.not_modified);
    let r3 = compare_etag_and_response(Some(&"x0y".to_string()), "0".to_string(), parse("[]"));
    assert!(!r3.not_modified);
    assert!(r3.body.is_some());
}

#[test]
fn cache_directives_force_revalidation() {
    assert_eq!(cache_control(), "must-revalidate, max-age=0");
}

#[test]
fn end_to_end_put_then_get() {
    let mut store = MemoryTiddlersStore::new();
    assert_eq!(store.global_revision_num(), 0);
    let (meta, text) = prepare_put_meta(parse(
        "{\"meta\":\"x\",\"fields\":{\"a\":1},\"text\":\"hello\"}",
    ));
    assert_eq!(text, "hello");
    let rev = store.put_tiddler("foo".to_string(), meta, text);
    assert_eq!(rev, 0);
    assert_eq!(put_etag("foo", rev), "\"a/foo/0:\"");
    let (got, token) = store.get_tiddler(&"foo".to_string()).expect("item exists");
    assert_eq!(token, "0");
    assert_eq!(render(&got), "{\"meta\":\"x\",\"a\":1,\"text\":\"hello\"}");
    let (meta2, text2) = prepare_put_meta(parse(
        "{\"meta\":\"x\",\"fields\":{\"a\":1},\"text\":\"hello\"}",
    ));
    let rev2 = store.put_tiddler("foo".to_string(), meta2, text2);
    assert_eq!(rev2, 1);
    assert_eq!(store.global_revision_num(), 2);
}

#[test]
fn prepare_drops_revision_and_non_object_fields() {
    let (meta, text) = prepare_put_meta(parse(
        "{\"revision\":7,\"fields\":3,\"text\":\"t\",\"k\":\"v\"}",
    ));
    assert_eq!(text, "t");
    assert_eq!(render(&meta), "{\"k\":\"v\"}");
}

#[test]
fn prepare_leaves_non_object_body_alone() {
    let (meta, text) = prepare_put_meta(parse("[1,2]"));
    assert_eq!(text, "");
    assert_eq!(render(&meta), "[1,2]");
}

#[test]
fn prepare_without_text_stores_empty_body() {
    let (meta, text) = prepare_put_meta(parse("{\"a\":true}"));
    assert_eq!(text, "");
    assert_eq!(render(&meta), "{\"a\":true}");
}

#[test]
fn bootstrap_prefers_strictly_newer_remote() {
    let mut store = MemoryTiddlersStore::new();
    store.put_tiddler("k".to_string(), parse("{}"), "local".to_string());

    let sync = RemoteSync::bootstrap(&mut store, None);
    assert_eq!(store.global_revision_num(), 1);
    assert!(!sync.needs_push(store.global_revision_num()));

    let mut older = MemoryTiddlersStore::new();
    let sync2 = RemoteSync::bootstrap(&mut store, Some(older));
    assert_eq!(store.global_revision_num(), 1);
    assert!(!sync2.needs_push(1));

    older = MemoryTiddlersStore::new();
    older.put_tiddler("r".to_string(), parse("{}"), String::new());
    older.put_tiddler("r".to_string(), parse("{}"), String::new());
    let sync3 = RemoteSync::bootstrap(&mut store, Some(older));
    assert_eq!(store.global_revision_num(), 2);
    assert!(store.get_tiddler(&"r".to_string()).is_some());
    assert!(store.get_tiddler(&"k".to_string()).is_none());
    assert!(!sync3.needs_push(2));
}

#[test]
fn failed_push_is_retried_and_success_marks_delivered() {
    let mut store = MemoryTiddlersStore::new();
    let mut sync = RemoteSync::bootstrap(&mut store, None);
    assert!(!sync.needs_push(0));
    store.put_tiddler("k".to_string(), parse("{}"), String::new());
    let cur = store.global_revision_num();
    assert!(sync.needs_push(cur));
    sync.record_push(cur, false);
    assert!(sync.needs_push(cur));
    sync.record_push(cur, true);
    assert!(!sync.needs_push(cur));
}

#[test]
fn redirect_url_applies_replacements_in_order() {
    let redirect = RedirectHTTPS::with_replacements(&[(
        "myapp.herokuapp.com".to_string(),
        "wiki.example.org".to_string(),
    )]);
    assert_eq!(
        redirect.redirect_url("myapp.herokuapp.com", "/recipes/a/tiddlers.json"),
        "https://wiki.example.org/recipes/a/tiddlers.json"
    );
    let plain = RedirectHTTPS::with_replacements(&[]);
    assert_eq!(plain.redirect_url("host", "/p"), "https://host/p");
}

#[test]
fn forwarded_protocol_detection() {
    assert!(is_https_forwarded(Some(&"https".to_string())));
    assert!(!is_https_forwarded(Some(&"http".to_string())));
    assert!(!is_https_forwarded(None));
}
