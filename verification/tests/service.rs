use nectree::decode_store;
use nectree::handle_request;
use nectree::render_page;
use nectree::LinkStore;
use nectree::Reply;

fn find(haystack: &[u8], needle: &[u8]) -> Option<usize> {
    if needle.len() > haystack.len() {
        return None;
    }
    (0..=haystack.len() - needle.len()).find(|&i| &haystack[i..i + needle.len()] == needle)
}

#[test]
fn get_serves_page_without_mutation() {
    let mut store = LinkStore::new();
    let outcome = handle_request(b"GET", None, &mut store);
    assert_eq!(outcome.reply, Reply::Page);
    assert!(outcome.state.is_none());
    assert!(outcome.html.is_none());
    assert_eq!(store.len(), 0);
}

#[test]
fn other_methods_are_refused() {
    let mut store = LinkStore::new();
    for method in [b"PUT".as_slice(), b"PATCH", b"DELETE", b"HEAD", b""] {
        let outcome = handle_request(method, None, &mut store);
        assert_eq!(outcome.reply, Reply::MethodNotAllowed);
        assert_eq!(store.len(), 0);
    }
}

#[test]
fn post_without_body_is_dropped() {
    let mut store = LinkStore::new();
    let outcome = handle_request(b"POST", None, &mut store);
    assert_eq!(outcome.reply, Reply::Dropped);
    assert!(outcome.state.is_none());
    assert!(outcome.html.is_none());
    assert_eq!(store.len(), 0);
}

#[test]
fn post_with_undecodable_body_is_dropped() {
    let mut store = LinkStore::new();
    let body = b"not json at all".to_vec();
    let outcome = handle_request(b"POST", Some(&body), &mut store);
    assert_eq!(outcome.reply, Reply::Dropped);
    assert_eq!(store.len(), 0);
}

#[test]
fn save_with_empty_name_is_dropped() {
    let mut store = LinkStore::new();
    let body =
        br#"{"Save":{"name":"","url":"u","image":"i","description":"d","order":1}}"#.to_vec();
    let outcome = handle_request(b"POST", Some(&body), &mut store);
    assert_eq!(outcome.reply, Reply::Dropped);
    assert_eq!(store.len(), 0);
}

#[test]
fn save_mutates_and_refreshes_artifacts() {
    let mut store = LinkStore::new();
    let body =
        br#"{"Save":{"name":"blog","url":"http://x","image":"i.png","description":"my blog","order":1}}"#
        .to_vec();
    let outcome = handle_request(b"POST", Some(&body), &mut store);
    assert_eq!(outcome.reply, Reply::Created);
    assert_eq!(store.len(), 1);
    let state = outcome.state.expect("a mutation refreshes the state blob");
    let html = outcome.html.expect("a mutation refreshes the page");
    // the blob restores the mutated store
    let restored = decode_store(&state).expect("the refreshed blob must restore");
    assert_eq!(restored.len(), 1);
    // the page equals a fresh render of the mutated store
    assert_eq!(html, render_page(&store));
}

#[test]
fn delete_absent_still_succeeds() {
    let mut store = LinkStore::new();
    let body = br#"{"Delete":{"name":"missing"}}"#.to_vec();
    let outcome = handle_request(b"POST", Some(&body), &mut store);
    assert_eq!(outcome.reply, Reply::Created);
    assert_eq!(store.len(), 0);
}

#[test]
fn scenario_save_get_delete() {
    let mut store = LinkStore::new();

    let save =
        br#"{"Save":{"name":"blog","url":"http://x","image":"i.png","description":"my blog","order":1}}"#
        .to_vec();
    let outcome = handle_request(b"POST", Some(&save), &mut store);
    assert_eq!(outcome.reply, Reply::Created);
    let page = outcome.html.expect("the page is refreshed after the save");
    assert!(find(&page, b"href=\"http://x\"").is_some());
    assert!(find(&page, b"my blog").is_some());

    let get = handle_request(b"GET", None, &mut store);
    assert_eq!(get.reply, Reply::Page);

    let delete = br#"{"Delete":{"name":"blog"}}"#.to_vec();
    let outcome = handle_request(b"POST", Some(&delete), &mut store);
    assert_eq!(outcome.reply, Reply::Created);
    let page = outcome.html.expect("the page is refreshed after the delete");
    assert!(find(&page, b"No links yet.").is_some());
    assert!(find(&page, b"http://x").is_none());
}

#[test]
fn upsert_via_requests() {
    let mut store = LinkStore::new();
    let first =
        br#"{"Save":{"name":"n","url":"http://old","image":"i","description":"d","order":1}}"#
        .to_vec();
    let second =
        br#"{"Save":{"name":"n","url":"http://new","image":"i","description":"d","order":1}}"#
        .to_vec();
    handle_request(b"POST", Some(&first), &mut store);
    let outcome = handle_request(b"POST", Some(&second), &mut store);
    assert_eq!(outcome.reply, Reply::Created);
    assert_eq!(store.len(), 1);
    let html = outcome.html.unwrap();
    assert!(find(&html, b"http://new").is_some());
    assert!(find(&html, b"http://old").is_none());
}
