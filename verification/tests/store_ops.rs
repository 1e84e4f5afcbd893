use nectree::Link;
use nectree::LinkStore;

fn link(name: &str, url: &str, order: u32) -> Link {
    Link {
        name: name.as_bytes().to_vec(),
        url: url.as_bytes().to_vec(),
        image: b"i.png".to_vec(),
        description: b"d".to_vec(),
        order,
    }
}

#[test]
fn save_inserts() {
    let mut store = LinkStore::new();
    assert_eq!(store.len(), 0);
    store.save(link("blog", "http://x", 1));
    assert_eq!(store.len(), 1);
    let snap = store.snapshot();
    assert_eq!(snap[0].name, b"blog".to_vec());
    assert_eq!(snap[0].url, b"http://x".to_vec());
}

#[test]
fn save_twice_upserts() {
    let mut store = LinkStore::new();
    store.save(link("blog", "http://x", 1));
    store.save(link("blog", "http://y", 7));
    assert_eq!(store.len(), 1);
    let snap = store.snapshot();
    assert_eq!(snap[0].name, b"blog".to_vec());
    assert_eq!(snap[0].url, b"http://y".to_vec());
    assert_eq!(snap[0].order, 7);
}

#[test]
fn save_distinct_names_accumulate() {
    let mut store = LinkStore::new();
    store.save(link("a", "http://a", 1));
    store.save(link("b", "http://b", 2));
    store.save(link("c", "http://c", 3));
    assert_eq!(store.len(), 3);
}

#[test]
fn delete_removes() {
    let mut store = LinkStore::new();
    store.save(link("a", "http://a", 1));
    store.save(link("b", "http://b", 2));
    store.delete(b"a");
    assert_eq!(store.len(), 1);
    let snap = store.snapshot();
    assert_eq!(snap[0].name, b"b".to_vec());
}

#[test]
fn delete_absent_is_noop() {
    let mut store = LinkStore::new();
    store.save(link("a", "http://a", 1));
    store.delete(b"missing");
    assert_eq!(store.len(), 1);
    let snap = store.snapshot();
    assert_eq!(snap[0].name, b"a".to_vec());
    assert_eq!(snap[0].url, b"http://a".to_vec());
}

#[test]
fn delete_on_empty_store() {
    let mut store = LinkStore::new();
    store.delete(b"anything");
    assert_eq!(store.len(), 0);
}
