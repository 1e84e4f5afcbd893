use nectree::render_page;
use nectree::sorted_links;
use nectree::Link;
use nectree::LinkStore;

fn link(name: &str, url: &str, order: u32) -> Link {
    Link {
        name: name.as_bytes().to_vec(),
        url: url.as_bytes().to_vec(),
        image: format!("{}.png", name).into_bytes(),
        description: format!("about {}", name).into_bytes(),
        order,
    }
}

fn find(haystack: &[u8], needle: &[u8]) -> Option<usize> {
    if needle.len() > haystack.len() {
        return None;
    }
    (0..=haystack.len() - needle.len()).find(|&i| &haystack[i..i + needle.len()] == needle)
}

#[test]
fn render_twice_is_byte_identical() {
    let mut store = LinkStore::new();
    store.save(link("blog", "http://x", 2));
    store.save(link("shop", "http://y", 1));
    let first = render_page(&store);
    let second = render_page(&store);
    assert_eq!(first, second);
}

#[test]
fn render_empty_shows_placeholder() {
    let store = LinkStore::new();
    let page = render_page(&store);
    assert!(find(&page, b"No links yet.").is_some());
    assert!(find(&page, b"<a href=").is_none());
}

#[test]
fn render_embeds_record_fields() {
    let mut store = LinkStore::new();
    store.save(link("blog", "http://x", 1));
    let page = render_page(&store);
    assert!(find(&page, b"href=\"http://x\"").is_some());
    assert!(find(&page, b"<h3>blog</h3>").is_some());
    assert!(find(&page, b"src=\"blog.png\"").is_some());
    assert!(find(&page, b"about blog").is_some());
    assert!(find(&page, b"deleteLink('blog')").is_some());
}

#[test]
fn render_empty_exact_page() {
    let store = LinkStore::new();
    let page = render_page(&store);
    let mut expected = String::new();
    expected.push_str("<!DOCTYPE html><html><head><meta charset=\"utf-8\"><title>Links</title></head><body><h1>Links</h1><div id=\"links\">");
    expected.push_str("<p>No links yet.</p>");
    expected.push_str("</div><script>function deleteLink(name){fetch('/post',{method:'POST',body:JSON.stringify({Delete:{name:name}})}).then(function(){location.reload()})}</script></body></html>");
    assert_eq!(String::from_utf8(page).unwrap(), expected);
}

#[test]
fn render_is_html_document() {
    let store = LinkStore::new();
    let page = render_page(&store);
    assert!(page.starts_with(b"<!DOCTYPE html>"));
    assert!(page.ends_with(b"</html>"));
}

#[test]
fn render_sorts_by_order_regardless_of_insertion() {
    let mut store = LinkStore::new();
    store.save(link("third", "http://3", 30));
    store.save(link("first", "http://1", 10));
    store.save(link("second", "http://2", 20));
    let page = render_page(&store);
    let p1 = find(&page, b"<h3>first</h3>").unwrap();
    let p2 = find(&page, b"<h3>second</h3>").unwrap();
    let p3 = find(&page, b"<h3>third</h3>").unwrap();
    assert!(p1 < p2 && p2 < p3);
}

#[test]
fn render_identical_for_different_insertion_orders() {
    let mut a = LinkStore::new();
    a.save(link("x", "http://x", 5));
    a.save(link("y", "http://y", 5));
    let mut b = LinkStore::new();
    b.save(link("y", "http://y", 5));
    b.save(link("x", "http://x", 5));
    assert_eq!(render_page(&a), render_page(&b));
}

#[test]
fn sorted_links_ties_break_by_name() {
    let mut store = LinkStore::new();
    store.save(link("beta", "http://b", 1));
    store.save(link("alpha", "http://a", 1));
    let sorted = sorted_links(&store);
    assert_eq!(sorted[0].name, b"alpha".to_vec());
    assert_eq!(sorted[1].name, b"beta".to_vec());
}

#[test]
fn sorted_links_ascending_orders() {
    let mut store = LinkStore::new();
    store.save(link("c", "http://c", 9));
    store.save(link("a", "http://a", 4));
    store.save(link("b", "http://b", 7));
    let sorted = sorted_links(&store);
    let orders: Vec<u32> = sorted.iter().map(|l| l.order).collect();
    assert_eq!(orders, vec![4, 7, 9]);
}
