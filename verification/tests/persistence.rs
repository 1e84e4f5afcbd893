use nectree::decode_store;
use nectree::encode_store;
use nectree::Link;
use nectree::LinkStore;

fn link(name: &str, url: &str, order: u32) -> Link {
    Link {
        name: name.as_bytes().to_vec(),
        url: url.as_bytes().to_vec(),
        image: format!("{}.png", name).into_bytes(),
        description: format!("about {}", name).into_bytes(),
        order,
    }
}

fn sorted_fields(store: &LinkStore) -> Vec<(Vec<u8>, Vec<u8>, Vec<u8>, Vec<u8>, u32)> {
    let mut v: Vec<(Vec<u8>, Vec<u8>, Vec<u8>, Vec<u8>, u32)> = store
        .snapshot()
        .into_iter()
        .map(|l| (l.name, l.url, l.image, l.description, l.order))
        .collect();
    v.sort();
    v
}

#[test]
fn round_trip_reproduces_records() {
    let mut store = LinkStore::new();
    store.save(link("blog", "http://x", 2));
    store.save(link("shop", "http://y", 1));
    store.save(link("news", "http://z", 3));
    let blob = encode_store(&store);
    let restored = decode_store(&blob).expect("a fresh snapshot must restore");
    assert_eq!(sorted_fields(&store), sorted_fields(&restored));
}

#[test]
fn round_trip_empty_store() {
    let store = LinkStore::new();
    let blob = encode_store(&store);
    let restored = decode_store(&blob).expect("an empty snapshot must restore");
    assert_eq!(restored.len(), 0);
}

#[test]
fn round_trip_after_mutations() {
    let mut store = LinkStore::new();
    store.save(link("a", "http://1", 1));
    store.save(link("b", "http://2", 2));
    store.delete(b"a");
    store.save(link("b", "http://changed", 9));
    let blob = encode_store(&store);
    let restored = decode_store(&blob).expect("snapshot must restore");
    assert_eq!(sorted_fields(&store), sorted_fields(&restored));
}

#[test]
fn decode_rejects_truncated_blob() {
    let mut store = LinkStore::new();
    store.save(link("a", "http://1", 1));
    let mut blob = encode_store(&store);
    blob.pop();
    assert!(decode_store(&blob).is_none());
}

#[test]
fn decode_rejects_trailing_bytes() {
    let store = LinkStore::new();
    let mut blob = encode_store(&store);
    blob.push(0);
    assert!(decode_store(&blob).is_none());
}

#[test]
fn decode_rejects_garbage() {
    assert!(decode_store(b"not a snapshot").is_none());
    assert!(decode_store(b"").is_none());
}

#[test]
fn decode_rejects_duplicate_names() {
    // Two records under one name: 2 records, each name "a".
    let mut blob: Vec<u8> = Vec::new();
    blob.extend_from_slice(&2u64.to_le_bytes());
    for _ in 0..2 {
        for field in [b"a".as_slice(), b"u", b"i", b"d"] {
            blob.extend_from_slice(&(field.len() as u64).to_le_bytes());
            blob.extend_from_slice(field);
        }
        blob.extend_from_slice(&1u32.to_le_bytes());
    }
    assert!(decode_store(&blob).is_none());
}

#[test]
fn decode_rejects_empty_name() {
    let mut blob: Vec<u8> = Vec::new();
    blob.extend_from_slice(&1u64.to_le_bytes());
    for field in [b"".as_slice(), b"u", b"i", b"d"] {
        blob.extend_from_slice(&(field.len() as u64).to_le_bytes());
        blob.extend_from_slice(field);
    }
    blob.extend_from_slice(&1u32.to_le_bytes());
    assert!(decode_store(&blob).is_none());
}

#[test]
fn blob_layout_is_little_endian_length_prefixed() {
    let mut store = LinkStore::new();
    store.save(link("a", "u", 0x01020304));
    let blob = encode_store(&store);
    // count
    assert_eq!(&blob[0..8], &1u64.to_le_bytes());
    // first field: the name, length 1, then the byte 'a'
    assert_eq!(&blob[8..16], &1u64.to_le_bytes());
    assert_eq!(blob[16], b'a');
    // the sort key sits in the last four bytes
    assert_eq!(&blob[blob.len() - 4..], &0x01020304u32.to_le_bytes());
}
