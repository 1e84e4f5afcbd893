use nectree::decode_request;
use nectree::LinkRequest;

#[test]
fn decode_save() {
    let body =
        br#"{"Save":{"name":"blog","url":"http://x","image":"i.png","description":"my blog","order":1}}"#;
    match decode_request(body) {
        Some(LinkRequest::Save(l)) => {
            assert_eq!(l.name, b"blog".to_vec());
            assert_eq!(l.url, b"http://x".to_vec());
            assert_eq!(l.image, b"i.png".to_vec());
            assert_eq!(l.description, b"my blog".to_vec());
            assert_eq!(l.order, 1);
        },
        _ => panic!("expected a save"),
    }
}

#[test]
fn decode_save_any_field_order() {
    let body =
        br#"{ "Save" : { "order" : 12 , "description" : "d" , "image" : "i" , "url" : "u" , "name" : "n" } }"#;
    match decode_request(body) {
        Some(LinkRequest::Save(l)) => {
            assert_eq!(l.name, b"n".to_vec());
            assert_eq!(l.order, 12);
        },
        _ => panic!("expected a save"),
    }
}

#[test]
fn decode_delete() {
    let body = br#"{"Delete":{"name":"blog"}}"#;
    match decode_request(body) {
        Some(LinkRequest::Delete { name }) => assert_eq!(name, b"blog".to_vec()),
        _ => panic!("expected a delete"),
    }
}

#[test]
fn decode_delete_with_whitespace() {
    let body = b" \t\r\n{ \"Delete\" : { \"name\" : \"a b\" } } \n";
    match decode_request(body) {
        Some(LinkRequest::Delete { name }) => assert_eq!(name, b"a b".to_vec()),
        _ => panic!("expected a delete"),
    }
}

#[test]
fn decode_string_escapes() {
    let body = br#"{"Delete":{"name":"a\"b\\c\/d\ne\tfAg"}}"#;
    match decode_request(body) {
        Some(LinkRequest::Delete { name }) => assert_eq!(name, b"a\"b\\c/d\ne\tfAg".to_vec()),
        _ => panic!("expected a delete"),
    }
}

#[test]
fn decode_unicode_escape_multibyte() {
    let body = br#"{"Delete":{"name":"caf\u00e9"}}"#;
    match decode_request(body) {
        Some(LinkRequest::Delete { name }) => assert_eq!(name, "caf\u{e9}".as_bytes().to_vec()),
        _ => panic!("expected a delete"),
    }
}

#[test]
fn decode_utf8_passthrough() {
    let body = "{\"Delete\":{\"name\":\"caf\u{e9}\"}}".as_bytes();
    match decode_request(body) {
        Some(LinkRequest::Delete { name }) => assert_eq!(name, "caf\u{e9}".as_bytes().to_vec()),
        _ => panic!("expected a delete"),
    }
}

#[test]
fn decode_max_order() {
    let body = br#"{"Save":{"name":"n","url":"u","image":"i","description":"d","order":4294967295}}"#;
    match decode_request(body) {
        Some(LinkRequest::Save(l)) => assert_eq!(l.order, u32::MAX),
        _ => panic!("expected a save"),
    }
}

#[test]
fn reject_order_overflow() {
    let body = br#"{"Save":{"name":"n","url":"u","image":"i","description":"d","order":4294967296}}"#;
    assert!(decode_request(body).is_none());
}

#[test]
fn reject_leading_zero_order() {
    let body = br#"{"Save":{"name":"n","url":"u","image":"i","description":"d","order":01}}"#;
    assert!(decode_request(body).is_none());
}

#[test]
fn reject_missing_field() {
    let body = br#"{"Save":{"name":"n","url":"u","image":"i","order":1}}"#;
    assert!(decode_request(body).is_none());
}

#[test]
fn reject_duplicate_field() {
    let body = br#"{"Save":{"name":"n","name":"m","url":"u","image":"i","description":"d","order":1}}"#;
    assert!(decode_request(body).is_none());
}

#[test]
fn reject_unknown_field() {
    let body = br#"{"Save":{"name":"n","url":"u","image":"i","description":"d","order":1,"extra":"x"}}"#;
    assert!(decode_request(body).is_none());
}

#[test]
fn reject_unknown_operation() {
    let body = br#"{"Rename":{"name":"n"}}"#;
    assert!(decode_request(body).is_none());
}

#[test]
fn reject_trailing_garbage() {
    let body = br#"{"Delete":{"name":"n"}}x"#;
    assert!(decode_request(body).is_none());
}

#[test]
fn reject_not_json() {
    assert!(decode_request(b"hello").is_none());
    assert!(decode_request(b"").is_none());
    assert!(decode_request(b"[1,2,3]").is_none());
}

#[test]
fn reject_unterminated_string() {
    let body = br#"{"Delete":{"name":"n"#;
    assert!(decode_request(body).is_none());
}

#[test]
fn reject_bad_escape() {
    let body = br#"{"Delete":{"name":"a\qb"}}"#;
    assert!(decode_request(body).is_none());
}

#[test]
fn reject_raw_control_byte() {
    let body = b"{\"Delete\":{\"name\":\"a\x01b\"}}";
    assert!(decode_request(body).is_none());
}

#[test]
fn decode_agrees_with_reference_parser() {
    let bodies: [&[u8]; 3] = [
        br#"{"Save":{"name":"blog","url":"http://x","image":"i.png","description":"my blog","order":1}}"#,
        br#"{"Delete":{"name":"blog"}}"#,
        br#"{"Save":{"order":2,"name":"n","url":"u","image":"i","description":"d"}}"#,
    ];
    for body in bodies {
        let value: serde_json::Value = serde_json::from_slice(body).unwrap();
        match decode_request(body) {
            Some(LinkRequest::Save(l)) => {
                let inner = value.get("Save").unwrap();
                assert_eq!(inner.get("name").unwrap().as_str().unwrap().as_bytes(), &l.name[..]);
                assert_eq!(inner.get("url").unwrap().as_str().unwrap().as_bytes(), &l.url[..]);
                assert_eq!(
                    inner.get("order").unwrap().as_u64().unwrap(),
                    u64::from(l.order)
                );
            },
            Some(LinkRequest::Delete { name }) => {
                let inner = value.get("Delete").unwrap();
                assert_eq!(inner.get("name").unwrap().as_str().unwrap().as_bytes(), &name[..]);
            },
            None => panic!("reference-valid body was rejected"),
        }
    }
}
