use protohackers::kv::{parse_request, Database, Request, VERSION_REPLY};

fn retrieve(db: &mut Database, key: &str) -> String {
    db.handle_request(Request::Retrieve(key.to_string())).unwrap()
}

#[test]
fn parse_insert_keeps_the_equals_sign_in_the_value() {
    match parse_request(b"foo=bar=baz").unwrap() {
        Request::Insert(k, v) => {
            assert_eq!(k, "foo");
            assert_eq!(v, "=bar=baz");
        }
        other => panic!("unexpected {other:?}"),
    }
    match parse_request(b"=x").unwrap() {
        Request::Insert(k, v) => {
            assert_eq!(k, "");
            assert_eq!(v, "=x");
        }
        other => panic!("unexpected {other:?}"),
    }
}

#[test]
fn parse_retrieve_keeps_the_whole_payload() {
    match parse_request("clé".as_bytes()).unwrap() {
        Request::Retrieve(k) => assert_eq!(k, "clé"),
        other => panic!("unexpected {other:?}"),
    }
    match parse_request(&[b'a', 0, 0]).unwrap() {
        Request::Retrieve(k) => assert_eq!(k, "a\0\0"),
        other => panic!("unexpected {other:?}"),
    }
}

#[test]
fn version_and_missing_keys() {
    let mut db = Database::new();
    assert_eq!(retrieve(&mut db, "version"), VERSION_REPLY);
    assert_eq!(retrieve(&mut db, "nothing"), "");
}

#[test]
fn stored_values_are_retrieved_and_replaced() {
    let mut db = Database::new();
    assert_eq!(db.insert("k".to_string(), "=1".to_string()), None);
    assert!(db.contains_key(&"k".to_string()));
    assert_eq!(retrieve(&mut db, "k"), "=1");
    assert_eq!(
        db.handle_request(Request::Insert("k".to_string(), "=2".to_string())),
        None
    );
    assert_eq!(retrieve(&mut db, "k"), "=2");
    assert_eq!(db.get(&"k".to_string()).cloned(), Some("=2".to_string()));
    db.insert("version".to_string(), "=x".to_string());
    assert_eq!(retrieve(&mut db, "version"), VERSION_REPLY);
}
