use config_store::json::bytes_eq;
use config_store::json::clone_bytes;
use config_store::json::Json;

#[test]
fn byte_equality_is_exact() {
    assert!(bytes_eq(b"", b""));
    assert!(bytes_eq(b"abc", b"abc"));
    assert!(!bytes_eq(b"abc", b"abd"));
    assert!(!bytes_eq(b"abc", b"ab"));
}

#[test]
fn clone_bytes_copies() {
    assert_eq!(clone_bytes(b"hello"), b"hello".to_vec());
    assert_eq!(clone_bytes(b""), Vec::<u8>::new());
}

#[test]
fn deep_clone_copies_the_whole_tree() {
    let doc = Json::Obj(vec![
        (
            b"a".to_vec(),
            Json::Arr(vec![Json::Int(1), Json::Str(b"x".to_vec())]),
        ),
        (b"b".to_vec(), Json::Null),
    ]);
    assert_eq!(doc.deep_clone(), doc);
}

#[test]
fn get_key_takes_the_first_binding() {
    let doc = Json::Obj(vec![
        (b"k".to_vec(), Json::Int(1)),
        (b"k".to_vec(), Json::Int(2)),
    ]);
    assert_eq!(doc.get_key(b"k"), Some(Json::Int(1)));
    assert_eq!(doc.get_key(b"other"), None);
}

#[test]
fn get_key_on_a_non_object_is_absent() {
    assert_eq!(Json::Int(3).get_key(b"k"), None);
    assert_eq!(Json::Arr(vec![]).get_key(b"k"), None);
}

#[test]
fn set_key_overwrites_in_place_or_appends() {
    let mut doc = Json::Obj(vec![
        (b"a".to_vec(), Json::Int(1)),
        (b"b".to_vec(), Json::Int(2)),
    ]);
    assert!(doc.set_key(b"a", Json::Int(9)));
    assert_eq!(
        doc,
        Json::Obj(vec![
            (b"a".to_vec(), Json::Int(9)),
            (b"b".to_vec(), Json::Int(2)),
        ])
    );
    assert!(doc.set_key(b"c", Json::Int(3)));
    assert_eq!(
        doc,
        Json::Obj(vec![
            (b"a".to_vec(), Json::Int(9)),
            (b"b".to_vec(), Json::Int(2)),
            (b"c".to_vec(), Json::Int(3)),
        ])
    );
}

#[test]
fn set_key_on_a_non_object_fails_and_keeps_the_value() {
    let mut doc = Json::Str(b"s".to_vec());
    assert!(!doc.set_key(b"a", Json::Int(1)));
    assert_eq!(doc, Json::Str(b"s".to_vec()));
}
