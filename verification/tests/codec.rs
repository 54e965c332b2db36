use config_store::json::Json;
use config_store::codec::parse_doc;
use config_store::codec::to_bytes;

#[test]
fn scalars_parse() {
    assert_eq!(parse_doc(b"null"), Some(Json::Null));
    assert_eq!(parse_doc(b"true"), Some(Json::Bool(true)));
    assert_eq!(parse_doc(b"false"), Some(Json::Bool(false)));
    assert_eq!(parse_doc(b"0"), Some(Json::Int(0)));
    assert_eq!(parse_doc(b"-7"), Some(Json::Int(-7)));
    assert_eq!(parse_doc(b"\"\""), Some(Json::Str(vec![])));
}

#[test]
fn whitespace_between_tokens_is_accepted() {
    let got = parse_doc(b" { \"a\" :\t1 ,\n\"b\" : [ 1 , 2 ] }\r\n").unwrap();
    let expected = Json::Obj(vec![
        (b"a".to_vec(), Json::Int(1)),
        (b"b".to_vec(), Json::Arr(vec![Json::Int(1), Json::Int(2)])),
    ]);
    assert_eq!(got, expected);
}

#[test]
fn escapes_round_trip() {
    let doc = Json::Str(b"a\"b\\c".to_vec());
    let bytes = to_bytes(&doc);
    assert_eq!(bytes, b"\"a\\\"b\\\\c\"".to_vec());
    assert_eq!(parse_doc(&bytes), Some(doc));
}

#[test]
fn unknown_escape_is_rejected() {
    assert_eq!(parse_doc(b"\"a\\n\""), None);
}

#[test]
fn extreme_integers_parse_and_print() {
    assert_eq!(
        parse_doc(b"9223372036854775807"),
        Some(Json::Int(i64::MAX))
    );
    assert_eq!(
        parse_doc(b"-9223372036854775808"),
        Some(Json::Int(i64::MIN))
    );
    assert_eq!(parse_doc(b"9223372036854775808"), None);
    assert_eq!(parse_doc(b"-9223372036854775809"), None);
    assert_eq!(parse_doc(b"12345678901234567890123"), None);
    assert_eq!(to_bytes(&Json::Int(i64::MIN)), b"-9223372036854775808".to_vec());
    assert_eq!(to_bytes(&Json::Int(i64::MAX)), b"9223372036854775807".to_vec());
}

#[test]
fn malformed_documents_are_rejected() {
    assert_eq!(parse_doc(b""), None);
    assert_eq!(parse_doc(b"tru"), None);
    assert_eq!(parse_doc(b"{"), None);
    assert_eq!(parse_doc(b"[1,"), None);
    assert_eq!(parse_doc(b"1.5"), None);
    assert_eq!(parse_doc(b"\"abc"), None);
    assert_eq!(parse_doc(b"{\"a\" 1}"), None);
    assert_eq!(parse_doc(b"{a:1}"), None);
    assert_eq!(parse_doc(b"[1] 2"), None);
    assert_eq!(parse_doc(b"-"), None);
}

#[test]
fn canonical_bytes_of_a_nested_document() {
    let doc = Json::Obj(vec![
        (b"k".to_vec(), Json::Arr(vec![Json::Null, Json::Int(-5)])),
        (b"s".to_vec(), Json::Str(b"v".to_vec())),
    ]);
    assert_eq!(to_bytes(&doc), b"{\"k\":[null,-5],\"s\":\"v\"}".to_vec());
}

#[test]
fn nested_round_trip() {
    let doc = Json::Arr(vec![
        Json::Obj(vec![]),
        Json::Arr(vec![Json::Arr(vec![Json::Int(1)])]),
        Json::Bool(true),
        Json::Str(b"end".to_vec()),
    ]);
    assert_eq!(parse_doc(&to_bytes(&doc)), Some(doc));
}

#[test]
fn empty_containers_parse() {
    assert_eq!(parse_doc(b"[]"), Some(Json::Arr(vec![])));
    assert_eq!(parse_doc(b"{}"), Some(Json::Obj(vec![])));
    assert_eq!(parse_doc(b"[ ]"), Some(Json::Arr(vec![])));
    assert_eq!(parse_doc(b"{ }"), Some(Json::Obj(vec![])));
}

#[test]
fn leading_zeros_read_as_their_value() {
    assert_eq!(parse_doc(b"007"), Some(Json::Int(7)));
}
