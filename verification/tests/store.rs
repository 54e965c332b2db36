use config_store::json::Json;
use config_store::store::Config;
use config_store::store::ConfigError;

fn obj(pairs: Vec<(&[u8], Json)>) -> Json {
    Json::Obj(pairs.into_iter().map(|(k, v)| (k.to_vec(), v)).collect())
}

#[test]
fn init_reads_theme_and_misses_absent_key() {
    let c = Config::initialize(b"{\"theme\":\"dark\"}", b"/tmp/app_config.json".to_vec()).unwrap();
    assert_eq!(c.get_field(b"theme"), Some(Json::Str(b"dark".to_vec())));
    assert_eq!(c.get_field(b"missing"), None);
}

#[test]
fn set_field_appends_new_key() {
    let mut c = Config::initialize(b"{\"a\":1}", b"p".to_vec()).unwrap();
    c.set_field(b"b", Json::Int(2)).unwrap();
    let expected = obj(vec![(b"a", Json::Int(1)), (b"b", Json::Int(2))]);
    assert_eq!(c.get_document(), expected);
    assert_eq!(c.persist_bytes(), b"{\"a\":1,\"b\":2}".to_vec());
}

#[test]
fn empty_object_survives_persist_and_reread() {
    let mut c = Config::initialize(b"{}", b"p".to_vec()).unwrap();
    let bytes = c.persist_bytes();
    c.reread(&bytes).unwrap();
    assert_eq!(c.get_document(), obj(vec![]));
}

#[test]
fn set_then_get_returns_the_value_set() {
    let mut c = Config::initialize(b"{\"a\":1}", b"p".to_vec()).unwrap();
    c.set_field(b"a", Json::Str(b"x".to_vec())).unwrap();
    assert_eq!(c.get_field(b"a"), Some(Json::Str(b"x".to_vec())));
    c.set_field(b"fresh", Json::Bool(true)).unwrap();
    assert_eq!(c.get_field(b"fresh"), Some(Json::Bool(true)));
    assert_eq!(c.get_field(b"a"), Some(Json::Str(b"x".to_vec())));
}

#[test]
fn persist_then_reread_restores_a_rich_document() {
    let doc = obj(vec![
        (b"name", Json::Str(b"quo\"ted\\here".to_vec())),
        (b"count", Json::Int(-42)),
        (b"list", Json::Arr(vec![Json::Null, Json::Bool(false), Json::Int(7)])),
        (b"nested", Json::Obj(vec![(b"k".to_vec(), Json::Arr(vec![]))])),
    ]);
    let mut c = Config::initialize(b"{}", b"p".to_vec()).unwrap();
    c.replace_document(doc);
    let bytes = c.persist_bytes();
    let snapshot = c.get_document();
    c.replace_document(Json::Null);
    c.reread(&bytes).unwrap();
    assert_eq!(c.get_document(), snapshot);
}

#[test]
fn replace_document_is_a_full_replace() {
    let mut c = Config::initialize(b"{\"a\":1,\"b\":2}", b"p".to_vec()).unwrap();
    c.replace_document(obj(vec![(b"c", Json::Int(3))]));
    assert_eq!(c.get_document(), obj(vec![(b"c", Json::Int(3))]));
    assert_eq!(c.get_field(b"a"), None);
}

#[test]
fn initialize_rejects_bad_bytes() {
    assert_eq!(
        Config::initialize(b"not json", b"p".to_vec()).err().unwrap(),
        ConfigError::Parse
    );
    assert_eq!(
        Config::initialize(b"", b"p".to_vec()).err().unwrap(),
        ConfigError::Parse
    );
    assert_eq!(
        Config::initialize(b"{\"a\":1", b"p".to_vec()).err().unwrap(),
        ConfigError::Parse
    );
}

#[test]
fn set_field_on_non_object_root_is_a_shape_error() {
    let mut c = Config::initialize(b"[1,2]", b"p".to_vec()).unwrap();
    assert_eq!(c.set_field(b"a", Json::Int(1)), Err(ConfigError::Shape));
    assert_eq!(c.get_document(), Json::Arr(vec![Json::Int(1), Json::Int(2)]));
    assert_eq!(c.get_field(b"a"), None);
}

#[test]
fn reread_failure_keeps_the_document() {
    let mut c = Config::initialize(b"{\"a\":1}", b"p".to_vec()).unwrap();
    assert_eq!(c.reread(b"###"), Err(ConfigError::Parse));
    assert_eq!(c.get_document(), obj(vec![(b"a", Json::Int(1))]));
}

#[test]
fn source_path_is_kept() {
    let mut c = Config::initialize(b"{}", b"/etc/app/app_config.json".to_vec()).unwrap();
    c.set_field(b"a", Json::Int(1)).unwrap();
    c.replace_document(Json::Obj(vec![]));
    assert_eq!(c.source_path().as_slice(), b"/etc/app/app_config.json");
}

#[test]
fn duplicate_keys_resolve_to_the_first_binding() {
    let c = Config::initialize(b"{\"a\":1,\"a\":2}", b"p".to_vec()).unwrap();
    assert_eq!(c.get_field(b"a"), Some(Json::Int(1)));
}
