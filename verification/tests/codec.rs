use aether_store::blob::BlobStore;
use aether_store::codec::{
    decode_atom, decode_contract, decode_identity, decode_json_doc, decode_project, encode_atom,
    encode_contract, encode_identity, encode_json, encode_project,
};
use aether_store::io::IOContract;
use aether_store::json::{JsonValue, json_clone, json_eq};
use aether_store::loom::{parse_i64, tokenize};
use aether_store::{IdentityAtom, LogicAtom, ProjectAtom, ProjectStatus};

#[test]
fn atom_codec_round_trips() {
    let atom = LogicAtom {
        op_code: 500,
        inputs: vec!["h1".to_string(), "h2".to_string()],
        storage_ref: "local://abc".to_string(),
        context_id: "proj".to_string(),
    };
    let bytes = encode_atom(&atom);
    assert_eq!(decode_atom(&bytes), Some(atom));
    assert_eq!(decode_atom(&bytes[..bytes.len() - 1]), None);
    assert_eq!(decode_atom(b"junk"), None);
}

#[test]
fn json_codec_round_trips() {
    let value = JsonValue::Object(vec![
        ("name".to_string(), JsonValue::Str("Ampang".to_string())),
        ("built".to_string(), JsonValue::Int(-7)),
        ("open".to_string(), JsonValue::Bool(true)),
        ("notes".to_string(), JsonValue::Null),
        (
            "lines".to_string(),
            JsonValue::Array(vec![JsonValue::Int(3), JsonValue::Str("LRT".to_string())]),
        ),
    ]);
    let bytes = encode_json(&value);
    let back = decode_json_doc(&bytes).unwrap();
    assert!(json_eq(&back, &value));
    assert!(decode_json_doc(&bytes[..bytes.len() - 1]).is_none());
}

#[test]
fn identity_and_project_codecs_round_trip() {
    let identity = IdentityAtom {
        public_key: "pk".to_string(),
        role: "admin".to_string(),
        org_hash: "org".to_string(),
        access_nodes: vec!["a".to_string(), "b".to_string()],
    };
    assert_eq!(decode_identity(&encode_identity(&identity)), Some(identity));

    let project = ProjectAtom {
        name: "transit".to_string(),
        root_hash: "r".to_string(),
        org_hash: "o".to_string(),
        status: ProjectStatus::Archived,
        created_at: 99,
    };
    assert_eq!(decode_project(&encode_project(&project)), Some(project));
}

#[test]
fn contract_codec_round_trips() {
    let contract = IOContract {
        endpoint: "http://localhost/x".to_string(),
        schema: JsonValue::Object(vec![(
            "type".to_string(),
            JsonValue::Str("array".to_string()),
        )]),
        sensitivity: 2,
    };
    let bytes = encode_contract(&contract);
    let back = decode_contract(&bytes).unwrap();
    assert_eq!(back.endpoint, contract.endpoint);
    assert_eq!(back.sensitivity, 2);
    assert!(json_eq(&back.schema, &contract.schema));
}

#[test]
fn digests_differ_when_content_differs() {
    let mut blobs = BlobStore::new();
    let a = blobs.write_blob(b"one");
    let b = blobs.write_blob(b"two");
    assert_ne!(a, b);
    let value = JsonValue::Int(1);
    let copy = json_clone(&value);
    assert!(json_eq(&value, &copy));
}

#[test]
fn tokenizer_and_number_parser_behave() {
    let words = tokenize("  Filter where built >  2020 ");
    assert_eq!(words, vec!["Filter", "where", "built", ">", "2020"]);
    assert_eq!(tokenize(""), Vec::<String>::new());
    assert_eq!(parse_i64("2020"), Some(2020));
    assert_eq!(parse_i64("-5"), Some(-5));
    assert_eq!(parse_i64("+7"), Some(7));
    assert_eq!(parse_i64("12a"), None);
    assert_eq!(parse_i64(""), None);
    assert_eq!(parse_i64("9223372036854775807"), Some(i64::MAX));
    assert_eq!(parse_i64("9223372036854775808"), None);
    assert_eq!(parse_i64("-9223372036854775808"), Some(i64::MIN));
    assert_eq!(parse_i64("-9223372036854775809"), None);
}
