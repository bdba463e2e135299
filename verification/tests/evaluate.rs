use aether_store::blob::BlobStore;
use aether_store::codec::{encode_contract, encode_json};
use aether_store::io::IOContract;
use aether_store::json::{JsonValue, json_clone, json_eq, json_field};
use aether_store::kernel::{AetherKernel, IoTable, KernelError, RuntimeError};
use aether_store::vault::AetherVault;
use aether_store::{LogicAtom, VaultError};

fn obj(fields: Vec<(&str, JsonValue)>) -> JsonValue {
    JsonValue::Object(
        fields
            .into_iter()
            .map(|(k, v)| (k.to_string(), v))
            .collect(),
    )
}

fn listing(built: i64) -> JsonValue {
    obj(vec![("built", JsonValue::Int(built))])
}

fn atom(op_code: u16, inputs: Vec<String>, storage_ref: String) -> LogicAtom {
    LogicAtom {
        op_code,
        inputs,
        storage_ref,
        context_id: "global".to_string(),
    }
}

#[test]
fn scalar_addition_evaluates_payload_bytes() {
    let mut vault = AetherVault::new_ephemeral().unwrap();
    let mut blobs = BlobStore::new();
    let payload: Vec<u8> = vec![10, 0, 0, 0, 20, 0, 0, 0];
    let storage_ref = blobs.write_blob(&payload);
    let hash = vault.persist(&atom(1, Vec::new(), storage_ref)).unwrap();
    let kernel = AetherKernel::new(vault);
    assert_eq!(kernel.execute(&hash, &blobs).unwrap(), 30);
    let (value, _elapsed) = kernel.execute_with_metrics(&hash, &blobs).unwrap();
    assert_eq!(value, 30);
}

#[test]
fn scalar_path_reports_short_payload_and_wrong_op() {
    let mut vault = AetherVault::new_ephemeral().unwrap();
    let mut blobs = BlobStore::new();
    let short_ref = blobs.write_blob(&[1, 2, 3]);
    let short_hash = vault.persist(&atom(1, Vec::new(), short_ref)).unwrap();
    let other_ref = blobs.write_blob(&[]);
    let other_hash = vault.persist(&atom(7, Vec::new(), other_ref.clone())).unwrap();
    let audit_hash = vault.persist(&atom(100, Vec::new(), other_ref)).unwrap();
    let kernel = AetherKernel::new(vault);
    assert!(matches!(
        kernel.execute(&short_hash, &blobs),
        Err(KernelError::Runtime(RuntimeError::PayloadTooShort))
    ));
    assert!(matches!(
        kernel.execute(&other_hash, &blobs),
        Err(KernelError::InvalidOpCode(7))
    ));
    assert!(matches!(
        kernel.execute(&audit_hash, &blobs),
        Err(KernelError::InvalidOpCode(100))
    ));
    assert!(matches!(
        kernel.execute("unknown-hash", &blobs),
        Err(KernelError::Vault(VaultError::NotFound))
    ));
}

#[test]
fn filter_keeps_matching_elements() {
    let mut vault = AetherVault::new_ephemeral().unwrap();
    let mut blobs = BlobStore::new();
    let io = IoTable::new();

    let source_payload = encode_json(&JsonValue::Array(vec![listing(2021), listing(2019)]));
    let source_ref = blobs.write_blob(&source_payload);
    let source_hash = vault.persist(&atom(50, Vec::new(), source_ref)).unwrap();

    let config = obj(vec![
        ("field", JsonValue::Str("built".to_string())),
        ("op", JsonValue::Str(">".to_string())),
        ("val", JsonValue::Int(2020)),
    ]);
    let filter_ref = blobs.write_blob(&encode_json(&config));
    let filter_hash = vault
        .persist(&atom(2, vec![source_hash], filter_ref))
        .unwrap();

    let kernel = AetherKernel::new(vault);
    let result = kernel.execute_smart(&filter_hash, &blobs, &io).unwrap();
    let expected = JsonValue::Array(vec![listing(2021)]);
    assert!(json_eq(&result, &expected));
}

#[test]
fn filter_string_and_unknown_operators() {
    let mut vault = AetherVault::new_ephemeral().unwrap();
    let mut blobs = BlobStore::new();
    let io = IoTable::new();

    let rows = JsonValue::Array(vec![
        obj(vec![("station", JsonValue::Str("Bukit Bintang".to_string()))]),
        obj(vec![("station", JsonValue::Str("Ampang".to_string()))]),
    ]);
    let source_ref = blobs.write_blob(&encode_json(&rows));
    let source_hash = vault.persist(&atom(50, Vec::new(), source_ref)).unwrap();

    let contains_cfg = obj(vec![
        ("field", JsonValue::Str("station".to_string())),
        ("op", JsonValue::Str("contains".to_string())),
        ("val", JsonValue::Str("Bintang".to_string())),
    ]);
    let contains_ref = blobs.write_blob(&encode_json(&contains_cfg));
    let contains_hash = vault
        .persist(&atom(2, vec![source_hash.clone()], contains_ref))
        .unwrap();

    let odd_cfg = obj(vec![
        ("field", JsonValue::Str("station".to_string())),
        ("op", JsonValue::Str("resembles".to_string())),
        ("val", JsonValue::Str("x".to_string())),
    ]);
    let odd_ref = blobs.write_blob(&encode_json(&odd_cfg));
    let odd_hash = vault
        .persist(&atom(2, vec![source_hash], odd_ref))
        .unwrap();

    let kernel = AetherKernel::new(vault);
    let narrowed = kernel.execute_smart(&contains_hash, &blobs, &io).unwrap();
    let expected = JsonValue::Array(vec![obj(vec![(
        "station",
        JsonValue::Str("Bukit Bintang".to_string()),
    )])]);
    assert!(json_eq(&narrowed, &expected));

    let passed_through = kernel.execute_smart(&odd_hash, &blobs, &io).unwrap();
    let rows_again = JsonValue::Array(vec![
        obj(vec![("station", JsonValue::Str("Bukit Bintang".to_string()))]),
        obj(vec![("station", JsonValue::Str("Ampang".to_string()))]),
    ]);
    assert!(json_eq(&passed_through, &rows_again));
}

#[test]
fn merge_concatenates_arrays_in_input_order() {
    let mut vault = AetherVault::new_ephemeral().unwrap();
    let mut blobs = BlobStore::new();
    let io = IoTable::new();

    let left_ref = blobs.write_blob(&encode_json(&JsonValue::Array(vec![JsonValue::Int(1)])));
    let left = vault.persist(&atom(50, Vec::new(), left_ref)).unwrap();
    let right_ref = blobs.write_blob(&encode_json(&JsonValue::Array(vec![JsonValue::Int(2)])));
    let right = vault.persist(&atom(50, Vec::new(), right_ref)).unwrap();
    let scalar_ref = blobs.write_blob(&encode_json(&JsonValue::Int(9)));
    let scalar = vault.persist(&atom(50, Vec::new(), scalar_ref)).unwrap();

    let merge_ref = blobs.write_blob(&[]);
    let merge_hash = vault
        .persist(&atom(3, vec![left, scalar, right], merge_ref))
        .unwrap();

    let kernel = AetherKernel::new(vault);
    let merged = kernel.execute_smart(&merge_hash, &blobs, &io).unwrap();
    let expected = JsonValue::Array(vec![JsonValue::Int(1), JsonValue::Int(2)]);
    assert!(json_eq(&merged, &expected));
}

#[test]
fn audit_passes_first_input_through() {
    let mut vault = AetherVault::new_ephemeral().unwrap();
    let mut blobs = BlobStore::new();
    let io = IoTable::new();
    let value_ref = blobs.write_blob(&encode_json(&JsonValue::Int(11)));
    let value_hash = vault.persist(&atom(50, Vec::new(), value_ref)).unwrap();
    let audit_ref = blobs.write_blob(&[]);
    let audit_hash = vault
        .persist(&atom(100, vec![value_hash], audit_ref.clone()))
        .unwrap();
    let bare_hash = vault.persist(&atom(100, Vec::new(), audit_ref)).unwrap();

    let kernel = AetherKernel::new(vault);
    let passed = kernel.execute_smart(&audit_hash, &blobs, &io).unwrap();
    assert!(json_eq(&passed, &JsonValue::Int(11)));
    let fallback = kernel.execute_smart(&bare_hash, &blobs, &io).unwrap();
    assert!(matches!(json_field(&fallback, "status"), JsonValue::Str(s) if s == "Audited"));
}

#[test]
fn gateway_without_input_degrades_softly() {
    let mut vault = AetherVault::new_ephemeral().unwrap();
    let mut blobs = BlobStore::new();
    let io = IoTable::new();
    let gateway_ref = blobs.write_blob(&[]);
    let bare = vault
        .persist(&atom(aether_store::OP_GATEWAY, Vec::new(), gateway_ref.clone()))
        .unwrap();

    let kernel = AetherKernel::new(vault);
    let softly = kernel.execute_smart(&bare, &blobs, &io).unwrap();
    assert!(
        matches!(json_field(&softly, "error"), JsonValue::Str(s) if s == "Gateway has no input resonance")
    );
}

#[test]
fn gateway_with_input_wraps_it_in_an_envelope() {
    let mut vault = AetherVault::new_ephemeral().unwrap();
    let mut blobs = BlobStore::new();
    let io = IoTable::new();
    let inner_ref = blobs.write_blob(&encode_json(&JsonValue::Int(5)));
    let inner = vault.persist(&atom(50, Vec::new(), inner_ref)).unwrap();
    let gateway_ref = blobs.write_blob(&[]);
    let wrapped = vault
        .persist(&atom(aether_store::OP_GATEWAY, vec![inner], gateway_ref))
        .unwrap();

    let kernel = AetherKernel::new(vault);
    let envelope = kernel.execute_smart(&wrapped, &blobs, &io).unwrap();
    assert!(matches!(json_field(&envelope, "origin"), JsonValue::Str(s) if s == "0xSOVEREIGN_ROOT"));
    assert!(json_eq(&json_field(&envelope, "payload"), &JsonValue::Int(5)));
    let masked = json_field(&envelope, "masked_fields");
    let expected = JsonValue::Array(vec![JsonValue::Str("private_logic_trace".to_string())]);
    assert!(json_eq(&masked, &expected));
}

#[test]
fn synthesis_marker_carries_intent_and_hash() {
    let mut vault = AetherVault::new_ephemeral().unwrap();
    let mut blobs = BlobStore::new();
    let io = IoTable::new();
    let text_ref = blobs.write_blob("Paint the fence".as_bytes());
    let hash = vault.persist(&atom(600, Vec::new(), text_ref)).unwrap();

    let kernel = AetherKernel::new(vault);
    let marker = kernel.execute_smart(&hash, &blobs, &io).unwrap();
    assert!(matches!(json_field(&marker, "status"), JsonValue::Str(s) if s == "SYNTHESIS_PENDING"));
    assert!(matches!(json_field(&marker, "intent"), JsonValue::Str(s) if s == "Paint the fence"));
    assert!(matches!(json_field(&marker, "hash"), JsonValue::Str(s) if s == hash));
    assert!(matches!(json_field(&marker, "type"), JsonValue::Str(s) if s == "Logic Gap"));
}

#[test]
fn unknown_op_code_evaluates_to_null() {
    let mut vault = AetherVault::new_ephemeral().unwrap();
    let mut blobs = BlobStore::new();
    let io = IoTable::new();
    let some_ref = blobs.write_blob(&[]);
    let hash = vault.persist(&atom(9999, Vec::new(), some_ref)).unwrap();
    let kernel = AetherKernel::new(vault);
    let result = kernel.execute_smart(&hash, &blobs, &io).unwrap();
    assert!(json_eq(&result, &JsonValue::Null));
}

#[test]
fn io_op_uses_supplied_response_and_checks_schema() {
    let mut vault = AetherVault::new_ephemeral().unwrap();
    let mut blobs = BlobStore::new();
    let contract = IOContract {
        endpoint: "http://127.0.0.1:8080/kl/properties".to_string(),
        schema: obj(vec![("type", JsonValue::Str("array".to_string()))]),
        sensitivity: 2,
    };
    let contract_ref = blobs.write_blob(&encode_contract(&contract));
    let hash = vault.persist(&atom(500, Vec::new(), contract_ref)).unwrap();
    let kernel = AetherKernel::new(vault);

    let empty_io = IoTable::new();
    assert!(matches!(
        kernel.execute_smart(&hash, &blobs, &empty_io),
        Err(KernelError::Runtime(RuntimeError::MissingIo(ep))) if ep == contract.endpoint
    ));

    let mut good_io = IoTable::new();
    let rows = JsonValue::Array(vec![listing(2021)]);
    good_io.set(&contract.endpoint, json_clone(&rows));
    let fetched = kernel.execute_smart(&hash, &blobs, &good_io).unwrap();
    assert!(json_eq(&fetched, &rows));
    let direct = kernel.execute_io(&hash, &blobs, &good_io).unwrap();
    assert!(json_eq(&direct, &rows));

    let mut bad_io = IoTable::new();
    bad_io.set(&contract.endpoint, JsonValue::Int(1));
    assert!(matches!(
        kernel.execute_smart(&hash, &blobs, &bad_io),
        Err(KernelError::Runtime(RuntimeError::SchemaViolation))
    ));
}
