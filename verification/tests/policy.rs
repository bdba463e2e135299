use aether_store::blob::BlobStore;
use aether_store::codec::encode_contract;
use aether_store::guard::AetherGuard;
use aether_store::io::IOContract;
use aether_store::json::JsonValue;
use aether_store::vault::AetherVault;
use aether_store::{GuardError, LogicAtom, ValidationError, VaultError};

fn atom_with(op_code: u16, context: &str, inputs: Vec<String>, storage_ref: String) -> LogicAtom {
    LogicAtom {
        op_code,
        inputs,
        storage_ref,
        context_id: context.to_string(),
    }
}

#[test]
fn zero_rate_is_admitted_and_nonzero_rejected() {
    let mut vault = AetherVault::new_ephemeral().unwrap();
    let mut blobs = BlobStore::new();
    let guard = AetherGuard::new();

    let zero_ref = blobs.write_blob(&0i32.to_le_bytes());
    let fine = atom_with(100, "global", Vec::new(), zero_ref);
    assert!(vault.persist_verified(&fine, &guard, &blobs).is_ok());

    let five_ref = blobs.write_blob(&5i32.to_le_bytes());
    let usurious = atom_with(100, "global", Vec::new(), five_ref);
    let rejected = vault.persist_verified(&usurious, &guard, &blobs);
    assert!(matches!(
        rejected,
        Err(VaultError::Validation(ValidationError::InterestLaw { rate: 5 }))
    ));
}

#[test]
fn sovereignty_law_gates_sensitive_endpoints() {
    let mut vault = AetherVault::new_ephemeral().unwrap();
    let mut blobs = BlobStore::new();
    let guard = AetherGuard::new();

    let local = IOContract {
        endpoint: "http://127.0.0.1:8080/data".to_string(),
        schema: JsonValue::Null,
        sensitivity: 2,
    };
    let local_ref = blobs.write_blob(&encode_contract(&local));
    let fine = atom_with(500, "global", Vec::new(), local_ref);
    assert!(vault.persist_verified(&fine, &guard, &blobs).is_ok());

    let foreign = IOContract {
        endpoint: "http://elsewhere.example/data".to_string(),
        schema: JsonValue::Null,
        sensitivity: 2,
    };
    let foreign_ref = blobs.write_blob(&encode_contract(&foreign));
    let bad = atom_with(500, "global", Vec::new(), foreign_ref);
    let rejected = vault.persist_verified(&bad, &guard, &blobs);
    assert!(matches!(
        rejected,
        Err(VaultError::Validation(ValidationError::SovereigntyLaw { sensitivity: 2, .. }))
    ));

    let garbage_ref = blobs.write_blob(b"not a contract");
    let malformed = atom_with(500, "global", Vec::new(), garbage_ref);
    assert!(matches!(
        vault.persist_verified(&malformed, &guard, &blobs),
        Err(VaultError::Validation(ValidationError::MalformedContract))
    ));
}

#[test]
fn filter_structure_is_checked() {
    let mut vault = AetherVault::new_ephemeral().unwrap();
    let mut blobs = BlobStore::new();
    let guard = AetherGuard::new();

    let empty_ref = blobs.write_blob(&[]);
    let orphan_filter = atom_with(2, "global", Vec::new(), empty_ref.clone());
    assert!(matches!(
        vault.persist_verified(&orphan_filter, &guard, &blobs),
        Err(VaultError::Validation(ValidationError::Incompatible(
            GuardError::FilterNeedsInput
        )))
    ));

    let scalar = atom_with(1, "global", Vec::new(), empty_ref.clone());
    let scalar_hash = vault.persist(&scalar).unwrap();
    let filter_on_scalar = atom_with(2, "global", vec![scalar_hash], empty_ref.clone());
    assert!(matches!(
        vault.persist_verified(&filter_on_scalar, &guard, &blobs),
        Err(VaultError::Validation(ValidationError::Incompatible(
            GuardError::FilterOnScalar
        )))
    ));

    let merge = atom_with(3, "global", Vec::new(), empty_ref.clone());
    let merge_hash = vault.persist(&merge).unwrap();
    let filter_on_merge = atom_with(2, "global", vec![merge_hash], empty_ref);
    assert!(vault.persist_verified(&filter_on_merge, &guard, &blobs).is_ok());
}

#[test]
fn context_isolation_rejects_cross_project_edges() {
    let mut vault = AetherVault::new_ephemeral().unwrap();
    let mut blobs = BlobStore::new();
    let guard = AetherGuard::new();
    let empty_ref = blobs.write_blob(&[]);

    let b = atom_with(3, "proj2", Vec::new(), empty_ref.clone());
    let b_hash = vault.persist(&b).unwrap();
    let a = atom_with(3, "proj1", vec![b_hash], empty_ref.clone());
    let rejected = vault.persist_verified(&a, &guard, &blobs);
    assert!(matches!(
        rejected,
        Err(VaultError::Validation(ValidationError::ContextIsolation { .. }))
    ));

    let c = atom_with(3, "global", Vec::new(), empty_ref.clone());
    let c_hash = vault.persist(&c).unwrap();
    let a2 = atom_with(3, "proj1", vec![c_hash], empty_ref.clone());
    assert!(vault.persist_verified(&a2, &guard, &blobs).is_ok());

    let sibling = atom_with(3, "proj1", Vec::new(), empty_ref.clone());
    let sibling_hash = vault.persist(&sibling).unwrap();
    let a3 = atom_with(3, "proj1", vec![sibling_hash], empty_ref.clone());
    assert!(vault.persist_verified(&a3, &guard, &blobs).is_ok());
}

#[test]
fn missing_dependency_is_rejected() {
    let mut vault = AetherVault::new_ephemeral().unwrap();
    let mut blobs = BlobStore::new();
    let guard = AetherGuard::new();
    let empty_ref = blobs.write_blob(&[]);
    let atom = atom_with(3, "global", vec!["missing-hash".to_string()], empty_ref);
    assert!(matches!(
        vault.persist_verified(&atom, &guard, &blobs),
        Err(VaultError::Validation(ValidationError::MissingDependency { .. }))
    ));
}

#[test]
fn unresolvable_payload_is_rejected() {
    let mut vault = AetherVault::new_ephemeral().unwrap();
    let blobs = BlobStore::new();
    let guard = AetherGuard::new();
    let atom = atom_with(3, "global", Vec::new(), "local://nowhere".to_string());
    assert!(matches!(
        vault.persist_verified(&atom, &guard, &blobs),
        Err(VaultError::Validation(ValidationError::BlobLoad { .. }))
    ));
}
