use aether_store::blob::BlobStore;
use aether_store::digest::content_digest;
use aether_store::guard::AetherGuard;
use aether_store::json::{JsonValue, json_field};
use aether_store::vault::AetherVault;
use aether_store::{IdentityAtom, LogicAtom, ProjectAtom, ProjectStatus, VaultError};

fn plain_atom(op_code: u16, context: &str, blobs: &mut BlobStore, payload: &[u8]) -> LogicAtom {
    let storage_ref = blobs.write_blob(payload);
    LogicAtom {
        op_code,
        inputs: Vec::new(),
        storage_ref,
        context_id: context.to_string(),
    }
}

#[test]
fn persist_is_deterministic_and_idempotent() {
    let mut vault = AetherVault::new_ephemeral().unwrap();
    let mut blobs = BlobStore::new();
    let atom = plain_atom(3, "global", &mut blobs, &[]);
    let again = LogicAtom {
        op_code: atom.op_code,
        inputs: atom.inputs.clone(),
        storage_ref: atom.storage_ref.clone(),
        context_id: atom.context_id.clone(),
    };
    let h1 = vault.persist(&atom).unwrap();
    let h2 = vault.persist(&again).unwrap();
    assert_eq!(h1, h2);
    let fetched = vault.fetch(&h1).unwrap();
    assert_eq!(fetched, atom);
}

#[test]
fn fetch_unknown_hash_is_not_found() {
    let vault = AetherVault::new_ephemeral().unwrap();
    let missing = vault.fetch("0000000000000000000000000000000000000000000000000000000000000000");
    assert!(matches!(missing, Err(VaultError::NotFound)));
    let odd = vault.fetch("not even a hash");
    assert!(matches!(odd, Err(VaultError::NotFound)));
}

#[test]
fn batch_root_follows_duplication_rule() {
    let mut vault = AetherVault::new_ephemeral().unwrap();
    let mut blobs = BlobStore::new();
    let a = plain_atom(3, "global", &mut blobs, b"a");
    let b = plain_atom(3, "global", &mut blobs, b"b");
    let c = plain_atom(3, "global", &mut blobs, b"c");
    let h1 = vault.persist(&a).unwrap();
    let h2 = vault.persist(&b).unwrap();
    let h3 = vault.persist(&c).unwrap();
    let root = vault
        .persist_batch(vec![a, b, c])
        .unwrap();
    let h12 = content_digest(format!("{}{}", h1, h2).as_bytes());
    let h33 = content_digest(format!("{}{}", h3, h3).as_bytes());
    let expected = content_digest(format!("{}{}", h12, h33).as_bytes());
    assert_eq!(root, expected);
}

#[test]
fn batch_of_one_returns_its_hash() {
    let mut vault = AetherVault::new_ephemeral().unwrap();
    let mut blobs = BlobStore::new();
    let a = plain_atom(3, "global", &mut blobs, b"solo");
    let h = vault.persist(&a).unwrap();
    let root = vault.persist_batch(vec![a]).unwrap();
    assert_eq!(root, h);
}

#[test]
fn identity_round_trip_is_keyed_by_public_key() {
    let mut vault = AetherVault::new_ephemeral().unwrap();
    let identity = IdentityAtom {
        public_key: "pk-1".to_string(),
        role: "admin".to_string(),
        org_hash: "org".to_string(),
        access_nodes: vec!["h1".to_string()],
    };
    let h = vault.persist_identity(&identity).unwrap();
    assert_eq!(h, content_digest(b"pk-1"));
    let fetched = vault.fetch_identity(&h).unwrap();
    assert_eq!(fetched, identity);
    let updated = IdentityAtom {
        role: "viewer".to_string(),
        ..identity
    };
    let h2 = vault.persist_identity(&updated).unwrap();
    assert_eq!(h, h2);
    assert_eq!(vault.fetch_identity(&h).unwrap().role, "viewer");
}

#[test]
fn project_records_update_wholesale() {
    let mut vault = AetherVault::new_ephemeral().unwrap();
    let project = ProjectAtom {
        name: "transit".to_string(),
        root_hash: String::new(),
        org_hash: "org".to_string(),
        status: ProjectStatus::Building,
        created_at: 7,
    };
    let name = vault.persist_project(&project).unwrap();
    assert_eq!(name, "transit");
    vault.update_project_status("transit", ProjectStatus::Active).unwrap();
    vault.update_project_hash("transit", "abc123").unwrap();
    let got = vault.get_project("transit").unwrap();
    assert_eq!(got.status, ProjectStatus::Active);
    assert_eq!(got.root_hash, "abc123");
    assert_eq!(got.created_at, 7);
    let listed = vault.list_projects().unwrap();
    assert_eq!(listed.len(), 1);
    assert_eq!(listed[0].name, "transit");
    assert!(matches!(vault.get_project("absent"), Err(VaultError::NotFound)));
}

#[test]
fn resonance_links_principal_to_resource_via_permission_atom() {
    let mut vault = AetherVault::new_ephemeral().unwrap();
    let mut blobs = BlobStore::new();
    let resource = plain_atom(3, "global", &mut blobs, b"resource");
    let resource_hash = vault.persist(&resource).unwrap();
    let storage_ref = blobs.write_blob(&[]);
    let permission = LogicAtom {
        op_code: aether_store::OP_PERMISSION,
        inputs: vec![resource_hash.clone()],
        storage_ref,
        context_id: "global".to_string(),
    };
    let permission_hash = vault.persist(&permission).unwrap();
    let identity = IdentityAtom {
        public_key: "pk-2".to_string(),
        role: "admin".to_string(),
        org_hash: "org".to_string(),
        access_nodes: vec![permission_hash],
    };
    let user_hash = vault.persist_identity(&identity).unwrap();
    assert!(vault.verify_resonance(&user_hash, &resource_hash));
    assert!(!vault.verify_resonance(&user_hash, "some-other-hash"));
    assert!(!vault.verify_resonance("unknown-user", &resource_hash));
}

#[test]
fn inventory_lists_logic_atoms_only() {
    let mut vault = AetherVault::new_ephemeral().unwrap();
    let mut blobs = BlobStore::new();
    let atom = plain_atom(42, "proj", &mut blobs, b"x");
    let hash = vault.persist(&atom).unwrap();
    let identity = IdentityAtom {
        public_key: "pk-3".to_string(),
        role: "viewer".to_string(),
        org_hash: "org".to_string(),
        access_nodes: Vec::new(),
    };
    vault.persist_identity(&identity).unwrap();
    let items = vault.inventory().unwrap();
    assert_eq!(items.len(), 1);
    let entry = &items[0];
    assert!(matches!(json_field(entry, "hash"), JsonValue::Str(s) if s == hash));
    assert!(matches!(json_field(entry, "op_code"), JsonValue::Int(42)));
    assert!(matches!(json_field(entry, "context_id"), JsonValue::Str(s) if s == "proj"));
}

#[test]
fn graph_exports_show_nodes_and_edges() {
    let mut vault = AetherVault::new_ephemeral().unwrap();
    let mut blobs = BlobStore::new();
    let base = plain_atom(3, "global", &mut blobs, b"base");
    let base_hash = vault.persist(&base).unwrap();
    let storage_ref = blobs.write_blob(&[]);
    let child = LogicAtom {
        op_code: 100,
        inputs: vec![base_hash.clone()],
        storage_ref,
        context_id: "global".to_string(),
    };
    let child_hash = vault.persist(&child).unwrap();
    let doc = vault.export_graph_json().unwrap();
    let nodes = match json_field(&doc, "nodes") {
        JsonValue::Array(items) => items,
        other => panic!("nodes is not an array: {:?}", other),
    };
    assert_eq!(nodes.len(), 2);
    let edges = match json_field(&doc, "edges") {
        JsonValue::Array(items) => items,
        other => panic!("edges is not an array: {:?}", other),
    };
    assert_eq!(edges.len(), 1);
    let data = json_field(&edges[0], "data");
    assert!(matches!(json_field(&data, "source"), JsonValue::Str(s) if s == base_hash));
    assert!(matches!(json_field(&data, "target"), JsonValue::Str(s) if s == child_hash));

    let dot = vault.export_graph_viz().unwrap();
    assert!(dot.starts_with("digraph AetherLogic {\n"));
    assert!(dot.ends_with("}"));
    assert!(dot.contains(&format!("\"{}\" -> \"{}\";", base_hash, child_hash)));
    assert!(dot.contains("Op:100"));
}

#[test]
fn inject_atom_matches_plain_persist() {
    let mut vault = AetherVault::new_ephemeral().unwrap();
    let mut blobs = BlobStore::new();
    let atom = plain_atom(3, "global", &mut blobs, b"inject");
    let h1 = vault.inject_atom(&atom).unwrap();
    let h2 = vault.persist(&atom).unwrap();
    assert_eq!(h1, h2);
}

#[test]
fn blob_store_is_content_addressed() {
    let mut blobs = BlobStore::new();
    let r1 = blobs.write_blob(b"payload");
    let r2 = blobs.write_blob(b"payload");
    assert_eq!(r1, r2);
    assert_eq!(r1, format!("local://{}", content_digest(b"payload")));
    assert_eq!(blobs.read_blob(&r1).unwrap(), b"payload".to_vec());
    assert!(blobs.read_blob("local://absent").is_none());
}

#[test]
fn guard_laws_are_pure_checks() {
    let guard = AetherGuard::new();
    assert!(guard.verify_interest_free(0));
    assert!(!guard.verify_interest_free(5));
    assert!(guard.verify_sovereignty("http://example.com/a", 0));
    assert!(guard.verify_sovereignty("http://example.com/a", 1));
    assert!(!guard.verify_sovereignty("http://example.com/a", 2));
    assert!(guard.verify_sovereignty("http://localhost:8080/a", 2));
    assert!(guard.verify_sovereignty("http://127.0.0.1/a", 2));
    assert!(guard.verify_sovereignty("https://data.gov.my/a", 2));
}
