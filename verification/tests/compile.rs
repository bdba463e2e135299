use aether_store::blob::BlobStore;
use aether_store::codec::{decode_contract, decode_json_doc};
use aether_store::json::{JsonValue, json_field};
use aether_store::loom::{AetherLoom, LoomError};
use aether_store::manifest::{AetherManifest, ManifestImport, ManifestNode};
use aether_store::optimizer::AetherOptimizer;
use aether_store::orchestrator::{AetherOrchestrator, BuildError};
use aether_store::vault::AetherVault;

fn node(name: &str, intent: Option<&str>, use_ref: Option<&str>, deps: Vec<&str>) -> ManifestNode {
    ManifestNode {
        name: name.to_string(),
        intent: intent.map(|s| s.to_string()),
        use_ref: use_ref.map(|s| s.to_string()),
        ui_hint: None,
        dependencies: deps.into_iter().map(|s| s.to_string()).collect(),
    }
}

fn manifest(app_name: &str, imports: Vec<(&str, String)>, nodes: Vec<ManifestNode>) -> AetherManifest {
    AetherManifest {
        app_name: app_name.to_string(),
        extends: None,
        inputs: Vec::new(),
        imports: imports
            .into_iter()
            .map(|(n, h)| ManifestImport {
                name: n.to_string(),
                hash: h,
            })
            .collect(),
        nodes,
    }
}

#[test]
fn weave_recognizes_the_known_intents() {
    let loom = AetherLoom::new();
    let mut blobs = BlobStore::new();

    let add = loom
        .weave_with_context("Add 10 and 20", "proj", &mut blobs)
        .unwrap();
    assert_eq!(add.op_code, 1);
    assert_eq!(add.context_id, "proj");
    assert!(add.inputs.is_empty());
    let payload = blobs.read_blob(&add.storage_ref).unwrap();
    assert_eq!(payload, vec![10, 0, 0, 0, 20, 0, 0, 0]);

    let filter = loom
        .weave_with_context("Filter where built > 2020", "proj", &mut blobs)
        .unwrap();
    assert_eq!(filter.op_code, 2);
    let cfg = decode_json_doc(&blobs.read_blob(&filter.storage_ref).unwrap()).unwrap();
    assert!(matches!(json_field(&cfg, "field"), JsonValue::Str(s) if s == "built"));
    assert!(matches!(json_field(&cfg, "op"), JsonValue::Str(s) if s == ">"));
    assert!(matches!(json_field(&cfg, "val"), JsonValue::Int(2020)));

    let multi = loom
        .weave_with_context("Filter where station contains Bukit Bintang", "proj", &mut blobs)
        .unwrap();
    let multi_cfg = decode_json_doc(&blobs.read_blob(&multi.storage_ref).unwrap()).unwrap();
    assert!(matches!(json_field(&multi_cfg, "val"), JsonValue::Str(s) if s == "Bukit Bintang"));

    let fetch = loom
        .weave_with_context("Fetch from http://example.com/rows", "proj", &mut blobs)
        .unwrap();
    assert_eq!(fetch.op_code, 500);
    let contract = decode_contract(&blobs.read_blob(&fetch.storage_ref).unwrap()).unwrap();
    assert_eq!(contract.endpoint, "http://example.com/rows");
    assert_eq!(contract.sensitivity, 0);

    let local = loom
        .weave_with_context("Fetch from http://127.0.0.1:8080/rows", "proj", &mut blobs)
        .unwrap();
    let local_contract = decode_contract(&blobs.read_blob(&local.storage_ref).unwrap()).unwrap();
    assert_eq!(local_contract.sensitivity, 2);

    let scrape = loom
        .weave_with_context("Web scrape the listings", "proj", &mut blobs)
        .unwrap();
    assert_eq!(scrape.op_code, 500);
    let scrape_contract = decode_contract(&blobs.read_blob(&scrape.storage_ref).unwrap()).unwrap();
    assert_eq!(scrape_contract.endpoint, "http://127.0.0.1:8080/kl/properties");

    let verify = loom.weave_with_context("Verify 0% interest", "proj", &mut blobs).unwrap();
    assert_eq!(verify.op_code, 100);
    let output = loom.weave_with_context("Output verified listings", "proj", &mut blobs).unwrap();
    assert_eq!(output.op_code, 100);
    let merge = loom.weave_with_context("Merge the sources", "proj", &mut blobs).unwrap();
    assert_eq!(merge.op_code, 3);

    let trigger = loom
        .weave_with_context("Trigger data refresh when the dropdown value changes", "proj", &mut blobs)
        .unwrap();
    assert_eq!(trigger.op_code, 50);
    let trigger_cfg = decode_json_doc(&blobs.read_blob(&trigger.storage_ref).unwrap()).unwrap();
    assert!(matches!(
        json_field(&trigger_cfg, "event"),
        JsonValue::Str(s) if s == "Trigger data refresh when the dropdown value changes"
    ));

    let unknown = loom
        .weave_with_context("Sing the results aloud", "proj", &mut blobs)
        .unwrap();
    assert_eq!(unknown.op_code, 600);
    assert_eq!(
        blobs.read_blob(&unknown.storage_ref).unwrap(),
        "Sing the results aloud".as_bytes().to_vec()
    );

    assert!(matches!(
        loom.weave_with_context("   ", "proj", &mut blobs),
        Err(LoomError::EmptyIntent)
    ));
}

#[test]
fn build_app_links_nodes_in_order() {
    let vault = AetherVault::new_ephemeral().unwrap();
    let mut blobs = BlobStore::new();
    let mut orchestrator = AetherOrchestrator::new(vault).unwrap();

    let m = manifest(
        "demo",
        Vec::new(),
        vec![
            node("source", Some("Merge nothing yet"), None, vec![]),
            node("root", Some("Output verified listings"), None, vec!["source"]),
        ],
    );
    let root_hash = orchestrator.build_app(&m, &mut blobs).unwrap();
    assert!(!root_hash.is_empty());

    let vault = AetherVault::new_ephemeral().unwrap();
    let mut orchestrator = AetherOrchestrator::new(vault).unwrap();
    let unnamed = manifest(
        "demo",
        Vec::new(),
        vec![node("only", Some("Merge it"), None, vec![])],
    );
    let last_hash = orchestrator.build_app(&unnamed, &mut blobs).unwrap();
    assert!(!last_hash.is_empty());

    let vault = AetherVault::new_ephemeral().unwrap();
    let mut orchestrator = AetherOrchestrator::new(vault).unwrap();
    let empty = manifest("demo", Vec::new(), Vec::new());
    assert_eq!(orchestrator.build_app(&empty, &mut blobs).unwrap(), "");
}

#[test]
fn build_app_reports_bad_nodes() {
    let vault = AetherVault::new_ephemeral().unwrap();
    let mut blobs = BlobStore::new();
    let mut orchestrator = AetherOrchestrator::new(vault).unwrap();

    let unspecified = manifest("demo", Vec::new(), vec![node("mystery", None, None, vec![])]);
    assert!(matches!(
        orchestrator.build_app(&unspecified, &mut blobs),
        Err(BuildError::NodeUnderspecified { node }) if node == "mystery"
    ));

    let unknown_import = manifest(
        "demo",
        Vec::new(),
        vec![node("linked", None, Some("LAW"), vec![])],
    );
    assert!(matches!(
        orchestrator.build_app(&unknown_import, &mut blobs),
        Err(BuildError::ImportNotFound { node, name }) if node == "linked" && name == "LAW"
    ));

    let dangling = manifest(
        "demo",
        vec![("LAW", "0missing0".to_string())],
        vec![node("linked", None, Some("LAW"), vec![])],
    );
    assert!(matches!(
        orchestrator.build_app(&dangling, &mut blobs),
        Err(BuildError::FetchImport { node }) if node == "linked"
    ));
}

#[test]
fn use_ref_recontextualizes_the_master_atom() {
    let mut vault = AetherVault::new_ephemeral().unwrap();
    let mut blobs = BlobStore::new();
    let loom = AetherLoom::new();
    let master = loom.weave("Filter where built > 2020", &mut blobs).unwrap();
    assert_eq!(master.context_id, "global");
    let master_hash = vault.persist(&master).unwrap();

    let mut orchestrator = AetherOrchestrator::new(vault).unwrap();
    let m = manifest(
        "transit",
        vec![("MODERN_LAW", master_hash)],
        vec![
            node("feed", Some("Merge the sources"), None, vec![]),
            node("root", None, Some("MODERN_LAW"), vec!["feed", "nonexistent"]),
        ],
    );
    let root_hash = orchestrator.build_app(&m, &mut blobs).unwrap();

    let built = orchestrator.vault().fetch(&root_hash).unwrap();
    assert_eq!(built.op_code, master.op_code);
    assert_eq!(built.storage_ref, master.storage_ref);
    assert_eq!(built.context_id, "transit");
    assert_eq!(built.inputs.len(), 1);
    let feed = orchestrator.vault().fetch(&built.inputs[0]).unwrap();
    assert_eq!(feed.op_code, 3);
    assert_eq!(feed.context_id, "transit");
}

#[test]
fn inheritance_merges_parent_first_and_child_imports_win() {
    let mut vault = AetherVault::new_ephemeral().unwrap();
    let mut blobs = BlobStore::new();
    let loom = AetherLoom::new();

    let parent_master = loom.weave("Merge parents", &mut blobs).unwrap();
    let parent_master_hash = vault.persist(&parent_master).unwrap();
    let child_master = loom.weave("Output child logic", &mut blobs).unwrap();
    let child_master_hash = vault.persist(&child_master).unwrap();

    let parent = manifest(
        "parent",
        vec![("LAW", parent_master_hash.clone())],
        vec![node("base", Some("Merge the sources"), None, vec![])],
    );
    let child = manifest(
        "child",
        vec![("LAW", child_master_hash.clone())],
        vec![node("root", None, Some("LAW"), vec!["base"])],
    );
    let merged = AetherOrchestrator::merge_manifests(parent, child);
    assert_eq!(merged.app_name, "child");
    assert_eq!(merged.imports.len(), 2);
    assert_eq!(merged.imports[0].hash, parent_master_hash);
    assert_eq!(merged.imports[1].hash, child_master_hash);
    assert_eq!(merged.nodes[0].name, "base");
    assert_eq!(merged.nodes[1].name, "root");

    let mut orchestrator = AetherOrchestrator::new(vault).unwrap();
    let root_hash = orchestrator.build_app(&merged, &mut blobs).unwrap();
    assert_eq!(root_hash.len(), 64);
}

#[test]
fn optimizer_rewrites_only_slow_nodes() {
    let mut blobs = BlobStore::new();
    let loom = AetherLoom::new();
    let optimizer = AetherOptimizer::new(1000);
    assert!(optimizer
        .optimize_if_needed("somehash", 999, &loom, &mut blobs)
        .is_none());
    assert!(optimizer
        .optimize_if_needed("somehash", 1000, &loom, &mut blobs)
        .is_none());
    let rewoven = optimizer
        .optimize_if_needed("somehash", 1001, &loom, &mut blobs)
        .unwrap();
    assert_eq!(rewoven.op_code, 600);
    assert_eq!(rewoven.context_id, "global");
}

#[test]
fn failed_build_keeps_committed_nodes_and_commits_nothing_past() {
    let vault = AetherVault::new_ephemeral().unwrap();
    let mut blobs = BlobStore::new();
    let mut orchestrator = AetherOrchestrator::new(vault).unwrap();
    let m = manifest(
        "demo",
        Vec::new(),
        vec![
            node("feed", Some("Merge the sources"), None, vec![]),
            node("sieve", Some("Filter where built > 2020"), None, vec![]),
            node("never", Some("Output verified listings"), None, vec!["sieve"]),
        ],
    );
    // The filter node declares no dependency, so the guard rejects it; the
    // node before it stays committed and nothing after it is written.
    assert!(matches!(
        orchestrator.build_app(&m, &mut blobs),
        Err(BuildError::Rejected { node, .. }) if node == "sieve"
    ));
    let committed = orchestrator.vault().inventory().unwrap();
    assert_eq!(committed.len(), 1);
    assert!(matches!(
        json_field(&committed[0], "op_code"),
        JsonValue::Int(3)
    ));
}
