//! The manifest compiler: resolves inheritance and import bindings, weaves
//! or links each node, wires dependency edges, and commits every node to the
//! store through the governed write path.

use vstd::prelude::*;
use vstd::string::*;
use crate::{AtomModel, LogicAtom, ValidationError, VaultError};
use crate::blob::{BlobStore, blob_uri};
use crate::codec::{dec_atom, enc_atom};
use crate::digest::blake3_hex;
use crate::guard::AetherGuard;
use crate::loom::{AetherLoom, weave_plan, woven_atom, blob_written};
use crate::manifest::{AetherManifest, ImportModel, ManifestNode, NodeModel};
use crate::vault::{AetherVault, ValKind, atom_hash, atom_key, pv_verdict, val_kind};

verus! {

/// Why a build failed, and at which node.
#[derive(Debug, Clone, PartialEq)]
pub enum BuildError {
    /// The weaving front end could not make an atom of the node's intent.
    Weave { node: String },
    /// The node names an import the manifest does not declare.
    ImportNotFound { node: String, name: String },
    /// The imported master atom is not in the store.
    FetchImport { node: String },
    /// The node declares neither an intent nor an import reference.
    NodeUnderspecified { node: String },
    /// The governed write path rejected the node's atom.
    Rejected { node: String, error: ValidationError },
    /// The underlying store failed.
    Store(VaultError),
}

/// The ghost shape of a build failure.
pub ghost enum BErr {
    Weave(Seq<char>),
    ImportNotFound(Seq<char>, Seq<char>),
    FetchImport(Seq<char>),
    NodeUnderspecified(Seq<char>),
    Rejected(Seq<char>, ValKind),
}

/// The shape of a concrete build error; storage failures have none.
pub open spec fn berr_view(e: BuildError) -> Option<BErr> {
    match e {
        BuildError::Weave { node } => Some(BErr::Weave(node@)),
        BuildError::ImportNotFound { node, name } => Some(BErr::ImportNotFound(node@, name@)),
        BuildError::FetchImport { node } => Some(BErr::FetchImport(node@)),
        BuildError::NodeUnderspecified { node } => Some(BErr::NodeUnderspecified(node@)),
        BuildError::Rejected { node, error } => Some(BErr::Rejected(node@, val_kind(error))),
        BuildError::Store(_) => None,
    }
}

/// The import table: names bound in declaration order, a later binding
/// shadowing an earlier one of the same name. Because a child's imports are
/// appended after its parent's, the child's binding wins.
pub open spec fn import_map(imports: Seq<ImportModel>) -> Map<Seq<char>, Seq<char>>
    decreases imports,
{
    if imports.len() == 0 {
        Map::empty()
    } else {
        import_map(imports.drop_last()).insert(imports.last().name, imports.last().hash)
    }
}

/// The hash bound to a node name, if any; a later binding wins.
pub open spec fn names_lookup(names: Seq<(Seq<char>, Seq<char>)>, name: Seq<char>) -> Option<
    Seq<char>,
>
    decreases names,
{
    if names.len() == 0 {
        None
    } else if names.last().0 == name {
        Some(names.last().1)
    } else {
        names_lookup(names.drop_last(), name)
    }
}

/// The inputs a node ends up with: each named dependency resolved against
/// the nodes already processed, in order; an unknown name is skipped.
pub open spec fn resolve_deps(
    deps: Seq<Seq<char>>,
    names: Seq<(Seq<char>, Seq<char>)>,
) -> Seq<Seq<char>>
    decreases deps,
{
    if deps.len() == 0 {
        Seq::empty()
    } else {
        (match names_lookup(names, deps[0]) {
            Option::Some(h) => seq![h],
            Option::None => Seq::empty(),
        }) + resolve_deps(deps.subrange(1, deps.len() as int), names)
    }
}

/// The state a build threads through its nodes.
pub ghost struct BuildState {
    pub store: Map<Seq<u8>, Seq<u8>>,
    pub blobs: Map<Seq<char>, Seq<u8>>,
    pub names: Seq<(Seq<char>, Seq<char>)>,
}

/// One node's step: produce its atom (woven from the intent, or a
/// re-contextualized copy of the imported master), wire its dependencies,
/// and admit it through the governed write path.
pub open spec fn build_step(
    node: NodeModel,
    app: Seq<char>,
    imports: Map<Seq<char>, Seq<char>>,
    st: BuildState,
) -> Result<BuildState, BErr> {
    let deps = resolve_deps(node.dependencies, st.names);
    match node.intent {
        Option::Some(intent) => {
            match weave_plan(intent) {
                Option::None => Err(BErr::Weave(node.name)),
                Option::Some(plan) => {
                    let m = AtomModel {
                        op_code: plan.op_code,
                        inputs: deps,
                        storage_ref: blob_uri(blake3_hex(plan.payload)),
                        context_id: app,
                    };
                    let blobs2 = if st.blobs.contains_key(m.storage_ref) {
                        st.blobs
                    } else {
                        st.blobs.insert(m.storage_ref, plan.payload)
                    };
                    admit_step(node.name, m, BuildState { blobs: blobs2, ..st })
                },
            }
        },
        Option::None => {
            match node.use_ref {
                Option::Some(ref_name) => {
                    if !imports.contains_key(ref_name) {
                        Err(BErr::ImportNotFound(node.name, ref_name))
                    } else {
                        let key = atom_key(imports[ref_name]);
                        if !st.store.contains_key(key) || dec_atom(st.store[key]) is None {
                            Err(BErr::FetchImport(node.name))
                        } else {
                            let master = dec_atom(st.store[key])->Some_0;
                            let m = AtomModel {
                                op_code: master.op_code,
                                inputs: deps,
                                storage_ref: master.storage_ref,
                                context_id: app,
                            };
                            admit_step(node.name, m, st)
                        }
                    }
                },
                Option::None => Err(BErr::NodeUnderspecified(node.name)),
            }
        },
    }
}

/// The governed write of one node's atom, recording its hash under the
/// node's name.
pub open spec fn admit_step(name: Seq<char>, m: AtomModel, st: BuildState) -> Result<
    BuildState,
    BErr,
> {
    match pv_verdict(m, st.store, st.blobs) {
        Option::Some(kind) => Err(BErr::Rejected(name, kind)),
        Option::None => {
            let h = atom_hash(m);
            Ok(
                BuildState {
                    store: st.store.insert(atom_key(h), enc_atom(m)),
                    blobs: st.blobs,
                    names: st.names.push((name, h)),
                },
            )
        },
    }
}

/// The whole build: nodes processed in list order, the first failure
/// deciding.
pub open spec fn build_nodes(
    nodes: Seq<NodeModel>,
    app: Seq<char>,
    imports: Map<Seq<char>, Seq<char>>,
    st: BuildState,
) -> Result<BuildState, BErr>
    decreases nodes,
{
    if nodes.len() == 0 {
        Ok(st)
    } else {
        match build_step(nodes[0], app, imports, st) {
            Err(e) => Err(e),
            Ok(st2) => build_nodes(nodes.subrange(1, nodes.len() as int), app, imports, st2),
        }
    }
}

/// The build of a prefix succeeded and its next node fails with `err`,
/// leaving exactly the prefix committed: the store is the prefix's store
/// (nodes already committed stay; nothing at or past the failure is
/// written), and the blob store holds at most the failing node's woven
/// payload beyond the prefix's.
pub open spec fn prefix_ok_and_fails(
    nodes: Seq<NodeModel>,
    app: Seq<char>,
    imports: Map<Seq<char>, Seq<char>>,
    st0: BuildState,
    err: BErr,
    store_after: Map<Seq<u8>, Seq<u8>>,
    blobs_after: Map<Seq<char>, Seq<u8>>,
    k: int,
) -> bool {
    let pre = build_nodes(nodes.subrange(0, k), app, imports, st0);
    &&& 0 <= k < nodes.len()
    &&& pre is Ok
    &&& build_step(nodes[k], app, imports, pre->Ok_0) == Err::<BuildState, BErr>(err)
    &&& store_after == pre->Ok_0.store
    &&& (blobs_after == pre->Ok_0.blobs || (nodes[k].intent matches Some(intent)
        && weave_plan(intent) matches Some(plan) && blob_written(
        pre->Ok_0.blobs,
        blobs_after,
        plan.payload,
    )))
}

/// Some node failed, and the stores hold exactly the partial build before
/// it: a failing build never rolls committed nodes back and never commits
/// past the failure.
pub open spec fn failed_build_state(
    nodes: Seq<NodeModel>,
    app: Seq<char>,
    imports: Map<Seq<char>, Seq<char>>,
    st0: BuildState,
    err: BErr,
    store_after: Map<Seq<u8>, Seq<u8>>,
    blobs_after: Map<Seq<char>, Seq<u8>>,
) -> bool {
    exists|k: int|
        #[trigger] prefix_ok_and_fails(nodes, app, imports, st0, err, store_after, blobs_after, k)
}

/// The hash a finished build returns: the node named `root`, else the last
/// processed node, else the empty string.
pub open spec fn root_hash_of(names: Seq<(Seq<char>, Seq<char>)>) -> Seq<char> {
    match names_lookup(names, "root"@) {
        Option::Some(h) => h,
        Option::None => if names.len() > 0 {
            names.last().1
        } else {
            Seq::empty()
        },
    }
}

/// The manifest compiler. Owns the store handle it commits into, the loom it
/// weaves with, and the guard every write is checked against.
#[derive(Debug)]
pub struct AetherOrchestrator {
    loom: AetherLoom,
    vault: AetherVault,
    guard: AetherGuard,
}

impl AetherOrchestrator {
    /// The store the orchestrator commits into.
    pub closed spec fn store(&self) -> Map<Seq<u8>, Seq<u8>> {
        self.vault.store()
    }

    /// A view of the store the orchestrator commits into.
    pub fn vault(&self) -> (r: &AetherVault)
        ensures
            r.store() == self.store(),
    {
        &self.vault
    }

    /// Releases the store handle when compilation is done, so an evaluator
    /// can take it over.
    pub fn into_vault(self) -> (r: AetherVault)
        ensures
            r.store() == self.store(),
    {
        self.vault
    }

    pub fn new(vault: AetherVault) -> (r: Result<AetherOrchestrator, BuildError>)
        ensures
            match r {
                Ok(o) => o.store() == vault.store(),
                Err(_) => false,
            },
    {
        Ok(AetherOrchestrator { loom: AetherLoom::new(), vault, guard: AetherGuard::new() })
    }

    /// Merges a parent manifest into the one that extends it: the parent's
    /// imports come first (so same-named child imports shadow them in the
    /// table), and the parent's nodes come first (so they are processed, and
    /// available as dependencies, before any child node).
    pub fn merge_manifests(parent: AetherManifest, child: AetherManifest) -> (r: AetherManifest)
        ensures
            r@.app_name == child@.app_name,
            r@.extends == child@.extends,
            r@.imports == parent@.imports + child@.imports,
            r@.nodes == parent@.nodes + child@.nodes,
    {
        let mut imports = parent.imports;
        let mut child_imports = child.imports;
        imports.append(&mut child_imports);
        let mut nodes = parent.nodes;
        let mut child_nodes = child.nodes;
        nodes.append(&mut child_nodes);
        let r = AetherManifest {
            app_name: child.app_name,
            extends: child.extends,
            inputs: child.inputs,
            imports,
            nodes,
        };
        proof {
            assert(r@.imports =~= parent@.imports + child@.imports);
            assert(r@.nodes =~= parent@.nodes + child@.nodes);
        }
        r
    }

    /// Compiles a manifest: processes its nodes in list order, weaving or
    /// linking each, wiring dependencies to earlier nodes, committing every
    /// atom through the governed write path, and returns the root hash. A
    /// failing node aborts the build with that node's name; nodes already
    /// committed stay committed.
    #[verifier::loop_isolation(false)]
    #[verifier::rlimit(100)]
    #[verifier::spinoff_prover]
    pub fn build_app(&mut self, manifest: &AetherManifest, blobs: &mut BlobStore) -> (r: Result<
        String,
        BuildError,
    >)
        requires
            old(blobs).wf(),
        ensures
            final(blobs).wf(),
            match r {
                Ok(h) => {
                    &&& build_nodes(
                        manifest@.nodes,
                        manifest@.app_name,
                        import_map(manifest@.imports),
                        BuildState {
                            store: old(self).store(),
                            blobs: old(blobs).view_map(),
                            names: Seq::empty(),
                        },
                    ) matches Ok(st)
                    &&& final(self).store() == build_nodes(
                        manifest@.nodes,
                        manifest@.app_name,
                        import_map(manifest@.imports),
                        BuildState {
                            store: old(self).store(),
                            blobs: old(blobs).view_map(),
                            names: Seq::empty(),
                        },
                    )->Ok_0.store
                    &&& final(blobs).view_map() == build_nodes(
                        manifest@.nodes,
                        manifest@.app_name,
                        import_map(manifest@.imports),
                        BuildState {
                            store: old(self).store(),
                            blobs: old(blobs).view_map(),
                            names: Seq::empty(),
                        },
                    )->Ok_0.blobs
                    &&& h@ == root_hash_of(
                        build_nodes(
                            manifest@.nodes,
                            manifest@.app_name,
                            import_map(manifest@.imports),
                            BuildState {
                                store: old(self).store(),
                                blobs: old(blobs).view_map(),
                                names: Seq::empty(),
                            },
                        )->Ok_0.names,
                    )
                },
                Err(e) => (e matches BuildError::Store(ve) && ve is Storage) || ({
                    let st0 = BuildState {
                        store: old(self).store(),
                        blobs: old(blobs).view_map(),
                        names: Seq::empty(),
                    };
                    &&& build_nodes(
                        manifest@.nodes,
                        manifest@.app_name,
                        import_map(manifest@.imports),
                        st0,
                    ) == Err::<BuildState, BErr>(berr_view(e)->Some_0)
                    &&& failed_build_state(
                        manifest@.nodes,
                        manifest@.app_name,
                        import_map(manifest@.imports),
                        st0,
                        berr_view(e)->Some_0,
                        final(self).store(),
                        final(blobs).view_map(),
                    )
                }),
            },
    {
        let ghost app = manifest@.app_name;
        let ghost imps = import_map(manifest@.imports);
        let ghost all_nodes = manifest@.nodes;
        let mut import_table: Vec<(String, String)> = Vec::new();
        let mut t: usize = 0;
        proof {
            assert(manifest@.imports.subrange(0, 0) =~= Seq::<ImportModel>::empty());
            assert(import_table_view(import_table@) =~= import_map(
                manifest@.imports.subrange(0, 0),
            ));
        }
        while t < manifest.imports.len()
            invariant
                0 <= t <= manifest@.imports.len(),
                manifest@.imports.len() == manifest.imports@.len(),
                import_table_view(import_table@) == import_map(
                    manifest@.imports.subrange(0, t as int),
                ),
            decreases manifest@.imports.len() - t,
        {
            let ghost prev = import_table@;
            import_table.push(
                (manifest.imports[t].name.clone(), manifest.imports[t].hash.clone()),
            );
            proof {
                assert(import_table@.drop_last() =~= prev);
                assert(manifest@.imports[t as int] == manifest.imports@[t as int]@);
                assert(manifest@.imports.subrange(0, t as int + 1).drop_last() =~= manifest@
                    .imports.subrange(0, t as int));
                assert(manifest@.imports.subrange(0, t as int + 1).last() == manifest@.imports[
                    t as int]);
            }
            t = t + 1;
        }
        proof {
            assert(manifest@.imports.subrange(0, manifest@.imports.len() as int) =~= manifest@
                .imports);
        }
        let mut node_map: Vec<(String, String)> = Vec::new();
        let ghost st0 = BuildState {
            store: self.store(),
            blobs: blobs.view_map(),
            names: Seq::empty(),
        };
        let mut i: usize = 0;
        proof {
            assert(all_nodes.subrange(0, all_nodes.len() as int) =~= all_nodes);
            assert(names_view(node_map@) =~= Seq::<(Seq<char>, Seq<char>)>::empty());
            assert(all_nodes.subrange(0, 0) =~= Seq::<NodeModel>::empty());
        }
        while i < manifest.nodes.len()
            invariant
                0 <= i <= all_nodes.len(),
                all_nodes.len() == manifest.nodes@.len(),
                blobs.wf(),
                import_table_view(import_table@) == imps,
                build_nodes(all_nodes, app, imps, st0) == build_nodes(
                    all_nodes.subrange(i as int, all_nodes.len() as int),
                    app,
                    imps,
                    BuildState {
                        store: self.store(),
                        blobs: blobs.view_map(),
                        names: names_view(node_map@),
                    },
                ),
                build_nodes(all_nodes.subrange(0, i as int), app, imps, st0) == Ok::<
                    BuildState,
                    BErr,
                >(
                    BuildState {
                        store: self.store(),
                        blobs: blobs.view_map(),
                        names: names_view(node_map@),
                    },
                ),
            decreases all_nodes.len() - i,
        {
            let ghost st_now = BuildState {
                store: self.store(),
                blobs: blobs.view_map(),
                names: names_view(node_map@),
            };
            let ghost remaining = all_nodes.subrange(i as int, all_nodes.len() as int);
            proof {
                assert(remaining[0] == all_nodes[i as int]);
                assert(all_nodes[i as int] == manifest.nodes@[i as int]@);
                assert(remaining.subrange(1, remaining.len() as int) =~= all_nodes.subrange(
                    i as int + 1,
                    all_nodes.len() as int,
                ));
            }
            let node = &manifest.nodes[i];
            let hash = match self.build_one(
                node,
                manifest.app_name.as_str(),
                &import_table,
                &node_map,
                blobs,
            ) {
                Ok(h) => h,
                Err(e) => {
                    proof {
                        match berr_view(e) {
                            Option::Some(err) => {
                                assert(build_step(all_nodes[i as int], app, imps, st_now)
                                    == Err::<BuildState, BErr>(err));
                                assert(build_nodes(remaining, app, imps, st_now) == Err::<
                                    BuildState,
                                    BErr,
                                >(err));
                                assert(build_nodes(all_nodes, app, imps, st0) == Err::<
                                    BuildState,
                                    BErr,
                                >(err));
                                assert(build_nodes(all_nodes.subrange(0, i as int), app, imps, st0)
                                    == Ok::<BuildState, BErr>(st_now));
                                assert(prefix_ok_and_fails(
                                    all_nodes,
                                    app,
                                    imps,
                                    st0,
                                    err,
                                    self.store(),
                                    blobs.view_map(),
                                    i as int,
                                ));
                                assert(failed_build_state(
                                    all_nodes,
                                    app,
                                    imps,
                                    st0,
                                    err,
                                    self.store(),
                                    blobs.view_map(),
                                ));
                            },
                            Option::None => {},
                        }
                    }
                    return Err(e);
                },
            };
            let ghost prev_names = names_view(node_map@);
            node_map.push((node.name.clone(), hash));
            proof {
                assert(names_view(node_map@) =~= prev_names.push((all_nodes[i as int].name, hash@)));
                let one = seq![all_nodes[i as int]];
                assert(one[0] == all_nodes[i as int]);
                assert(one.subrange(1, 1) =~= Seq::<NodeModel>::empty());
                crate::laws::lemma_build_split(all_nodes.subrange(0, i as int), one, app, imps, st0);
                assert(all_nodes.subrange(0, i as int) + one =~= all_nodes.subrange(
                    0,
                    i as int + 1,
                ));
            }
            i = i + 1;
        }
        proof {
            assert(all_nodes.subrange(all_nodes.len() as int, all_nodes.len() as int)
                =~= Seq::<NodeModel>::empty());
        }
        match Self::table_lookup(&node_map, "root") {
            Some(h) => Ok(h),
            None => {
                if node_map.len() > 0 {
                    let last = node_map.len() - 1;
                    proof {
                        lemma_names_last(node_map@);
                    }
                    Ok(node_map[last].1.clone())
                } else {
                    Ok(String::new())
                }
            },
        }
    }

    /// Processes one node against the current build state: makes its atom,
    /// wires its dependencies, and admits it through the governed write path.
    #[verifier::rlimit(100)]
    fn build_one(
        &mut self,
        node: &ManifestNode,
        app_name: &str,
        import_table: &Vec<(String, String)>,
        node_map: &Vec<(String, String)>,
        blobs: &mut BlobStore,
    ) -> (r: Result<String, BuildError>)
        requires
            old(blobs).wf(),
        ensures
            final(blobs).wf(),
            match r {
                Ok(h) => {
                    &&& build_step(
                        node@,
                        app_name@,
                        import_table_view(import_table@),
                        BuildState {
                            store: old(self).store(),
                            blobs: old(blobs).view_map(),
                            names: names_view(node_map@),
                        },
                    ) matches Ok(st2)
                    &&& final(self).store() == st2.store
                    &&& final(blobs).view_map() == st2.blobs
                    &&& st2.names == names_view(node_map@).push((node@.name, h@))
                },
                Err(e) => (e matches BuildError::Store(ve) && ve is Storage) || ({
                    &&& build_step(
                        node@,
                        app_name@,
                        import_table_view(import_table@),
                        BuildState {
                            store: old(self).store(),
                            blobs: old(blobs).view_map(),
                            names: names_view(node_map@),
                        },
                    ) == Err::<BuildState, BErr>(berr_view(e)->Some_0)
                    &&& final(self).store() == old(self).store()
                    &&& (final(blobs).view_map() == old(blobs).view_map() || (
                    node@.intent matches Some(intent) && weave_plan(intent) matches Some(plan)
                        && blob_written(
                        old(blobs).view_map(),
                        final(blobs).view_map(),
                        plan.payload,
                    )))
                }),
            },
    {
        let deps = Self::resolve_deps_exec(&node.dependencies, node_map);
        let mut atom: LogicAtom = match &node.intent {
            Some(intent) => {
                match self.loom.weave_with_context(intent.as_str(), app_name, blobs) {
                    Ok(a) => a,
                    Err(_) => {
                        return Err(BuildError::Weave { node: node.name.clone() });
                    },
                }
            },
            None => {
                match &node.use_ref {
                    Some(ref_name) => {
                        proof {
                            lemma_table_lookup(import_table@, ref_name@);
                        }
                        match Self::table_lookup(import_table, ref_name.as_str()) {
                            Some(hash) => {
                                let master = match self.vault.fetch(hash.as_str()) {
                                    Ok(m) => m,
                                    Err(VaultError::NotFound) => {
                                        return Err(
                                            BuildError::FetchImport { node: node.name.clone() },
                                        );
                                    },
                                    Err(e) => {
                                        return Err(BuildError::Store(e));
                                    },
                                };
                                LogicAtom {
                                    op_code: master.op_code,
                                    inputs: Vec::new(),
                                    storage_ref: master.storage_ref,
                                    context_id: app_name.to_owned(),
                                }
                            },
                            None => {
                                return Err(
                                    BuildError::ImportNotFound {
                                        node: node.name.clone(),
                                        name: ref_name.clone(),
                                    },
                                );
                            },
                        }
                    },
                    None => {
                        return Err(BuildError::NodeUnderspecified { node: node.name.clone() });
                    },
                }
            },
        };
        atom.inputs = deps;
        proof {
            assert(atom@.inputs =~= resolve_deps(node@.dependencies, names_view(node_map@)));
        }
        match self.vault.persist_verified(&atom, &self.guard, blobs) {
            Ok(h) => Ok(h),
            Err(VaultError::Validation(v)) => Err(
                BuildError::Rejected { node: node.name.clone(), error: v },
            ),
            Err(e) => Err(BuildError::Store(e)),
        }
    }

    /// Resolves dependency names against the nodes built so far, skipping
    /// unknown names.
    #[verifier::loop_isolation(false)]
    fn resolve_deps_exec(deps: &Vec<String>, node_map: &Vec<(String, String)>) -> (r: Vec<String>)
        ensures
            r.deep_view() == resolve_deps(deps.deep_view(), names_view(node_map@)),
    {
        let ghost dv = deps.deep_view();
        let ghost nv = names_view(node_map@);
        let mut out: Vec<String> = Vec::new();
        let mut i: usize = 0;
        proof {
            assert(dv.subrange(0, dv.len() as int) =~= dv);
            assert(out.deep_view() =~= Seq::<Seq<char>>::empty());
            assert(out.deep_view() + resolve_deps(dv.subrange(0, dv.len() as int), nv)
                =~= resolve_deps(dv, nv));
        }
        while i < deps.len()
            invariant
                0 <= i <= dv.len(),
                dv.len() == deps@.len(),
                resolve_deps(dv, nv) == out.deep_view() + resolve_deps(
                    dv.subrange(i as int, dv.len() as int),
                    nv,
                ),
            decreases dv.len() - i,
        {
            let ghost suffix = dv.subrange(i as int, dv.len() as int);
            proof {
                assert(suffix[0] == dv[i as int]);
                assert(dv[i as int] == deps@[i as int]@);
                assert(suffix.subrange(1, suffix.len() as int) =~= dv.subrange(
                    i as int + 1,
                    dv.len() as int,
                ));
            }
            match Self::table_lookup(node_map, deps[i].as_str()) {
                Some(h) => {
                    let ghost prev = out.deep_view();
                    out.push(h);
                    proof {
                        assert(out.deep_view() =~= prev.push(h@));
                        assert(prev + (seq![h@] + resolve_deps(
                            dv.subrange(i as int + 1, dv.len() as int),
                            nv,
                        )) =~= prev.push(h@) + resolve_deps(
                            dv.subrange(i as int + 1, dv.len() as int),
                            nv,
                        ));
                    }
                },
                None => {
                    proof {
                        assert(Seq::<Seq<char>>::empty() + resolve_deps(
                            dv.subrange(i as int + 1, dv.len() as int),
                            nv,
                        ) =~= resolve_deps(dv.subrange(i as int + 1, dv.len() as int), nv));
                    }
                },
            }
            i = i + 1;
        }
        proof {
            assert(dv.subrange(dv.len() as int, dv.len() as int) =~= Seq::<Seq<char>>::empty());
            assert(out.deep_view() + Seq::<Seq<char>>::empty() =~= out.deep_view());
        }
        out
    }

    /// The value bound to a name in an association list, a later binding
    /// winning.
    #[verifier::loop_isolation(false)]
    fn table_lookup(table: &Vec<(String, String)>, name: &str) -> (r: Option<String>)
        ensures
            match r {
                Some(h) => names_lookup(names_view(table@), name@) == Some(h@),
                None => names_lookup(names_view(table@), name@) is None,
            },
    {
        let key = name.to_owned();
        let n = table.len();
        let mut i: usize = n;
        proof {
            assert(names_view(table@).subrange(0, n as int) =~= names_view(table@));
        }
        while i > 0
            invariant
                0 <= i <= n,
                n == table@.len(),
                names_lookup(names_view(table@), name@) == names_lookup(
                    names_view(table@).subrange(0, i as int),
                    name@,
                ),
            decreases i,
        {
            i = i - 1;
            let ghost pre = names_view(table@).subrange(0, i as int + 1);
            proof {
                assert(pre.last() == names_view(table@)[i as int]);
                assert(names_view(table@)[i as int] == (table@[i as int].0@, table@[i as int].1@));
                assert(pre.drop_last() =~= names_view(table@).subrange(0, i as int));
            }
            if table[i].0 == key {
                return Some(table[i].1.clone());
            }
        }
        proof {
            assert(names_view(table@).subrange(0, 0) =~= Seq::<(Seq<char>, Seq<char>)>::empty());
        }
        None
    }
}

/// The view of an executable name table.
pub open spec fn names_view(table: Seq<(String, String)>) -> Seq<(Seq<char>, Seq<char>)> {
    Seq::new(table.len(), |i: int| (table[i].0@, table[i].1@))
}

/// The view of an executable import table equals the import map of the
/// declarations it was built from.
pub open spec fn import_table_view(table: Seq<(String, String)>) -> Map<Seq<char>, Seq<char>>
    decreases table,
{
    if table.len() == 0 {
        Map::empty()
    } else {
        import_table_view(table.drop_last()).insert(table.last().0@, table.last().1@)
    }
}

/// The last entry of a name table is the last binding.
pub proof fn lemma_names_last(table: Seq<(String, String)>)
    requires
        table.len() > 0,
    ensures
        names_view(table).len() == table.len(),
        names_view(table).last() == (table.last().0@, table.last().1@),
{
}

/// Looking a name up in the association list agrees with the map its
/// entries fold into.
pub proof fn lemma_table_lookup(t: Seq<(String, String)>, k: Seq<char>)
    ensures
        match names_lookup(names_view(t), k) {
            Option::Some(h) => import_table_view(t).contains_key(k) && import_table_view(t)[k]
                == h,
            Option::None => !import_table_view(t).contains_key(k),
        },
    decreases t,
{
    if t.len() > 0 {
        lemma_names_last(t);
        assert(names_view(t).drop_last() =~= names_view(t.drop_last()));
        if t.last().0@ != k {
            lemma_table_lookup(t.drop_last(), k);
        }
    } else {
        assert(names_view(t) =~= Seq::<(Seq<char>, Seq<char>)>::empty());
    }
}

} // verus!
