//! The content-addressed store: identity, persistence, context isolation and
//! the permission graph.

use vstd::prelude::*;
use vstd::string::*;
use crate::{
    IdentityAtom, IdentityModel, LogicAtom, AtomModel, ProjectAtom, ProjectModel, ProjectStatus,
    GuardError, ValidationError, VaultError, OP_PERMISSION,
};
use crate::blob::BlobStore;
use crate::codec::{
    enc_atom, dec_atom, enc_identity, dec_identity, enc_project, dec_project, dec_contract,
    encode_atom, decode_atom, encode_identity, decode_identity, encode_project, decode_project,
    decode_contract, atom_wf, identity_wf, project_wf,
};
use crate::digest::{blake3_hex, content_digest, is_digest};
use crate::guard::{AetherGuard, spec_compat, spec_sovereign};
use crate::kv::{kv_view, kv_open, kv_open_temporary, kv_insert, kv_get, kv_scan_prefix, is_prefix_of};
use crate::json::{JModel, JsonValue, jview, jview_list, jview_fields, lemma_jview_list, lemma_jview_fields};
use crate::codec::bytes_to_string;
use vstd::utf8::{valid_utf8, decode_utf8, encode_utf8};

verus! {

/// The content address of an atom: the digest of its canonical bytes.
pub open spec fn atom_hash(m: AtomModel) -> Seq<char> {
    blake3_hex(enc_atom(m))
}

/// The store key an atom lives under: the UTF-8 bytes of its hash.
pub open spec fn atom_key(h: Seq<char>) -> Seq<u8> {
    encode_utf8(h)
}

/// The store key of an identity record.
pub open spec fn id_key(h: Seq<char>) -> Seq<u8> {
    encode_utf8("ID:"@ + h)
}

/// The store key of a project record.
pub open spec fn proj_key(name: Seq<char>) -> Seq<u8> {
    encode_utf8("PROJ:"@ + name)
}

/// The rate a financial atom's payload declares: its first four bytes as a
/// little-endian signed 32-bit integer, or zero if the payload is shorter.
pub open spec fn spec_rate(data: Seq<u8>) -> i32 {
    if data.len() < 4 {
        0
    } else {
        vstd::bytes::spec_u32_from_le_bytes(data.subrange(0, 4)) as i32
    }
}

/// Decodes the rate a financial atom's payload declares.
pub fn extract_rate(data: &[u8]) -> (r: i32)
    ensures
        r == spec_rate(data@),
{
    if data.len() < 4 {
        return 0;
    }
    let sub = vstd::slice::slice_subrange(data, 0, 4);
    let x = vstd::bytes::u32_from_le_bytes(sub);
    #[verifier::truncate] (x as i32)
}

/// The ghost shape of a validation verdict, payloads included.
pub ghost enum ValKind {
    BlobLoad(Seq<char>),
    InterestLaw(i32),
    SovereigntyLaw(Seq<char>, u8),
    MalformedContract,
    ContextIsolation(Seq<char>, Seq<char>),
    MissingDependency(Seq<char>),
    Incompatible(GuardError),
}

/// The shape of a concrete validation error.
pub open spec fn val_kind(v: ValidationError) -> ValKind {
    match v {
        ValidationError::BlobLoad { storage_ref } => ValKind::BlobLoad(storage_ref@),
        ValidationError::InterestLaw { rate } => ValKind::InterestLaw(rate),
        ValidationError::SovereigntyLaw { endpoint, sensitivity } => ValKind::SovereigntyLaw(
            endpoint@,
            sensitivity,
        ),
        ValidationError::MalformedContract => ValKind::MalformedContract,
        ValidationError::ContextIsolation { atom_context, input_context } => ValKind::ContextIsolation(
            atom_context@,
            input_context@,
        ),
        ValidationError::MissingDependency { input_hash } => ValKind::MissingDependency(
            input_hash@,
        ),
        ValidationError::Incompatible(g) => ValKind::Incompatible(g),
    }
}

/// Resolves and checks the declared inputs, in order, failing on the first
/// input that is missing or whose context crosses a project boundary.
/// On success, yields the resolved input models in declaration order.
pub open spec fn check_inputs(
    inputs: Seq<Seq<char>>,
    ctx: Seq<char>,
    store: Map<Seq<u8>, Seq<u8>>,
) -> Result<Seq<AtomModel>, ValKind>
    decreases inputs,
{
    if inputs.len() == 0 {
        Ok(Seq::empty())
    } else {
        let key = atom_key(inputs[0]);
        if !store.contains_key(key) || dec_atom(store[key]) is None {
            Err(ValKind::MissingDependency(inputs[0]))
        } else {
            let ia = dec_atom(store[key])->Some_0;
            if ia.context_id != crate::spec_global_context() && ia.context_id != ctx {
                Err(ValKind::ContextIsolation(ctx, ia.context_id))
            } else {
                match check_inputs(inputs.subrange(1, inputs.len() as int), ctx, store) {
                    Ok(rest) => Ok(seq![ia] + rest),
                    Err(e) => Err(e),
                }
            }
        }
    }
}

/// The verdict of the governed write path on an atom, given the store and the
/// blob store: `None` means the atom is admitted. Checks run in order and the
/// first violation decides: payload resolution, the interest-free law for
/// financial atoms, the sovereignty law for I/O atoms, context isolation and
/// presence of every input, then structural compatibility.
pub open spec fn pv_verdict(
    m: AtomModel,
    store: Map<Seq<u8>, Seq<u8>>,
    blobs: Map<Seq<char>, Seq<u8>>,
) -> Option<ValKind> {
    if !blobs.contains_key(m.storage_ref) {
        Some(ValKind::BlobLoad(m.storage_ref))
    } else {
        let payload = blobs[m.storage_ref];
        if m.op_code == 100 && spec_rate(payload) != 0 {
            Some(ValKind::InterestLaw(spec_rate(payload)))
        } else if m.op_code == 500 && dec_contract(payload) is None {
            Some(ValKind::MalformedContract)
        } else if m.op_code == 500 && !spec_sovereign(
            dec_contract(payload)->Some_0.endpoint,
            dec_contract(payload)->Some_0.sensitivity,
        ) {
            Some(
                ValKind::SovereigntyLaw(
                    dec_contract(payload)->Some_0.endpoint,
                    dec_contract(payload)->Some_0.sensitivity,
                ),
            )
        } else {
            match check_inputs(m.inputs, m.context_id, store) {
                Err(e) => Some(e),
                Ok(resolved) => {
                    match spec_compat(m, resolved) {
                        Err(g) => Some(ValKind::Incompatible(g)),
                        Ok(_) => None,
                    }
                },
            }
        }
    }
}

/// The store after the atoms of a batch are persisted one by one, in order.
pub open spec fn insert_atoms(
    store: Map<Seq<u8>, Seq<u8>>,
    atoms: Seq<AtomModel>,
) -> Map<Seq<u8>, Seq<u8>>
    decreases atoms,
{
    if atoms.len() == 0 {
        store
    } else {
        insert_atoms(
            store.insert(atom_key(atom_hash(atoms[0])), enc_atom(atoms[0])),
            atoms.subrange(1, atoms.len() as int),
        )
    }
}

/// The parent of two digests in the batch tree: the digest of their
/// concatenated hexadecimal forms.
pub open spec fn merkle_parent(a: Seq<char>, b: Seq<char>) -> Seq<char> {
    blake3_hex(encode_utf8(a) + encode_utf8(b))
}

/// One level of pairwise combination; an odd trailing digest is paired with
/// itself.
pub open spec fn merkle_level(level: Seq<Seq<char>>) -> Seq<Seq<char>>
    decreases level.len(),
{
    if level.len() == 0 {
        Seq::empty()
    } else if level.len() == 1 {
        seq![merkle_parent(level[0], level[0])]
    } else {
        seq![merkle_parent(level[0], level[1])] + merkle_level(
            level.subrange(2, level.len() as int),
        )
    }
}

pub proof fn lemma_merkle_level_len(level: Seq<Seq<char>>)
    ensures
        merkle_level(level).len() == (level.len() + 1) / 2,
    decreases level.len(),
{
    if level.len() >= 2 {
        lemma_merkle_level_len(level.subrange(2, level.len() as int));
    }
}

/// The root of the batch tree over a non-empty list of digests.
pub open spec fn merkle_root(hashes: Seq<Seq<char>>) -> Seq<char>
    decreases hashes.len(),
    when hashes.len() >= 1
    via merkle_root_decreases
{
    if hashes.len() == 1 {
        hashes[0]
    } else {
        merkle_root(merkle_level(hashes))
    }
}

#[via_fn]
proof fn merkle_root_decreases(hashes: Seq<Seq<char>>) {
    if hashes.len() > 1 {
        lemma_merkle_level_len(hashes);
    }
}

/// The digests of a batch of atoms, in order.
pub open spec fn batch_hashes(atoms: Seq<LogicAtom>) -> Seq<Seq<char>> {
    Seq::new(atoms.len(), |i: int| atom_hash(atoms[i]@))
}

/// The content-addressed store. Every record is keyed by a digest-derived
/// byte string; logic atoms, identity records and project records live in
/// disjoint key namespaces.
#[derive(Debug)]
pub struct AetherVault {
    db: sled::Db,
}

impl AetherVault {
    /// What the store holds.
    pub closed spec fn store(&self) -> Map<Seq<u8>, Seq<u8>> {
        kv_view(self.db)
    }

    /// Opens (or creates) the store at `path`; its content is whatever the
    /// directory held.
    pub fn new(path: &str) -> (r: Result<AetherVault, VaultError>)
    {
        match kv_open(path) {
            Ok(db) => Ok(AetherVault { db }),
            Err(e) => Err(e),
        }
    }

    /// Opens an empty store in a temporary directory that is removed when
    /// the handle is dropped.
    pub fn new_ephemeral() -> (r: Result<AetherVault, VaultError>)
        ensures
            match r {
                Ok(v) => v.store() == Map::<Seq<u8>, Seq<u8>>::empty(),
                Err(e) => e is Storage,
            },
    {
        match kv_open_temporary() {
            Ok(db) => Ok(AetherVault { db }),
            Err(e) => Err(e),
        }
    }

    /// Persists an atom with no validation and returns its content address.
    /// The address depends on the atom's fields alone, so persisting equal
    /// atoms twice writes one record and returns one address.
    pub fn persist(&mut self, atom: &LogicAtom) -> (r: Result<String, VaultError>)
        ensures
            match r {
                Ok(h) => {
                    &&& h@ == atom_hash(atom@)
                    &&& is_digest(h@)
                    &&& final(self).store() == old(self).store().insert(atom_key(h@), enc_atom(atom@))
                },
                Err(e) => e is Storage,
            },
    {
        let data = encode_atom(atom);
        let h = content_digest(data.as_slice());
        let key = h.as_str().as_bytes_vec();
        match kv_insert(&mut self.db, key.as_slice(), data.as_slice()) {
            Ok(_) => Ok(h),
            Err(e) => Err(e),
        }
    }

    /// Retrieves the atom stored under a content address. Returns `NotFound`
    /// when nothing is stored under the address or the record there is not an
    /// atom.
    pub fn fetch(&self, hash: &str) -> (r: Result<LogicAtom, VaultError>)
        ensures
            match r {
                Ok(a) => self.store().contains_key(atom_key(hash@)) && dec_atom(
                    self.store()[atom_key(hash@)],
                ) == Some(a@),
                Err(e) => e is Storage || (e is NotFound && (!self.store().contains_key(
                    atom_key(hash@),
                ) || dec_atom(self.store()[atom_key(hash@)]) is None)),
            },
    {
        let key = hash.as_bytes_vec();
        match kv_get(&self.db, key.as_slice()) {
            Ok(Some(data)) => {
                match decode_atom(data.as_slice()) {
                    Some(a) => Ok(a),
                    None => Err(VaultError::NotFound),
                }
            },
            Ok(None) => Err(VaultError::NotFound),
            Err(e) => Err(e),
        }
    }

    /// Persists every atom of a batch, in order, and returns the root of the
    /// binary digest tree over their addresses: digests are combined
    /// pairwise, an odd count duplicating the last, until one remains.
    #[verifier::loop_isolation(false)]
    #[verifier::rlimit(100)]
    #[verifier::spinoff_prover]
    pub fn persist_batch(&mut self, atoms: Vec<LogicAtom>) -> (r: Result<String, VaultError>)
        requires
            atoms@.len() >= 1,
        ensures
            match r {
                Ok(root) => {
                    &&& root@ == merkle_root(batch_hashes(atoms@))
                    &&& final(self).store() == insert_atoms(
                        old(self).store(),
                        Seq::new(atoms@.len(), |i: int| atoms@[i]@),
                    )
                },
                Err(e) => e is Storage,
            },
    {
        let ghost models = Seq::new(atoms@.len(), |i: int| atoms@[i]@);
        let mut hashes: Vec<String> = Vec::new();
        let mut i: usize = 0;
        while i < atoms.len()
            invariant
                0 <= i <= atoms@.len(),
                hashes@.len() == i,
                forall|k: int| 0 <= k < i ==> (#[trigger] hashes@[k])@ == batch_hashes(atoms@)[k],
                self.store() == insert_atoms(old(self).store(), models.subrange(0, i as int)),
            decreases atoms@.len() - i,
        {
            let ghost pre = self.store();
            let h = match self.persist(&atoms[i]) {
                Ok(h) => h,
                Err(e) => {
                    return Err(e);
                },
            };
            hashes.push(h);
            proof {
                assert(models.subrange(0, i as int).push(models[i as int]) =~= models.subrange(
                    0,
                    i as int + 1,
                ));
                lemma_insert_atoms_snoc(old(self).store(), models.subrange(0, i as int), models[i as int]);
            }
            i = i + 1;
        }
        proof {
            assert(models.subrange(0, atoms@.len() as int) =~= models);
        }
        let mut level = hashes;
        let ghost mut spec_level = batch_hashes(atoms@);
        proof {
            assert(level.deep_view() =~= spec_level);
        }
        while level.len() > 1
            invariant
                level@.len() >= 1,
                level.deep_view() == spec_level,
                spec_level.len() >= 1,
                merkle_root(spec_level) == merkle_root(batch_hashes(atoms@)),
            decreases level@.len(),
        {
            let mut next: Vec<String> = Vec::new();
            let mut j: usize = 0;
            while j < level.len()
                invariant
                    level@.len() >= 2,
                    level.deep_view() == spec_level,
                    0 <= j <= level@.len(),
                    j % 2 == 0 || j == level@.len(),
                    next.deep_view() == merkle_level_prefix(spec_level, j as int),
                decreases level@.len() - j,
            {
                let a = &level[j];
                let mut cat = a.as_str().as_bytes_vec();
                let mut second = if j + 1 < level.len() {
                    level[j + 1].as_str().as_bytes_vec()
                } else {
                    a.as_str().as_bytes_vec()
                };
                cat.append(&mut second);
                let parent = content_digest(cat.as_slice());
                let ghost prev_dv = next.deep_view();
                next.push(parent);
                proof {
                    assert(level.deep_view()[j as int] == level@[j as int]@);
                    if j + 1 < level@.len() {
                        assert(level.deep_view()[j as int + 1] == level@[j as int + 1]@);
                        assert(cat@ =~= encode_utf8(spec_level[j as int]) + encode_utf8(
                            spec_level[j as int + 1],
                        ));
                        assert(parent@ == merkle_parent(
                            spec_level[j as int],
                            spec_level[j as int + 1],
                        ));
                    } else {
                        assert(cat@ =~= encode_utf8(spec_level[j as int]) + encode_utf8(
                            spec_level[j as int],
                        ));
                        assert(parent@ == merkle_parent(spec_level[j as int], spec_level[j as int]));
                    }
                    assert(next.deep_view() =~= prev_dv.push(parent@));
                    lemma_merkle_level_prefix_step(spec_level, j as int);
                    if j + 2 <= level@.len() {
                        assert(next.deep_view() =~= merkle_level_prefix(spec_level, j + 2));
                    } else {
                        assert(next.deep_view() =~= merkle_level_prefix(spec_level, j + 1));
                    }
                }
                if j + 1 < level.len() {
                    j = j + 2;
                } else {
                    j = level.len();
                }
            }
            proof {
                lemma_merkle_level_prefix_full(spec_level);
                lemma_merkle_level_len(spec_level);
            }
            level = next;
            proof {
                spec_level = merkle_level(spec_level);
            }
        }
        let root = level.pop().unwrap();
        proof {
            assert(root@ == spec_level[0]);
        }
        Ok(root)
    }

    /// The governed write path: resolves the atom's payload, enforces the
    /// interest-free law on financial atoms and the sovereignty law on I/O
    /// atoms, requires every declared input to be present and in the same
    /// context (or the global one), asks the guard for structural
    /// compatibility, and only then persists. The first violation decides,
    /// and a rejected atom leaves the store untouched.
    #[verifier::loop_isolation(false)]
    #[verifier::rlimit(100)]
    #[verifier::spinoff_prover]
    pub fn persist_verified(&mut self, atom: &LogicAtom, guard: &AetherGuard, blobs: &BlobStore)
        -> (r: Result<String, VaultError>)
        requires
            blobs.wf(),
        ensures
            match r {
                Ok(h) => {
                    &&& pv_verdict(atom@, old(self).store(), blobs.view_map()) is None
                    &&& h@ == atom_hash(atom@)
                    &&& is_digest(h@)
                    &&& final(self).store() == old(self).store().insert(
                        atom_key(h@),
                        enc_atom(atom@),
                    )
                },
                Err(e) => e is Storage || (e matches VaultError::Validation(v) && pv_verdict(
                    atom@,
                    old(self).store(),
                    blobs.view_map(),
                ) == Some(val_kind(v)) && final(self).store() == old(self).store()),
            },
            (r matches Err(e) && e is Storage && pv_verdict(
                atom@,
                old(self).store(),
                blobs.view_map(),
            ) is Some) ==> final(self).store() == old(self).store(),
    {
        let payload = match blobs.read_blob(atom.storage_ref.as_str()) {
            Some(p) => p,
            None => {
                return Err(
                    VaultError::Validation(
                        ValidationError::BlobLoad { storage_ref: atom.storage_ref.clone() },
                    ),
                );
            },
        };
        if atom.op_code == 100 {
            let rate = extract_rate(payload.as_slice());
            if !guard.verify_interest_free(rate) {
                return Err(VaultError::Validation(ValidationError::InterestLaw { rate }));
            }
        }
        if atom.op_code == 500 {
            match decode_contract(payload.as_slice()) {
                Some(c) => {
                    if !guard.verify_sovereignty(c.endpoint.as_str(), c.sensitivity) {
                        return Err(
                            VaultError::Validation(
                                ValidationError::SovereigntyLaw {
                                    endpoint: c.endpoint,
                                    sensitivity: c.sensitivity,
                                },
                            ),
                        );
                    }
                },
                None => {
                    return Err(VaultError::Validation(ValidationError::MalformedContract));
                },
            }
        }
        let global = crate::default_context();
        let mut input_atoms: Vec<LogicAtom> = Vec::new();
        let ghost all_inputs = atom@.inputs;
        let ghost ctx = atom@.context_id;
        let mut i: usize = 0;
        proof {
            assert(all_inputs.subrange(0, all_inputs.len() as int) =~= all_inputs);
        }
        while i < atom.inputs.len()
            invariant
                0 <= i <= all_inputs.len(),
                all_inputs.len() == atom.inputs@.len(),
                input_atoms@.len() == i,
                check_inputs(all_inputs, ctx, self.store()) == (match check_inputs(
                    all_inputs.subrange(i as int, all_inputs.len() as int),
                    ctx,
                    self.store(),
                ) {
                    Ok(rest) => Ok::<Seq<AtomModel>, ValKind>(
                        Seq::new(input_atoms@.len(), |k: int| input_atoms@[k]@) + rest,
                    ),
                    Err(e) => Err(e),
                }),
            decreases all_inputs.len() - i,
        {
            let ghost remaining = all_inputs.subrange(i as int, all_inputs.len() as int);
            proof {
                assert(remaining[0] == all_inputs[i as int]);
                assert(all_inputs[i as int] == atom.inputs@[i as int]@);
                assert(remaining.subrange(1, remaining.len() as int) =~= all_inputs.subrange(
                    i as int + 1,
                    all_inputs.len() as int,
                ));
            }
            match self.fetch(atom.inputs[i].as_str()) {
                Ok(input_atom) => {
                    if !(input_atom.context_id == global) && !(input_atom.context_id
                        == atom.context_id) {
                        return Err(
                            VaultError::Validation(
                                ValidationError::ContextIsolation {
                                    atom_context: atom.context_id.clone(),
                                    input_context: input_atom.context_id,
                                },
                            ),
                        );
                    }
                    let ghost prev = Seq::new(input_atoms@.len(), |k: int| input_atoms@[k]@);
                    let ghost im = input_atom@;
                    input_atoms.push(input_atom);
                    proof {
                        assert(Seq::new(input_atoms@.len(), |k: int| input_atoms@[k]@) =~= prev.push(
                            im,
                        ));
                        match check_inputs(
                            all_inputs.subrange(i as int + 1, all_inputs.len() as int),
                            ctx,
                            self.store(),
                        ) {
                            Ok(rest) => {
                                assert(prev + (seq![im] + rest) =~= prev.push(im) + rest);
                            },
                            Err(_) => {},
                        }
                    }
                },
                Err(VaultError::NotFound) => {
                    return Err(
                        VaultError::Validation(
                            ValidationError::MissingDependency {
                                input_hash: atom.inputs[i].clone(),
                            },
                        ),
                    );
                },
                Err(e) => {
                    return Err(e);
                },
            }
            i = i + 1;
        }
        proof {
            assert(all_inputs.subrange(all_inputs.len() as int, all_inputs.len() as int)
                =~= Seq::<Seq<char>>::empty());
            match check_inputs(all_inputs, ctx, self.store()) {
                Ok(resolved) => {
                    assert(Seq::new(input_atoms@.len(), |k: int| input_atoms@[k]@)
                        + Seq::<AtomModel>::empty() =~= Seq::new(
                        input_atoms@.len(),
                        |k: int| input_atoms@[k]@,
                    ));
                },
                Err(_) => {},
            }
        }
        match guard.verify_compatibility(atom, input_atoms.as_slice()) {
            Ok(_) => {},
            Err(ge) => {
                return Err(VaultError::Validation(ValidationError::Incompatible(ge)));
            },
        }
        proof {
            assert(pv_verdict(atom@, old(self).store(), blobs.view_map()) is None);
        }
        self.persist(atom)
    }

    /// Persists an identity record. The record is keyed by the digest of the
    /// principal's public key alone, so the key survives role or organization
    /// changes and updates rewrite the whole record.
    pub fn persist_identity(&mut self, identity: &IdentityAtom) -> (r: Result<String, VaultError>)
        ensures
            match r {
                Ok(h) => {
                    &&& h@ == blake3_hex(encode_utf8(identity.public_key@))
                    &&& is_digest(h@)
                    &&& final(self).store() == old(self).store().insert(
                        id_key(h@),
                        enc_identity(identity@),
                    )
                },
                Err(e) => e is Storage,
            },
    {
        let data = encode_identity(identity);
        let h = content_digest(identity.public_key.as_str().as_bytes());
        let mut key = String::from_str("ID:");
        key.append(h.as_str());
        let key_bytes = key.as_str().as_bytes_vec();
        match kv_insert(&mut self.db, key_bytes.as_slice(), data.as_slice()) {
            Ok(_) => Ok(h),
            Err(e) => Err(e),
        }
    }

    /// Retrieves the identity record stored under an identity hash.
    pub fn fetch_identity(&self, hash: &str) -> (r: Result<IdentityAtom, VaultError>)
        ensures
            match r {
                Ok(idn) => self.store().contains_key(id_key(hash@)) && dec_identity(
                    self.store()[id_key(hash@)],
                ) == Some(idn@),
                Err(e) => e is Storage || (e is IdentityNotFound && (!self.store().contains_key(
                    id_key(hash@),
                ) || dec_identity(self.store()[id_key(hash@)]) is None)),
            },
    {
        let mut key = String::from_str("ID:");
        key.append(hash);
        let key_bytes = key.as_str().as_bytes_vec();
        match kv_get(&self.db, key_bytes.as_slice()) {
            Ok(Some(data)) => {
                match decode_identity(data.as_slice()) {
                    Some(idn) => Ok(idn),
                    None => Err(VaultError::IdentityNotFound),
                }
            },
            Ok(None) => Err(VaultError::IdentityNotFound),
            Err(e) => Err(e),
        }
    }

    /// Persists a project record under its name and returns the name.
    /// Updates are whole-record rewrites: the last writer wins.
    pub fn persist_project(&mut self, project: &ProjectAtom) -> (r: Result<String, VaultError>)
        ensures
            match r {
                Ok(name) => {
                    &&& name@ == project.name@
                    &&& final(self).store() == old(self).store().insert(
                        proj_key(project.name@),
                        enc_project(project@),
                    )
                },
                Err(e) => e is Storage,
            },
    {
        let data = encode_project(project);
        let mut key = String::from_str("PROJ:");
        key.append(project.name.as_str());
        let key_bytes = key.as_str().as_bytes_vec();
        match kv_insert(&mut self.db, key_bytes.as_slice(), data.as_slice()) {
            Ok(_) => Ok(project.name.clone()),
            Err(e) => Err(e),
        }
    }

    /// Retrieves the project record stored under a name.
    pub fn get_project(&self, name: &str) -> (r: Result<ProjectAtom, VaultError>)
        ensures
            match r {
                Ok(p) => self.store().contains_key(proj_key(name@)) && dec_project(
                    self.store()[proj_key(name@)],
                ) == Some(p@),
                Err(e) => e is Storage || (e is NotFound && (!self.store().contains_key(
                    proj_key(name@),
                ) || dec_project(self.store()[proj_key(name@)]) is None)),
            },
    {
        let mut key = String::from_str("PROJ:");
        key.append(name);
        let key_bytes = key.as_str().as_bytes_vec();
        match kv_get(&self.db, key_bytes.as_slice()) {
            Ok(Some(data)) => {
                match decode_project(data.as_slice()) {
                    Some(p) => Ok(p),
                    None => Err(VaultError::NotFound),
                }
            },
            Ok(None) => Err(VaultError::NotFound),
            Err(e) => Err(e),
        }
    }


    /// Lists every readable project record in the store.
    #[verifier::loop_isolation(false)]
    pub fn list_projects(&self) -> (r: Result<Vec<ProjectAtom>, VaultError>)
        ensures
            match r {
                Ok(v) => exists|pairs: Seq<(Seq<u8>, Seq<u8>)>|
                    enumerates_prefix(pairs, self.store(), encode_utf8("PROJ:"@)) && Seq::new(
                        v@.len(),
                        |i: int| v@[i]@,
                    ) == #[trigger] project_items(pairs),
                Err(e) => e is Storage,
            },
    {
        let pairs = match kv_scan_prefix(&self.db, "PROJ:".as_bytes()) {
            Ok(p) => p,
            Err(e) => {
                return Err(e);
            },
        };
        let ghost pv = Seq::new(pairs@.len(), |i: int| (pairs@[i].0@, pairs@[i].1@));
        proof {
            assert forall|k: Seq<u8>|
                self.store().contains_key(k) && is_prefix_of(encode_utf8("PROJ:"@), k)
                implies exists|i: int| 0 <= i < pv.len() && (#[trigger] pv[i]).0 == k by {
                let w = choose|w: int|
                    0 <= w < pairs@.len() && (#[trigger] pairs@[w]).0@ == k;
                assert(pv[w].0 == k);
            }
            assert(enumerates_prefix(pv, self.store(), encode_utf8("PROJ:"@)));
            assert(pv.subrange(0, pv.len() as int) =~= pv);
        }
        let mut out: Vec<ProjectAtom> = Vec::new();
        let mut i: usize = 0;
        proof {
            assert(Seq::new(out@.len(), |t: int| out@[t]@) =~= Seq::<ProjectModel>::empty());
        }
        while i < pairs.len()
            invariant
                0 <= i <= pv.len(),
                pv.len() == pairs@.len(),
                pv == Seq::new(pairs@.len(), |t: int| (pairs@[t].0@, pairs@[t].1@)),
                project_items(pv) == Seq::new(out@.len(), |t: int| out@[t]@) + project_items(
                    pv.subrange(i as int, pv.len() as int),
                ),
            decreases pv.len() - i,
        {
            let ghost suffix = pv.subrange(i as int, pv.len() as int);
            proof {
                assert(suffix[0] == pv[i as int]);
                assert(pv[i as int] == (pairs@[i as int].0@, pairs@[i as int].1@));
                assert(suffix.subrange(1, suffix.len() as int) =~= pv.subrange(
                    i as int + 1,
                    pv.len() as int,
                ));
            }
            match decode_project(pairs[i].1.as_slice()) {
                Some(p) => {
                    let ghost prev = Seq::new(out@.len(), |t: int| out@[t]@);
                    let ghost pm = p@;
                    out.push(p);
                    proof {
                        assert(Seq::new(out@.len(), |t: int| out@[t]@) =~= prev.push(pm));
                        assert(prev + (seq![pm] + project_items(
                            pv.subrange(i as int + 1, pv.len() as int),
                        )) =~= prev.push(pm) + project_items(
                            pv.subrange(i as int + 1, pv.len() as int),
                        ));
                    }
                },
                None => {
                    proof {
                        assert(Seq::<ProjectModel>::empty() + project_items(
                            pv.subrange(i as int + 1, pv.len() as int),
                        ) =~= project_items(pv.subrange(i as int + 1, pv.len() as int)));
                    }
                },
            }
            i = i + 1;
        }
        proof {
            assert(pv.subrange(pv.len() as int, pv.len() as int)
                =~= Seq::<(Seq<u8>, Seq<u8>)>::empty());
            assert(Seq::new(out@.len(), |t: int| out@[t]@) + Seq::<ProjectModel>::empty()
                =~= Seq::new(out@.len(), |t: int| out@[t]@));
        }
        Ok(out)
    }

    /// Rewrites a project record with a new status, keeping its other fields.
    pub fn update_project_status(&mut self, name: &str, status: ProjectStatus) -> (r: Result<
        (),
        VaultError,
    >)
        ensures
            match r {
                Ok(_) => {
                    &&& old(self).store().contains_key(proj_key(name@))
                    &&& dec_project(old(self).store()[proj_key(name@)]) is Some
                    &&& {
                        let p = dec_project(old(self).store()[proj_key(name@)])->Some_0;
                        final(self).store() == old(self).store().insert(
                            proj_key(p.name),
                            enc_project(
                                ProjectModel {
                                    name: p.name,
                                    root_hash: p.root_hash,
                                    org_hash: p.org_hash,
                                    status: status,
                                    created_at: p.created_at,
                                },
                            ),
                        )
                    }
                },
                Err(e) => e is Storage || (e is NotFound && (!old(self).store().contains_key(
                    proj_key(name@),
                ) || dec_project(old(self).store()[proj_key(name@)]) is None)
                    && final(self).store() == old(self).store()),
            },
    {
        let mut proj = match self.get_project(name) {
            Ok(p) => p,
            Err(e) => {
                return Err(e);
            },
        };
        proj.status = status;
        match self.persist_project(&proj) {
            Ok(_) => Ok(()),
            Err(e) => Err(e),
        }
    }

    /// Rewrites a project record with a new root hash, keeping its other
    /// fields.
    pub fn update_project_hash(&mut self, name: &str, hash: &str) -> (r: Result<(), VaultError>)
        ensures
            match r {
                Ok(_) => {
                    &&& old(self).store().contains_key(proj_key(name@))
                    &&& dec_project(old(self).store()[proj_key(name@)]) is Some
                    &&& {
                        let p = dec_project(old(self).store()[proj_key(name@)])->Some_0;
                        final(self).store() == old(self).store().insert(
                            proj_key(p.name),
                            enc_project(
                                ProjectModel {
                                    name: p.name,
                                    root_hash: hash@,
                                    org_hash: p.org_hash,
                                    status: p.status,
                                    created_at: p.created_at,
                                },
                            ),
                        )
                    }
                },
                Err(e) => e is Storage || (e is NotFound && (!old(self).store().contains_key(
                    proj_key(name@),
                ) || dec_project(old(self).store()[proj_key(name@)]) is None)
                    && final(self).store() == old(self).store()),
            },
    {
        let mut proj = match self.get_project(name) {
            Ok(p) => p,
            Err(e) => {
                return Err(e);
            },
        };
        proj.root_hash = hash.to_owned();
        match self.persist_project(&proj) {
            Ok(_) => Ok(()),
            Err(e) => Err(e),
        }
    }

    /// Whether a principal may act on a resource, decided exactly: storage
    /// failure is reported instead of being read as refusal.
    #[verifier::loop_isolation(false)]
    pub fn check_resonance(&self, user_hash: &str, project_hash: &str) -> (r: Result<
        bool,
        VaultError,
    >)
        ensures
            match r {
                Ok(b) => b == spec_resonance(self.store(), user_hash@, project_hash@),
                Err(e) => e is Storage,
            },
    {
        let identity = match self.fetch_identity(user_hash) {
            Ok(idn) => idn,
            Err(VaultError::IdentityNotFound) => {
                return Ok(false);
            },
            Err(e) => {
                return Err(e);
            },
        };
        let ghost access = identity@.access_nodes;
        let mut i: usize = 0;
        while i < identity.access_nodes.len()
            invariant
                0 <= i <= access.len(),
                access.len() == identity.access_nodes@.len(),
                forall|k: int|
                    0 <= k < i ==> !grants(self.store(), #[trigger] access[k], project_hash@),
            decreases access.len() - i,
        {
            proof {
                assert(access[i as int] == identity.access_nodes@[i as int]@);
            }
            match self.fetch(identity.access_nodes[i].as_str()) {
                Ok(perm_node) => {
                    if perm_node.op_code == OP_PERMISSION {
                        let ghost perm_inputs = perm_node@.inputs;
                        let mut j: usize = 0;
                        while j < perm_node.inputs.len()
                            invariant
                                0 <= j <= perm_inputs.len(),
                                perm_inputs.len() == perm_node.inputs@.len(),
                                forall|k: int| 0 <= k < j ==> #[trigger] perm_inputs[k] != project_hash@,
                            decreases perm_inputs.len() - j,
                        {
                            let mut target = String::new();
                            target.append(project_hash);
                            if perm_node.inputs[j] == target {
                                proof {
                                    assert(perm_inputs[j as int] == project_hash@);
                                    assert(grants(self.store(), access[i as int], project_hash@));
                                }
                                return Ok(true);
                            }
                            proof {
                                assert(perm_inputs[j as int] == perm_node.inputs@[j as int]@);
                            }
                            j = j + 1;
                        }
                        proof {
                            assert(!perm_node@.inputs.contains(project_hash@));
                        }
                    }
                },
                Err(VaultError::NotFound) => {
                },
                Err(e) => {
                    return Err(e);
                },
            }
            i = i + 1;
        }
        Ok(false)
    }

    /// Whether a principal may act on a resource: some access node of the
    /// principal is a permission atom whose inputs include the resource hash.
    /// A storage failure reads as refusal; [`Self::check_resonance`] reports
    /// it instead.
    pub fn verify_resonance(&self, user_hash: &str, project_hash: &str) -> (r: bool)
        ensures
            r ==> spec_resonance(self.store(), user_hash@, project_hash@),
    {
        match self.check_resonance(user_hash, project_hash) {
            Ok(b) => b,
            Err(_) => false,
        }
    }

    /// Persists an atom handed in directly, with no validation; the
    /// injection path shares the plain write path's contract.
    pub fn inject_atom(&mut self, atom: &LogicAtom) -> (r: Result<String, VaultError>)
        ensures
            match r {
                Ok(h) => {
                    &&& h@ == atom_hash(atom@)
                    &&& is_digest(h@)
                    &&& final(self).store() == old(self).store().insert(
                        atom_key(h@),
                        enc_atom(atom@),
                    )
                },
                Err(e) => e is Storage,
            },
    {
        self.persist(atom)
    }

    /// Lists a summary of every readable logic atom in the store: its hash,
    /// operation code and context, skipping identity and project records.
    #[verifier::loop_isolation(false)]
    #[verifier::rlimit(100)]
    pub fn inventory(&self) -> (r: Result<Vec<JsonValue>, VaultError>)
        ensures
            match r {
                Ok(v) => exists|pairs: Seq<(Seq<u8>, Seq<u8>)>|
                    enumerates(pairs, self.store()) && jview_list(v@) == #[trigger] inventory_items(
                        pairs,
                    ),
                Err(e) => e is Storage,
            },
    {
        let empty_prefix: Vec<u8> = Vec::new();
        let pairs = match kv_scan_prefix(&self.db, empty_prefix.as_slice()) {
            Ok(p) => p,
            Err(e) => {
                return Err(e);
            },
        };
        let ghost pv = Seq::new(pairs@.len(), |i: int| (pairs@[i].0@, pairs@[i].1@));
        proof {
            assert forall|k: Seq<u8>| self.store().contains_key(k) implies exists|i: int|
                0 <= i < pv.len() && (#[trigger] pv[i]).0 == k by {
                assert(k.subrange(0, 0) =~= Seq::<u8>::empty());
                assert(is_prefix_of(empty_prefix@, k));
                let w = choose|w: int|
                    0 <= w < pairs@.len() && (#[trigger] pairs@[w]).0@ == k;
                assert(pv[w].0 == k);
            }
            assert(enumerates(pv, self.store()));
            assert(pv.subrange(0, pv.len() as int) =~= pv);
        }
        let mut out: Vec<JsonValue> = Vec::new();
        let mut i: usize = 0;
        proof {
            assert(jview_list(out@) =~= Seq::<JModel>::empty());
        }
        while i < pairs.len()
            invariant
                0 <= i <= pv.len(),
                pv.len() == pairs@.len(),
                pv == Seq::new(pairs@.len(), |t: int| (pairs@[t].0@, pairs@[t].1@)),
                inventory_items(pv) == jview_list(out@) + inventory_items(
                    pv.subrange(i as int, pv.len() as int),
                ),
            decreases pv.len() - i,
        {
            let ghost suffix = pv.subrange(i as int, pv.len() as int);
            proof {
                assert(suffix[0] == pv[i as int]);
                assert(pv[i as int] == (pairs@[i as int].0@, pairs@[i as int].1@));
                assert(suffix.subrange(1, suffix.len() as int) =~= pv.subrange(
                    i as int + 1,
                    pv.len() as int,
                ));
            }
            let key = &pairs[i].0;
            let value = &pairs[i].1;
            let mut added = false;
            if !starts_with_bytes(key.as_slice(), "ID:".as_bytes()) && !starts_with_bytes(
                key.as_slice(),
                "PROJ:".as_bytes(),
            ) {
                match bytes_to_string(key.clone()) {
                    Some(ks) => {
                        match crate::codec::decode_atom(value.as_slice()) {
                            Some(a) => {
                                let mut fields: Vec<(String, JsonValue)> = Vec::new();
                                fields.push((String::from_str("hash"), JsonValue::Str(ks)));
                                fields.push(
                                    (String::from_str("op_code"), JsonValue::Int(a.op_code as i64)),
                                );
                                fields.push(
                                    (
                                        String::from_str("context_id"),
                                        JsonValue::Str(a.context_id),
                                    ),
                                );
                                let obj = JsonValue::Object(fields);
                                proof {
                                    lemma_jview_fields(obj->Object_0@);
                                    assert(jview_fields(obj->Object_0@) =~= seq![
                                        ("hash"@, JModel::Str(decode_utf8(pv[i as int].0))),
                                        (
                                            "op_code"@,
                                            JModel::Int(
                                                dec_atom(pv[i as int].1)->Some_0.op_code as i64,
                                            ),
                                        ),
                                        (
                                            "context_id"@,
                                            JModel::Str(
                                                dec_atom(pv[i as int].1)->Some_0.context_id,
                                            ),
                                        ),
                                    ]);
                                    let prev = jview_list(out@);
                                    lemma_jview_list(out@);
                                    lemma_jview_list(out@.push(obj));
                                    assert forall|t: int| 0 <= t < out@.len() + 1 implies #[trigger] jview_list(
                                        out@.push(obj),
                                    )[t] == prev.push(jview(obj))[t] by {
                                        if t < out@.len() {
                                            assert(out@.push(obj)[t] == out@[t]);
                                        } else {
                                            assert(out@.push(obj)[t] == obj);
                                        }
                                    }
                                    assert(jview_list(out@.push(obj)) =~= prev.push(jview(obj)));
                                    assert(prev + (seq![jview(obj)] + inventory_items(
                                        pv.subrange(i as int + 1, pv.len() as int),
                                    )) =~= prev.push(jview(obj)) + inventory_items(
                                        pv.subrange(i as int + 1, pv.len() as int),
                                    ));
                                }
                                out.push(obj);
                                added = true;
                            },
                            None => {
                            },
                        }
                    },
                    None => {
                    },
                }
            }
            proof {
                if !added {
                    assert(inventory_entry(pv[i as int].0, pv[i as int].1)
                        =~= Seq::<JModel>::empty());
                    assert(Seq::<JModel>::empty() + inventory_items(
                        pv.subrange(i as int + 1, pv.len() as int),
                    ) =~= inventory_items(pv.subrange(i as int + 1, pv.len() as int)));
                }
            }
            i = i + 1;
        }
        proof {
            assert(pv.subrange(pv.len() as int, pv.len() as int)
                =~= Seq::<(Seq<u8>, Seq<u8>)>::empty());
            assert(jview_list(out@) + Seq::<JModel>::empty() =~= jview_list(out@));
        }
        Ok(out)
    }

    /// Exports the whole keyspace as a node/edge document: identity records
    /// become identity nodes with access-grant edges, readable atoms become
    /// logic nodes with dependency edges.
    #[verifier::loop_isolation(false)]
    #[verifier::rlimit(100)]
    pub fn export_graph_json(&self) -> (r: Result<JsonValue, VaultError>)
        ensures
            match r {
                Ok(v) => exists|pairs: Seq<(Seq<u8>, Seq<u8>)>|
                    enumerates(pairs, self.store()) && jview(v) == #[trigger] graph_doc(pairs),
                Err(e) => e is Storage,
            },
    {
        let empty_prefix: Vec<u8> = Vec::new();
        let pairs = match kv_scan_prefix(&self.db, empty_prefix.as_slice()) {
            Ok(p) => p,
            Err(e) => {
                return Err(e);
            },
        };
        let ghost pv = Seq::new(pairs@.len(), |i: int| (pairs@[i].0@, pairs@[i].1@));
        proof {
            assert forall|k: Seq<u8>| self.store().contains_key(k) implies exists|i: int|
                0 <= i < pv.len() && (#[trigger] pv[i]).0 == k by {
                assert(k.subrange(0, 0) =~= Seq::<u8>::empty());
                assert(is_prefix_of(empty_prefix@, k));
                let w = choose|w: int|
                    0 <= w < pairs@.len() && (#[trigger] pairs@[w]).0@ == k;
                assert(pv[w].0 == k);
            }
            assert(enumerates(pv, self.store()));
            assert(pv.subrange(0, pv.len() as int) =~= pv);
        }
        let mut nodes: Vec<JsonValue> = Vec::new();
        let mut edges: Vec<JsonValue> = Vec::new();
        let mut i: usize = 0;
        proof {
            assert(jview_list(nodes@) =~= Seq::<JModel>::empty());
            assert(jview_list(edges@) =~= Seq::<JModel>::empty());
        }
        while i < pairs.len()
            invariant
                0 <= i <= pv.len(),
                pv.len() == pairs@.len(),
                pv == Seq::new(pairs@.len(), |t: int| (pairs@[t].0@, pairs@[t].1@)),
                graph_nodes(pv) == jview_list(nodes@) + graph_nodes(
                    pv.subrange(i as int, pv.len() as int),
                ),
                graph_edges(pv) == jview_list(edges@) + graph_edges(
                    pv.subrange(i as int, pv.len() as int),
                ),
            decreases pv.len() - i,
        {
            let ghost suffix = pv.subrange(i as int, pv.len() as int);
            proof {
                assert(suffix[0] == pv[i as int]);
                assert(pv[i as int] == (pairs@[i as int].0@, pairs@[i as int].1@));
                assert(suffix.subrange(1, suffix.len() as int) =~= pv.subrange(
                    i as int + 1,
                    pv.len() as int,
                ));
            }
            let key = &pairs[i].0;
            let value = &pairs[i].1;
            let ghost gk = pv[i as int].0;
            let ghost gv = pv[i as int].1;
            let mut node_added = false;
            let ghost prev_edges = jview_list(edges@);
            if starts_with_bytes(key.as_slice(), "ID:".as_bytes()) {
                match bytes_to_string(key.clone()) {
                    Some(ks) => {
                        if ks.unicode_len() >= 3 {
                            match crate::codec::decode_identity(value.as_slice()) {
                                Some(idn) => {
                                    let id_text = ks.as_str().substring_char(
                                        3,
                                        ks.unicode_len(),
                                    ).to_owned();
                                    proof {
                                        assert(id_text@ =~= id_part(gk));
                                    }
                                    let node = Self::mk_graph_node(
                                        id_text.as_str(),
                                        "User:",
                                        idn.role.as_str(),
                                        "identity",
                                    );
                                    proof {
                                        Self::push_model(nodes@, node);
                                    }
                                    nodes.push(node);
                                    node_added = true;
                                    let ghost targets = idn@.access_nodes;
                                    let mut t: usize = 0;
                                    proof {
                                        assert(targets.subrange(0, targets.len() as int)
                                            =~= targets);
                                        assert(prev_edges + access_edges(id_text@, targets)
                                            =~= jview_list(edges@) + access_edges(
                                            id_text@,
                                            targets.subrange(0, targets.len() as int),
                                        ));
                                    }
                                    while t < idn.access_nodes.len()
                                        invariant
                                            0 <= t <= targets.len(),
                                            targets.len() == idn.access_nodes@.len(),
                                            prev_edges + access_edges(id_text@, targets)
                                                == jview_list(edges@) + access_edges(
                                                id_text@,
                                                targets.subrange(t as int, targets.len() as int),
                                            ),
                                        decreases targets.len() - t,
                                    {
                                        let ghost tsuf = targets.subrange(
                                            t as int,
                                            targets.len() as int,
                                        );
                                        proof {
                                            assert(tsuf[0] == targets[t as int]);
                                            assert(targets[t as int] == idn.access_nodes@[
                                                t as int]@);
                                            assert(tsuf.subrange(1, tsuf.len() as int)
                                                =~= targets.subrange(
                                                t as int + 1,
                                                targets.len() as int,
                                            ));
                                        }
                                        let edge = Self::mk_edge3(
                                            id_text.as_str(),
                                            idn.access_nodes[t].as_str(),
                                        );
                                        proof {
                                            let prev = jview_list(edges@);
                                            Self::push_model(edges@, edge);
                                            assert(prev + (seq![jview(edge)] + access_edges(
                                                id_text@,
                                                targets.subrange(
                                                    t as int + 1,
                                                    targets.len() as int,
                                                ),
                                            )) =~= prev.push(jview(edge)) + access_edges(
                                                id_text@,
                                                targets.subrange(
                                                    t as int + 1,
                                                    targets.len() as int,
                                                ),
                                            ));
                                        }
                                        edges.push(edge);
                                        t = t + 1;
                                    }
                                    proof {
                                        assert(targets.subrange(
                                            targets.len() as int,
                                            targets.len() as int,
                                        ) =~= Seq::<Seq<char>>::empty());
                                        assert(jview_list(edges@) + Seq::<JModel>::empty()
                                            =~= jview_list(edges@));
                                    }
                                },
                                None => {
                                },
                            }
                        }
                    },
                    None => {
                    },
                }
            } else {
                match bytes_to_string(key.clone()) {
                    Some(ks) => {
                        match crate::codec::decode_atom(value.as_slice()) {
                            Some(a) => {
                                let mut label = String::from_str("Op:");
                                label.append(u16_to_dec(a.op_code).as_str());
                                let node = Self::mk_graph_node_label(
                                    ks.as_str(),
                                    label.as_str(),
                                    "logic",
                                );
                                proof {
                                    Self::push_model(nodes@, node);
                                }
                                nodes.push(node);
                                node_added = true;
                                let ghost sources = a@.inputs;
                                let mut t: usize = 0;
                                proof {
                                    assert(sources.subrange(0, sources.len() as int) =~= sources);
                                    assert(prev_edges + dep_edges(sources, ks@) =~= jview_list(
                                        edges@,
                                    ) + dep_edges(
                                        sources.subrange(0, sources.len() as int),
                                        ks@,
                                    ));
                                }
                                while t < a.inputs.len()
                                    invariant
                                        0 <= t <= sources.len(),
                                        sources.len() == a.inputs@.len(),
                                        prev_edges + dep_edges(sources, ks@) == jview_list(edges@)
                                            + dep_edges(
                                            sources.subrange(t as int, sources.len() as int),
                                            ks@,
                                        ),
                                    decreases sources.len() - t,
                                {
                                    let ghost tsuf = sources.subrange(
                                        t as int,
                                        sources.len() as int,
                                    );
                                    proof {
                                        assert(tsuf[0] == sources[t as int]);
                                        assert(sources[t as int] == a.inputs@[t as int]@);
                                        assert(tsuf.subrange(1, tsuf.len() as int)
                                            =~= sources.subrange(
                                            t as int + 1,
                                            sources.len() as int,
                                        ));
                                    }
                                    let edge = Self::mk_edge2(
                                        a.inputs[t].as_str(),
                                        ks.as_str(),
                                    );
                                    proof {
                                        let prev = jview_list(edges@);
                                        Self::push_model(edges@, edge);
                                        assert(prev + (seq![jview(edge)] + dep_edges(
                                            sources.subrange(
                                                t as int + 1,
                                                sources.len() as int,
                                            ),
                                            ks@,
                                        )) =~= prev.push(jview(edge)) + dep_edges(
                                            sources.subrange(
                                                t as int + 1,
                                                sources.len() as int,
                                            ),
                                            ks@,
                                        ));
                                    }
                                    edges.push(edge);
                                    t = t + 1;
                                }
                                proof {
                                    assert(sources.subrange(
                                        sources.len() as int,
                                        sources.len() as int,
                                    ) =~= Seq::<Seq<char>>::empty());
                                    assert(jview_list(edges@) + Seq::<JModel>::empty()
                                        =~= jview_list(edges@));
                                }
                            },
                            None => {
                            },
                        }
                    },
                    None => {
                    },
                }
            }
            proof {
                if !node_added {
                    assert(node_entry(gk, gv) =~= Seq::<JModel>::empty());
                    assert(edge_entry(gk, gv) =~= Seq::<JModel>::empty());
                    assert(Seq::<JModel>::empty() + graph_nodes(
                        pv.subrange(i as int + 1, pv.len() as int),
                    ) =~= graph_nodes(pv.subrange(i as int + 1, pv.len() as int)));
                    assert(Seq::<JModel>::empty() + graph_edges(
                        pv.subrange(i as int + 1, pv.len() as int),
                    ) =~= graph_edges(pv.subrange(i as int + 1, pv.len() as int)));
                }
            }
            i = i + 1;
        }
        proof {
            assert(pv.subrange(pv.len() as int, pv.len() as int)
                =~= Seq::<(Seq<u8>, Seq<u8>)>::empty());
            assert(jview_list(nodes@) + Seq::<JModel>::empty() =~= jview_list(nodes@));
            assert(jview_list(edges@) + Seq::<JModel>::empty() =~= jview_list(edges@));
        }
        let mut fields: Vec<(String, JsonValue)> = Vec::new();
        fields.push((String::from_str("nodes"), JsonValue::Array(nodes)));
        fields.push((String::from_str("edges"), JsonValue::Array(edges)));
        let doc = JsonValue::Object(fields);
        proof {
            lemma_jview_fields(doc->Object_0@);
            assert(jview_fields(doc->Object_0@) =~= seq![
                ("nodes"@, jview(doc->Object_0@[0].1)),
                ("edges"@, jview(doc->Object_0@[1].1)),
            ]);
            assert(jview(doc) == graph_doc(pv));
        }
        Ok(doc)
    }

    /// A graph node whose label is a tag joined with a name.
    fn mk_graph_node(id: &str, label_head: &str, label_tail: &str, kind: &str) -> (r: JsonValue)
        ensures
            jview(r) == JModel::Obj(
                seq![
                    (
                        "data"@,
                        JModel::Obj(
                            seq![
                                ("id"@, JModel::Str(id@)),
                                ("label"@, JModel::Str(label_head@ + label_tail@)),
                                ("type"@, JModel::Str(kind@)),
                            ],
                        ),
                    ),
                ],
            ),
    {
        let mut label = label_head.to_owned();
        label.append(label_tail);
        Self::mk_graph_node_label(id, label.as_str(), kind)
    }

    /// A graph node with a ready-made label.
    fn mk_graph_node_label(id: &str, label: &str, kind: &str) -> (r: JsonValue)
        ensures
            jview(r) == JModel::Obj(
                seq![
                    (
                        "data"@,
                        JModel::Obj(
                            seq![
                                ("id"@, JModel::Str(id@)),
                                ("label"@, JModel::Str(label@)),
                                ("type"@, JModel::Str(kind@)),
                            ],
                        ),
                    ),
                ],
            ),
    {
        let mut inner: Vec<(String, JsonValue)> = Vec::new();
        inner.push((String::from_str("id"), JsonValue::Str(id.to_owned())));
        inner.push((String::from_str("label"), JsonValue::Str(label.to_owned())));
        inner.push((String::from_str("type"), JsonValue::Str(kind.to_owned())));
        let data = JsonValue::Object(inner);
        proof {
            lemma_jview_fields(data->Object_0@);
            assert(jview_fields(data->Object_0@) =~= seq![
                ("id"@, JModel::Str(id@)),
                ("label"@, JModel::Str(label@)),
                ("type"@, JModel::Str(kind@)),
            ]);
        }
        let mut outer: Vec<(String, JsonValue)> = Vec::new();
        outer.push((String::from_str("data"), data));
        let obj = JsonValue::Object(outer);
        proof {
            lemma_jview_fields(obj->Object_0@);
            assert(jview_fields(obj->Object_0@) =~= seq![
                ("data"@, jview(obj->Object_0@[0].1)),
            ]);
        }
        obj
    }

    /// An access-grant edge document.
    fn mk_edge3(source: &str, target: &str) -> (r: JsonValue)
        ensures
            jview(r) == access_edge(source@, target@),
    {
        let mut inner: Vec<(String, JsonValue)> = Vec::new();
        inner.push((String::from_str("source"), JsonValue::Str(source.to_owned())));
        inner.push((String::from_str("target"), JsonValue::Str(target.to_owned())));
        inner.push((String::from_str("label"), JsonValue::Str(String::from_str("owns_access"))));
        let data = JsonValue::Object(inner);
        proof {
            lemma_jview_fields(data->Object_0@);
            assert(jview_fields(data->Object_0@) =~= seq![
                ("source"@, JModel::Str(source@)),
                ("target"@, JModel::Str(target@)),
                ("label"@, JModel::Str("owns_access"@)),
            ]);
        }
        let mut outer: Vec<(String, JsonValue)> = Vec::new();
        outer.push((String::from_str("data"), data));
        let obj = JsonValue::Object(outer);
        proof {
            lemma_jview_fields(obj->Object_0@);
            assert(jview_fields(obj->Object_0@) =~= seq![
                ("data"@, jview(obj->Object_0@[0].1)),
            ]);
        }
        obj
    }

    /// A dependency edge document.
    fn mk_edge2(source: &str, target: &str) -> (r: JsonValue)
        ensures
            jview(r) == dep_edge(source@, target@),
    {
        let mut inner: Vec<(String, JsonValue)> = Vec::new();
        inner.push((String::from_str("source"), JsonValue::Str(source.to_owned())));
        inner.push((String::from_str("target"), JsonValue::Str(target.to_owned())));
        let data = JsonValue::Object(inner);
        proof {
            lemma_jview_fields(data->Object_0@);
            assert(jview_fields(data->Object_0@) =~= seq![
                ("source"@, JModel::Str(source@)),
                ("target"@, JModel::Str(target@)),
            ]);
        }
        let mut outer: Vec<(String, JsonValue)> = Vec::new();
        outer.push((String::from_str("data"), data));
        let obj = JsonValue::Object(outer);
        proof {
            lemma_jview_fields(obj->Object_0@);
            assert(jview_fields(obj->Object_0@) =~= seq![
                ("data"@, jview(obj->Object_0@[0].1)),
            ]);
        }
        obj
    }

    /// Pushing a value extends the model list by its model.
    proof fn push_model(list: Seq<JsonValue>, v: JsonValue)
        ensures
            jview_list(list.push(v)) == jview_list(list).push(jview(v)),
    {
        lemma_jview_list(list);
        lemma_jview_list(list.push(v));
        assert forall|t: int| 0 <= t < list.len() + 1 implies #[trigger] jview_list(
            list.push(v),
        )[t] == jview_list(list).push(jview(v))[t] by {
            if t < list.len() {
                assert(list.push(v)[t] == list[t]);
            } else {
                assert(list.push(v)[t] == v);
            }
        }
        assert(jview_list(list.push(v)) =~= jview_list(list).push(jview(v)));
    }

    /// Exports the whole keyspace in a graph-description language for
    /// visualization tooling: one line per record, one line per dependency
    /// edge. Records whose keys are too short for their display form are
    /// left out rather than failing the export.
    #[verifier::loop_isolation(false)]
    #[verifier::rlimit(100)]
    pub fn export_graph_viz(&self) -> (r: Result<String, VaultError>)
        ensures
            match r {
                Ok(text) => exists|pairs: Seq<(Seq<u8>, Seq<u8>)>|
                    enumerates(pairs, self.store()) && text@ == #[trigger] viz_doc(pairs),
                Err(e) => e is Storage,
            },
    {
        let empty_prefix: Vec<u8> = Vec::new();
        let pairs = match kv_scan_prefix(&self.db, empty_prefix.as_slice()) {
            Ok(p) => p,
            Err(e) => {
                return Err(e);
            },
        };
        let ghost pv = Seq::new(pairs@.len(), |i: int| (pairs@[i].0@, pairs@[i].1@));
        proof {
            assert forall|k: Seq<u8>| self.store().contains_key(k) implies exists|i: int|
                0 <= i < pv.len() && (#[trigger] pv[i]).0 == k by {
                assert(k.subrange(0, 0) =~= Seq::<u8>::empty());
                assert(is_prefix_of(empty_prefix@, k));
                let w = choose|w: int|
                    0 <= w < pairs@.len() && (#[trigger] pairs@[w]).0@ == k;
                assert(pv[w].0 == k);
            }
            assert(enumerates(pv, self.store()));
            assert(pv.subrange(0, pv.len() as int) =~= pv);
        }
        let mut dot = String::from_str("digraph AetherLogic {\n");
        let ghost header = "digraph AetherLogic {\n"@;
        let mut i: usize = 0;
        proof {
            assert(header + viz_body(pv) =~= dot@ + viz_body(pv.subrange(0, pv.len() as int)));
        }
        while i < pairs.len()
            invariant
                0 <= i <= pv.len(),
                pv.len() == pairs@.len(),
                pv == Seq::new(pairs@.len(), |t: int| (pairs@[t].0@, pairs@[t].1@)),
                header + viz_body(pv) == dot@ + viz_body(pv.subrange(i as int, pv.len() as int)),
            decreases pv.len() - i,
        {
            let ghost suffix = pv.subrange(i as int, pv.len() as int);
            proof {
                assert(suffix[0] == pv[i as int]);
                assert(pv[i as int] == (pairs@[i as int].0@, pairs@[i as int].1@));
                assert(suffix.subrange(1, suffix.len() as int) =~= pv.subrange(
                    i as int + 1,
                    pv.len() as int,
                ));
            }
            let key = &pairs[i].0;
            let value = &pairs[i].1;
            let ghost gk = pv[i as int].0;
            let ghost gv = pv[i as int].1;
            let ghost before = dot@;
            let mut rendered = false;
            if starts_with_bytes(key.as_slice(), "ID:".as_bytes()) {
                match bytes_to_string(key.clone()) {
                    Some(ks) => {
                        if ks.unicode_len() >= 11 {
                            let short = ks.as_str().substring_char(3, 11);
                            dot.append("    \"");
                            dot.append(ks.as_str());
                            dot.append("\" [label=\"Identity\\n");
                            dot.append(short);
                            dot.append("\" shape=box];\n");
                            rendered = true;
                            proof {
                                assert(dot@ =~= before + viz_entry(gk, gv));
                            }
                        }
                    },
                    None => {
                    },
                }
            } else {
                match bytes_to_string(key.clone()) {
                    Some(ks) => {
                        if ks.unicode_len() >= 8 {
                            match crate::codec::decode_atom(value.as_slice()) {
                                Some(a) => {
                                    let short = ks.as_str().substring_char(0, 8);
                                    dot.append("    \"");
                                    dot.append(ks.as_str());
                                    dot.append("\" [label=\"Op:");
                                    dot.append(u16_to_dec(a.op_code).as_str());
                                    dot.append("\\n");
                                    dot.append(short);
                                    dot.append("\"];\n");
                                    let ghost head_done = dot@;
                                    let ghost sources = a@.inputs;
                                    let mut t: usize = 0;
                                    proof {
                                        assert(sources.subrange(0, sources.len() as int)
                                            =~= sources);
                                        assert(head_done + viz_edges(sources, ks@) =~= dot@
                                            + viz_edges(
                                            sources.subrange(0, sources.len() as int),
                                            ks@,
                                        ));
                                    }
                                    while t < a.inputs.len()
                                        invariant
                                            0 <= t <= sources.len(),
                                            sources.len() == a.inputs@.len(),
                                            head_done + viz_edges(sources, ks@) == dot@
                                                + viz_edges(
                                                sources.subrange(t as int, sources.len() as int),
                                                ks@,
                                            ),
                                        decreases sources.len() - t,
                                    {
                                        let ghost tsuf = sources.subrange(
                                            t as int,
                                            sources.len() as int,
                                        );
                                        let ghost ebefore = dot@;
                                        proof {
                                            assert(tsuf[0] == sources[t as int]);
                                            assert(sources[t as int] == a.inputs@[t as int]@);
                                            assert(tsuf.subrange(1, tsuf.len() as int)
                                                =~= sources.subrange(
                                                t as int + 1,
                                                sources.len() as int,
                                            ));
                                        }
                                        dot.append("    \"");
                                        dot.append(a.inputs[t].as_str());
                                        dot.append("\" -> \"");
                                        dot.append(ks.as_str());
                                        dot.append("\";\n");
                                        proof {
                                            assert(dot@ =~= ebefore + ("    \""@
                                                + sources[t as int] + "\" -> \""@ + ks@
                                                + "\";\n"@));
                                        }
                                        t = t + 1;
                                    }
                                    proof {
                                        assert(sources.subrange(
                                            sources.len() as int,
                                            sources.len() as int,
                                        ) =~= Seq::<Seq<char>>::empty());
                                        assert(dot@ =~= before + viz_entry(gk, gv));
                                    }
                                    rendered = true;
                                },
                                None => {
                                },
                            }
                        }
                    },
                    None => {
                    },
                }
            }
            proof {
                if !rendered {
                    assert(viz_entry(gk, gv) =~= Seq::<char>::empty());
                    assert(dot@ =~= before + viz_entry(gk, gv));
                }
                assert(dot@ + viz_body(pv.subrange(i as int + 1, pv.len() as int)) =~= (before
                    + viz_entry(gk, gv)) + viz_body(pv.subrange(i as int + 1, pv.len() as int)));
            }
            i = i + 1;
        }
        proof {
            assert(pv.subrange(pv.len() as int, pv.len() as int)
                =~= Seq::<(Seq<u8>, Seq<u8>)>::empty());
            assert(dot@ + Seq::<char>::empty() =~= dot@);
        }
        dot.append("}");
        proof {
            assert(dot@ =~= viz_doc(pv));
        }
        Ok(dot)
    }
}

/// An access node grants the resource: it names a stored permission atom
/// whose inputs include the resource hash.
pub open spec fn grants(store: Map<Seq<u8>, Seq<u8>>, access: Seq<char>, resource: Seq<char>) -> bool {
    let pk = atom_key(access);
    &&& store.contains_key(pk)
    &&& dec_atom(store[pk]) is Some
    &&& dec_atom(store[pk])->Some_0.op_code == OP_PERMISSION
    &&& dec_atom(store[pk])->Some_0.inputs.contains(resource)
}

/// A principal resonates with a resource: its identity record is stored and
/// one of its access nodes grants the resource.
pub open spec fn spec_resonance(
    store: Map<Seq<u8>, Seq<u8>>,
    user: Seq<char>,
    resource: Seq<char>,
) -> bool {
    let k = id_key(user);
    &&& store.contains_key(k)
    &&& dec_identity(store[k]) is Some
    &&& exists|i: int|
        0 <= i < dec_identity(store[k])->Some_0.access_nodes.len() && grants(
            store,
            #[trigger] dec_identity(store[k])->Some_0.access_nodes[i],
            resource,
        )
}


// ---------------------------------------------------------------------------
// Introspection: inventory and graph exports
// ---------------------------------------------------------------------------

/// The decimal form of a non-negative number.
pub open spec fn dec_digits(n: int) -> Seq<char>
    decreases n,
{
    if n < 10 {
        seq![digit_char(n)]
    } else {
        dec_digits(n / 10) + seq![digit_char(n % 10)]
    }
}

/// The character of one decimal digit.
pub open spec fn digit_char(d: int) -> char {
    if d == 0 {
        '0'
    } else if d == 1 {
        '1'
    } else if d == 2 {
        '2'
    } else if d == 3 {
        '3'
    } else if d == 4 {
        '4'
    } else if d == 5 {
        '5'
    } else if d == 6 {
        '6'
    } else if d == 7 {
        '7'
    } else if d == 8 {
        '8'
    } else {
        '9'
    }
}

/// A sequence of key/value pairs that enumerates the store: every pair is
/// stored, every stored pair occurs, and no key repeats.
pub open spec fn enumerates(
    pairs: Seq<(Seq<u8>, Seq<u8>)>,
    store: Map<Seq<u8>, Seq<u8>>,
) -> bool {
    &&& forall|i: int|
        0 <= i < pairs.len() ==> store.contains_key((#[trigger] pairs[i]).0) && pairs[i].1
            == store[pairs[i].0]
    &&& forall|k: Seq<u8>|
        store.contains_key(k) ==> exists|i: int| 0 <= i < pairs.len() && (#[trigger] pairs[i]).0
            == k
    &&& forall|i: int, j: int|
        0 <= i < pairs.len() && 0 <= j < pairs.len() && i != j ==> (#[trigger] pairs[i]).0 != (
        #[trigger] pairs[j]).0
}

/// A key in the identity namespace.
pub open spec fn is_id_key(k: Seq<u8>) -> bool {
    is_prefix_of(encode_utf8("ID:"@), k)
}

/// A key in the project namespace.
pub open spec fn is_proj_key(k: Seq<u8>) -> bool {
    is_prefix_of(encode_utf8("PROJ:"@), k)
}

/// The inventory entry of one stored pair: a summary for every readable
/// logic atom outside the identity and project namespaces, nothing for the
/// rest.
pub open spec fn inventory_entry(k: Seq<u8>, v: Seq<u8>) -> Seq<JModel> {
    if !is_id_key(k) && !is_proj_key(k) && valid_utf8(k) && dec_atom(v) is Some {
        seq![
            JModel::Obj(
                seq![
                    ("hash"@, JModel::Str(decode_utf8(k))),
                    ("op_code"@, JModel::Int(dec_atom(v)->Some_0.op_code as i64)),
                    ("context_id"@, JModel::Str(dec_atom(v)->Some_0.context_id)),
                ],
            ),
        ]
    } else {
        Seq::empty()
    }
}

/// The inventory of an enumeration, pair by pair.
pub open spec fn inventory_items(pairs: Seq<(Seq<u8>, Seq<u8>)>) -> Seq<JModel>
    decreases pairs,
{
    if pairs.len() == 0 {
        Seq::empty()
    } else {
        inventory_entry(pairs[0].0, pairs[0].1) + inventory_items(
            pairs.subrange(1, pairs.len() as int),
        )
    }
}

/// The graph nodes of one stored pair: an identity node for a readable
/// identity record, a logic node for a readable atom, nothing otherwise.
pub open spec fn node_entry(k: Seq<u8>, v: Seq<u8>) -> Seq<JModel> {
    if is_id_key(k) {
        if valid_utf8(k) && decode_utf8(k).len() >= 3 && dec_identity(v) is Some {
            seq![
                JModel::Obj(
                    seq![
                        (
                            "data"@,
                            JModel::Obj(
                                seq![
                                    ("id"@, JModel::Str(id_part(k))),
                                    (
                                        "label"@,
                                        JModel::Str("User:"@ + dec_identity(v)->Some_0.role),
                                    ),
                                    ("type"@, JModel::Str("identity"@)),
                                ],
                            ),
                        ),
                    ],
                ),
            ]
        } else {
            Seq::empty()
        }
    } else {
        if valid_utf8(k) && dec_atom(v) is Some {
            seq![
                JModel::Obj(
                    seq![
                        (
                            "data"@,
                            JModel::Obj(
                                seq![
                                    ("id"@, JModel::Str(decode_utf8(k))),
                                    (
                                        "label"@,
                                        JModel::Str(
                                            "Op:"@ + dec_digits(
                                                dec_atom(v)->Some_0.op_code as int,
                                            ),
                                        ),
                                    ),
                                    ("type"@, JModel::Str("logic"@)),
                                ],
                            ),
                        ),
                    ],
                ),
            ]
        } else {
            Seq::empty()
        }
    }
}

/// An identity key's display form: its characters after the namespace tag.
pub open spec fn id_part(k: Seq<u8>) -> Seq<char> {
    decode_utf8(k).subrange(3, decode_utf8(k).len() as int)
}

/// An access-grant edge.
pub open spec fn access_edge(source: Seq<char>, target: Seq<char>) -> JModel {
    JModel::Obj(
        seq![
            (
                "data"@,
                JModel::Obj(
                    seq![
                        ("source"@, JModel::Str(source)),
                        ("target"@, JModel::Str(target)),
                        ("label"@, JModel::Str("owns_access"@)),
                    ],
                ),
            ),
        ],
    )
}

/// A dependency edge.
pub open spec fn dep_edge(source: Seq<char>, target: Seq<char>) -> JModel {
    JModel::Obj(
        seq![
            (
                "data"@,
                JModel::Obj(
                    seq![("source"@, JModel::Str(source)), ("target"@, JModel::Str(target))],
                ),
            ),
        ],
    )
}

/// The access-grant edges of an identity, in access-list order.
pub open spec fn access_edges(source: Seq<char>, targets: Seq<Seq<char>>) -> Seq<JModel>
    decreases targets,
{
    if targets.len() == 0 {
        Seq::empty()
    } else {
        seq![access_edge(source, targets[0])] + access_edges(
            source,
            targets.subrange(1, targets.len() as int),
        )
    }
}

/// The dependency edges into an atom, in input order.
pub open spec fn dep_edges(sources: Seq<Seq<char>>, target: Seq<char>) -> Seq<JModel>
    decreases sources,
{
    if sources.len() == 0 {
        Seq::empty()
    } else {
        seq![dep_edge(sources[0], target)] + dep_edges(
            sources.subrange(1, sources.len() as int),
            target,
        )
    }
}

/// The graph edges of one stored pair.
pub open spec fn edge_entry(k: Seq<u8>, v: Seq<u8>) -> Seq<JModel> {
    if is_id_key(k) {
        if valid_utf8(k) && decode_utf8(k).len() >= 3 && dec_identity(v) is Some {
            access_edges(id_part(k), dec_identity(v)->Some_0.access_nodes)
        } else {
            Seq::empty()
        }
    } else {
        if valid_utf8(k) && dec_atom(v) is Some {
            dep_edges(dec_atom(v)->Some_0.inputs, decode_utf8(k))
        } else {
            Seq::empty()
        }
    }
}

pub open spec fn graph_nodes(pairs: Seq<(Seq<u8>, Seq<u8>)>) -> Seq<JModel>
    decreases pairs,
{
    if pairs.len() == 0 {
        Seq::empty()
    } else {
        node_entry(pairs[0].0, pairs[0].1) + graph_nodes(pairs.subrange(1, pairs.len() as int))
    }
}

pub open spec fn graph_edges(pairs: Seq<(Seq<u8>, Seq<u8>)>) -> Seq<JModel>
    decreases pairs,
{
    if pairs.len() == 0 {
        Seq::empty()
    } else {
        edge_entry(pairs[0].0, pairs[0].1) + graph_edges(pairs.subrange(1, pairs.len() as int))
    }
}

/// The whole export document of an enumeration.
pub open spec fn graph_doc(pairs: Seq<(Seq<u8>, Seq<u8>)>) -> JModel {
    JModel::Obj(
        seq![
            ("nodes"@, JModel::Arr(graph_nodes(pairs))),
            ("edges"@, JModel::Arr(graph_edges(pairs))),
        ],
    )
}

/// One pair's lines of the graph-description export.
pub open spec fn viz_entry(k: Seq<u8>, v: Seq<u8>) -> Seq<char> {
    if is_id_key(k) {
        if valid_utf8(k) && decode_utf8(k).len() >= 11 {
            "    \""@ + decode_utf8(k) + "\" [label=\"Identity\\n"@ + decode_utf8(k).subrange(
                3,
                11,
            ) + "\" shape=box];\n"@
        } else {
            Seq::empty()
        }
    } else {
        if valid_utf8(k) && decode_utf8(k).len() >= 8 && dec_atom(v) is Some {
            "    \""@ + decode_utf8(k) + "\" [label=\"Op:"@ + dec_digits(
                dec_atom(v)->Some_0.op_code as int,
            ) + "\\n"@ + decode_utf8(k).subrange(0, 8) + "\"];\n"@ + viz_edges(
                dec_atom(v)->Some_0.inputs,
                decode_utf8(k),
            )
        } else {
            Seq::empty()
        }
    }
}

/// The edge lines into an atom, in input order.
pub open spec fn viz_edges(sources: Seq<Seq<char>>, target: Seq<char>) -> Seq<char>
    decreases sources,
{
    if sources.len() == 0 {
        Seq::empty()
    } else {
        "    \""@ + sources[0] + "\" -> \""@ + target + "\";\n"@ + viz_edges(
            sources.subrange(1, sources.len() as int),
            target,
        )
    }
}

pub open spec fn viz_body(pairs: Seq<(Seq<u8>, Seq<u8>)>) -> Seq<char>
    decreases pairs,
{
    if pairs.len() == 0 {
        Seq::empty()
    } else {
        viz_entry(pairs[0].0, pairs[0].1) + viz_body(pairs.subrange(1, pairs.len() as int))
    }
}

/// The whole graph-description export of an enumeration.
pub open spec fn viz_doc(pairs: Seq<(Seq<u8>, Seq<u8>)>) -> Seq<char> {
    "digraph AetherLogic {\n"@ + viz_body(pairs) + "}"@
}

/// Whether `k` starts with `prefix`.
fn starts_with_bytes(k: &[u8], prefix: &[u8]) -> (r: bool)
    ensures
        r == is_prefix_of(prefix@, k@),
{
    if prefix.len() > k.len() {
        proof {
            assert(!is_prefix_of(prefix@, k@));
        }
        return false;
    }
    let mut i: usize = 0;
    while i < prefix.len()
        invariant
            0 <= i <= prefix@.len(),
            prefix@.len() <= k@.len(),
            forall|j: int| 0 <= j < i ==> prefix@[j] == k@[j],
        decreases prefix@.len() - i,
    {
        if *vstd::slice::slice_index_get(k, i) != *vstd::slice::slice_index_get(prefix, i) {
            proof {
                assert(k@.subrange(0, prefix@.len() as int)[i as int] == k@[i as int]);
            }
            return false;
        }
        i = i + 1;
    }
    proof {
        assert(k@.subrange(0, prefix@.len() as int) =~= prefix@);
    }
    true
}

/// The text of one decimal digit.
fn digit_str(d: u16) -> (r: &'static str)
    requires
        d < 10,
    ensures
        r@ == seq![digit_char(d as int)],
{
    proof {
        reveal_strlit("0");
        reveal_strlit("1");
        reveal_strlit("2");
        reveal_strlit("3");
        reveal_strlit("4");
        reveal_strlit("5");
        reveal_strlit("6");
        reveal_strlit("7");
        reveal_strlit("8");
        reveal_strlit("9");
    }
    if d == 0 {
        "0"
    } else if d == 1 {
        "1"
    } else if d == 2 {
        "2"
    } else if d == 3 {
        "3"
    } else if d == 4 {
        "4"
    } else if d == 5 {
        "5"
    } else if d == 6 {
        "6"
    } else if d == 7 {
        "7"
    } else if d == 8 {
        "8"
    } else {
        "9"
    }
}

/// The decimal text of an operation code.
fn u16_to_dec(n: u16) -> (r: String)
    ensures
        r@ == dec_digits(n as int),
    decreases n,
{
    if n < 10 {
        digit_str(n).to_owned()
    } else {
        let mut s = u16_to_dec(n / 10);
        s.append(digit_str(n % 10));
        s
    }
}


/// A sequence of key/value pairs that enumerates the keys under a prefix:
/// every pair is stored with the prefix, every such stored key occurs, no
/// key repeats.
pub open spec fn enumerates_prefix(
    pairs: Seq<(Seq<u8>, Seq<u8>)>,
    store: Map<Seq<u8>, Seq<u8>>,
    prefix: Seq<u8>,
) -> bool {
    &&& forall|i: int|
        0 <= i < pairs.len() ==> store.contains_key((#[trigger] pairs[i]).0) && pairs[i].1
            == store[pairs[i].0] && is_prefix_of(prefix, pairs[i].0)
    &&& forall|k: Seq<u8>|
        store.contains_key(k) && is_prefix_of(prefix, k) ==> exists|i: int|
            0 <= i < pairs.len() && (#[trigger] pairs[i]).0 == k
    &&& forall|i: int, j: int|
        0 <= i < pairs.len() && 0 <= j < pairs.len() && i != j ==> (#[trigger] pairs[i]).0 != (
        #[trigger] pairs[j]).0
}

/// The readable project records of an enumeration, pair by pair.
pub open spec fn project_items(pairs: Seq<(Seq<u8>, Seq<u8>)>) -> Seq<ProjectModel>
    decreases pairs,
{
    if pairs.len() == 0 {
        Seq::empty()
    } else {
        (match dec_project(pairs[0].1) {
            Option::Some(p) => seq![p],
            Option::None => Seq::empty(),
        }) + project_items(pairs.subrange(1, pairs.len() as int))
    }
}

/// The first `i` digests of a level, combined pairwise.

pub open spec fn merkle_level_prefix(level: Seq<Seq<char>>, i: int) -> Seq<Seq<char>> {
    merkle_level(level.subrange(0, i))
}

pub proof fn lemma_insert_atoms_snoc(
    store: Map<Seq<u8>, Seq<u8>>,
    atoms: Seq<AtomModel>,
    last: AtomModel,
)
    ensures
        insert_atoms(store, atoms.push(last)) == insert_atoms(store, atoms).insert(
            atom_key(atom_hash(last)),
            enc_atom(last),
        ),
    decreases atoms,
{
    if atoms.len() == 0 {
        assert(atoms.push(last)[0] == last);
        assert(atoms.push(last).subrange(1, 1) =~= Seq::<AtomModel>::empty());
        assert(insert_atoms(store, atoms.push(last)) == insert_atoms(
            store.insert(atom_key(atom_hash(last)), enc_atom(last)),
            Seq::<AtomModel>::empty(),
        ));
        assert(insert_atoms(store, atoms) == store);
    } else {
        let rest = atoms.subrange(1, atoms.len() as int);
        lemma_insert_atoms_snoc(
            store.insert(atom_key(atom_hash(atoms[0])), enc_atom(atoms[0])),
            rest,
            last,
        );
        assert(atoms.push(last)[0] == atoms[0]);
        assert(atoms.push(last).subrange(1, atoms.push(last).len() as int) =~= rest.push(last));
    }
}

pub proof fn lemma_merkle_level_prefix_step(level: Seq<Seq<char>>, j: int)
    requires
        0 <= j,
        j + 1 <= level.len(),
        j % 2 == 0,
    ensures
        (if j + 2 <= level.len() {
            merkle_level_prefix(level, j + 2) == merkle_level_prefix(level, j).push(
                merkle_parent(level[j], level[j + 1]),
            )
        } else {
            merkle_level_prefix(level, j + 1) == merkle_level_prefix(level, j).push(
                merkle_parent(level[j], level[j]),
            )
        }),
    decreases j,
{
    if j == 0 {
        assert(level.subrange(0, 0) =~= Seq::<Seq<char>>::empty());
        if j + 2 <= level.len() {
            let sub = level.subrange(0, 2);
            assert(sub[0] == level[0]);
            assert(sub[1] == level[1]);
            assert(sub.subrange(2, 2) =~= Seq::<Seq<char>>::empty());
            assert(merkle_level(sub) =~= merkle_level_prefix(level, 0).push(
                merkle_parent(level[0], level[1]),
            ));
        } else {
            let sub = level.subrange(0, 1);
            assert(sub[0] == level[0]);
            assert(merkle_level(sub) =~= merkle_level_prefix(level, 0).push(
                merkle_parent(level[0], level[0]),
            ));
        }
    } else {
        let tail = level.subrange(2, level.len() as int);
        lemma_merkle_level_prefix_step(tail, j - 2);
        if j + 2 <= level.len() {
            assert(level.subrange(0, j + 2).subrange(2, j + 2) =~= tail.subrange(0, j));
            assert(level.subrange(0, j).subrange(2, j) =~= tail.subrange(0, j - 2));
            assert(level.subrange(0, j + 2)[0] == level[0]);
            assert(level.subrange(0, j + 2)[1] == level[1]);
            assert(level.subrange(0, j)[0] == level[0]);
            assert(level.subrange(0, j)[1] == level[1]);
            assert(tail[j - 2] == level[j]);
            assert(tail[j - 1] == level[j + 1]);
            assert(merkle_level(level.subrange(0, j + 2)) =~= merkle_level(
                level.subrange(0, j),
            ).push(merkle_parent(level[j], level[j + 1])));
        } else {
            assert(level.subrange(0, j + 1).subrange(2, j + 1) =~= tail.subrange(0, j - 1));
            assert(level.subrange(0, j).subrange(2, j) =~= tail.subrange(0, j - 2));
            assert(level.subrange(0, j + 1)[0] == level[0]);
            assert(level.subrange(0, j + 1)[1] == level[1]);
            assert(level.subrange(0, j)[0] == level[0]);
            assert(level.subrange(0, j)[1] == level[1]);
            assert(tail[j - 2] == level[j]);
            assert(merkle_level(level.subrange(0, j + 1)) =~= merkle_level(
                level.subrange(0, j),
            ).push(merkle_parent(level[j], level[j])));
        }
    }
}

pub proof fn lemma_merkle_level_prefix_full(level: Seq<Seq<char>>)
    ensures
        merkle_level_prefix(level, level.len() as int) == merkle_level(level),
{
    assert(level.subrange(0, level.len() as int) =~= level);
}

} // verus!
