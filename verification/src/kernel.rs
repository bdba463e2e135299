//! The graph evaluator: recursive dispatch over operation codes against a
//! store of atoms, their payloads, and pre-fetched external responses.

use vstd::prelude::*;
use vstd::string::*;
use vstd::utf8::{valid_utf8, decode_utf8};
use crate::{LogicAtom, AtomModel, VaultError};
use crate::blob::BlobStore;
use crate::codec::{dec_atom, dec_contract, dec_json_doc, decode_contract, decode_json_doc, bytes_to_string};
use crate::guard::has_substring;
use crate::json::{
    JModel, JsonValue, jview, jview_list, jview_fields, lemma_jview_list, lemma_jview_fields,
    jfield, j_as_int, j_as_str, json_clone, json_field, str_eq,
};
use crate::vault::{AetherVault, atom_key};

verus! {

/// How deep an evaluation may recurse before it is abandoned.
pub const EVAL_DEPTH: usize = 1024;

/// A failure during evaluation, beneath the store layer.
#[derive(Debug, Clone, PartialEq)]
pub enum RuntimeError {
    /// The atom's payload could not be resolved from the blob store.
    BlobLoad,
    /// The payload did not decode to what the operation expects.
    PayloadDecode,
    /// The payload is shorter than the operation requires.
    PayloadTooShort,
    /// The sum does not fit the operation's 32-bit result.
    Overflow,
    /// The dependency graph is deeper than [`EVAL_DEPTH`].
    DepthExceeded,
    /// No response was supplied for this endpoint.
    MissingIo(String),
    /// The external response disagrees with the declared schema.
    SchemaViolation,
}

/// Errors of the evaluator.
#[derive(Debug, Clone, PartialEq)]
pub enum KernelError {
    /// The store failed or did not hold a requested atom.
    Vault(VaultError),
    Runtime(RuntimeError),
    /// The operation code is not executable in this context.
    InvalidOpCode(u16),
}

/// Pre-fetched external responses, keyed by endpoint. The evaluator never
/// performs network I/O itself: whoever drives it fetches first and hands
/// the responses in.
#[derive(Debug)]
pub struct IoTable {
    entries: Vec<(String, JsonValue)>,
}

/// The map a response list denotes.
pub open spec fn io_map(entries: Seq<(String, JsonValue)>) -> Map<Seq<char>, JModel>
    decreases entries,
{
    if entries.len() == 0 {
        Map::empty()
    } else {
        io_map(entries.drop_last()).insert(entries.last().0@, jview(entries.last().1))
    }
}

/// Endpoints are unique across entries.
pub open spec fn io_entries_wf(entries: Seq<(String, JsonValue)>) -> bool {
    forall|i: int, j: int|
        0 <= i < entries.len() && 0 <= j < entries.len() && i != j ==> (#[trigger] entries[i]).0@
            != (#[trigger] entries[j]).0@
}

proof fn lemma_io_map(entries: Seq<(String, JsonValue)>)
    requires
        io_entries_wf(entries),
    ensures
        forall|i: int|
            0 <= i < entries.len() ==> {
                &&& io_map(entries).contains_key((#[trigger] entries[i]).0@)
                &&& io_map(entries)[entries[i].0@] == jview(entries[i].1)
            },
        forall|k: Seq<char>|
            io_map(entries).contains_key(k) ==> exists|i: int|
                0 <= i < entries.len() && (#[trigger] entries[i]).0@ == k,
    decreases entries,
{
    if entries.len() > 0 {
        let prefix = entries.drop_last();
        assert(io_entries_wf(prefix)) by {
            assert(forall|i: int| 0 <= i < prefix.len() ==> prefix[i] == entries[i]);
        }
        lemma_io_map(prefix);
        assert forall|k: Seq<char>| io_map(entries).contains_key(k) implies exists|i: int|
            0 <= i < entries.len() && (#[trigger] entries[i]).0@ == k by {
            if k == entries.last().0@ {
                assert(entries[entries.len() - 1].0@ == k);
            } else {
                assert(io_map(prefix).contains_key(k));
                let w = choose|w: int| 0 <= w < prefix.len() && (#[trigger] prefix[w]).0@ == k;
                assert(prefix[w] == entries[w]);
                assert(entries[w].0@ == k);
            }
        }
        assert forall|i: int| 0 <= i < entries.len() implies {
            &&& io_map(entries).contains_key((#[trigger] entries[i]).0@)
            &&& io_map(entries)[entries[i].0@] == jview(entries[i].1)
        } by {
            if i < entries.len() - 1 {
                assert(prefix[i] == entries[i]);
                assert(entries[i].0@ != entries.last().0@);
            }
        }
    }
}

impl IoTable {
    /// What the table holds: each endpoint mapped to its response.
    pub closed spec fn view_map(&self) -> Map<Seq<char>, JModel> {
        io_map(self.entries@)
    }

    /// Endpoints are unique.
    pub closed spec fn wf(&self) -> bool {
        io_entries_wf(self.entries@)
    }

    /// An empty table.
    pub fn new() -> (r: IoTable)
        ensures
            r.wf(),
            r.view_map() == Map::<Seq<char>, JModel>::empty(),
    {
        IoTable { entries: Vec::new() }
    }

    /// Records the response for an endpoint not yet in the table.
    #[verifier::loop_isolation(false)]
    pub fn set(&mut self, endpoint: &str, response: JsonValue)
        requires
            old(self).wf(),
            !old(self).view_map().contains_key(endpoint@),
        ensures
            final(self).wf(),
            final(self).view_map() == old(self).view_map().insert(endpoint@, jview(response)),
    {
        proof {
            lemma_io_map(self.entries@);
            assert forall|j: int| 0 <= j < self.entries@.len() implies (
            #[trigger] self.entries@[j]).0@ != endpoint@ by {
                assert(io_map(self.entries@).contains_key(self.entries@[j].0@));
            }
        }
        let ghost prev = self.entries@;
        self.entries.push((endpoint.to_owned(), response));
        proof {
            assert(self.entries@.drop_last() =~= prev);
        }
    }

    /// Returns the response recorded for an endpoint, if any.
    #[verifier::loop_isolation(false)]
    pub fn get(&self, endpoint: &str) -> (r: Option<&JsonValue>)
        requires
            self.wf(),
        ensures
            match r {
                Some(v) => self.view_map().contains_key(endpoint@) && jview(*v)
                    == self.view_map()[endpoint@],
                None => !self.view_map().contains_key(endpoint@),
            },
    {
        let key = endpoint.to_owned();
        let n = self.entries.len();
        let mut i: usize = 0;
        proof {
            lemma_io_map(self.entries@);
        }
        while i < n
            invariant
                0 <= i <= n,
                n == self.entries@.len(),
                forall|j: int| 0 <= j < i ==> (#[trigger] self.entries@[j]).0@ != key@,
            decreases n - i,
        {
            if self.entries[i].0 == key {
                return Some(&self.entries[i].1);
            }
            i = i + 1;
        }
        proof {
            if self.view_map().contains_key(endpoint@) {
                let w = choose|w: int|
                    0 <= w < self.entries@.len() && (#[trigger] self.entries@[w]).0@ == endpoint@;
                assert(false);
            }
        }
        None
    }
}


/// The ghost shape of an evaluation failure.
pub ghost enum EvalErr {
    NotFound,
    BlobLoad,
    PayloadDecode,
    PayloadTooShort,
    Overflow,
    DepthExceeded,
    MissingIo(Seq<char>),
    SchemaViolation,
    InvalidOp(u16),
}

/// The shape of a concrete evaluator error. Store-layer failures other than
/// absence never correspond to an evaluation verdict.
pub open spec fn eview(e: KernelError) -> EvalErr {
    match e {
        KernelError::Vault(_) => EvalErr::NotFound,
        KernelError::Runtime(r) => match r {
            RuntimeError::BlobLoad => EvalErr::BlobLoad,
            RuntimeError::PayloadDecode => EvalErr::PayloadDecode,
            RuntimeError::PayloadTooShort => EvalErr::PayloadTooShort,
            RuntimeError::Overflow => EvalErr::Overflow,
            RuntimeError::DepthExceeded => EvalErr::DepthExceeded,
            RuntimeError::MissingIo(ep) => EvalErr::MissingIo(ep@),
            RuntimeError::SchemaViolation => EvalErr::SchemaViolation,
        },
        KernelError::InvalidOpCode(op) => EvalErr::InvalidOp(op),
    }
}

/// A signed 32-bit integer read little-endian at `pos`.
pub open spec fn spec_i32_at(data: Seq<u8>, pos: int) -> i32 {
    vstd::bytes::spec_u32_from_le_bytes(data.subrange(pos, pos + 4)) as i32
}

/// The scalar verdict on an already-resolved payload: only the
/// scalar-arithmetic operation is executable here; any other operation code
/// is an invalid-operation error.
pub open spec fn scalar_spec(op_code: u16, data: Seq<u8>) -> Result<i32, EvalErr> {
    if op_code == 1 {
        if data.len() < 8 {
            Err(EvalErr::PayloadTooShort)
        } else {
            let sum = spec_i32_at(data, 0) + spec_i32_at(data, 4);
            if sum < -0x8000_0000 || sum > 0x7fff_ffff {
                Err(EvalErr::Overflow)
            } else {
                Ok(sum as i32)
            }
        }
    } else {
        Err(EvalErr::InvalidOp(op_code))
    }
}

/// The verdict of the legacy scalar path.
pub open spec fn exec_spec(
    store: Map<Seq<u8>, Seq<u8>>,
    blobs: Map<Seq<char>, Seq<u8>>,
    hash: Seq<char>,
) -> Result<i32, EvalErr> {
    let key = atom_key(hash);
    if !store.contains_key(key) || dec_atom(store[key]) is None {
        Err(EvalErr::NotFound)
    } else {
        let a = dec_atom(store[key])->Some_0;
        if a.op_code == 1 && !blobs.contains_key(a.storage_ref) {
            Err(EvalErr::BlobLoad)
        } else if a.op_code == 1 {
            scalar_spec(a.op_code, blobs[a.storage_ref])
        } else {
            scalar_spec(a.op_code, Seq::empty())
        }
    }
}

/// Whether one element passes the filter. Numeric comparison for `>`/`<`,
/// string (in)equality for `==`/`!=`, substring tests for `contains`/
/// `not_contains`; an unknown operator passes everything through.
pub open spec fn filter_pred(
    item: JModel,
    field: Seq<char>,
    op: Seq<char>,
    vi: Option<i64>,
    vs: Option<Seq<char>>,
) -> bool {
    let fv = jfield(item, field);
    if op == ">"@ {
        int_or_zero(j_as_int(fv)) > int_or_zero(vi)
    } else if op == "<"@ {
        int_or_zero(j_as_int(fv)) < int_or_zero(vi)
    } else if op == "=="@ {
        str_or_empty(j_as_str(fv)) == str_or_empty(vs)
    } else if op == "!="@ {
        str_or_empty(j_as_str(fv)) != str_or_empty(vs)
    } else if op == "contains"@ {
        has_substring(str_or_empty(j_as_str(fv)), str_or_empty(vs))
    } else if op == "not_contains"@ {
        !has_substring(str_or_empty(j_as_str(fv)), str_or_empty(vs))
    } else {
        true
    }
}

pub open spec fn int_or_zero(o: Option<i64>) -> i64 {
    match o {
        Option::Some(x) => x,
        Option::None => 0,
    }
}

pub open spec fn str_or_empty(o: Option<Seq<char>>) -> Seq<char> {
    match o {
        Option::Some(s) => s,
        Option::None => Seq::empty(),
    }
}

/// The elements that pass the filter, in order.
pub open spec fn filter_models(
    items: Seq<JModel>,
    field: Seq<char>,
    op: Seq<char>,
    vi: Option<i64>,
    vs: Option<Seq<char>>,
) -> Seq<JModel>
    decreases items,
{
    if items.len() == 0 {
        Seq::empty()
    } else {
        (if filter_pred(items[0], field, op, vi, vs) {
            seq![items[0]]
        } else {
            Seq::empty()
        }) + filter_models(items.subrange(1, items.len() as int), field, op, vi, vs)
    }
}

/// All array-valued results concatenated in input order; other results are
/// skipped.
pub open spec fn merge_models(rs: Seq<JModel>) -> Seq<JModel>
    decreases rs,
{
    if rs.len() == 0 {
        Seq::empty()
    } else {
        (match rs[0] {
            JModel::Arr(items) => items,
            _ => Seq::empty(),
        }) + merge_models(rs.subrange(1, rs.len() as int))
    }
}

/// Shallow schema check: when the schema object declares a known `type`, the
/// value must have that shape; anything else passes.
pub open spec fn schema_accepts(schema: JModel, v: JModel) -> bool {
    match j_as_str(jfield(schema, "type"@)) {
        Option::Some(t) => {
            if t == "array"@ {
                v is Arr
            } else if t == "object"@ {
                v is Obj
            } else if t == "string"@ {
                v is Str
            } else if t == "number"@ {
                v is Int
            } else if t == "boolean"@ {
                v is Bool
            } else if t == "null"@ {
                v is Null
            } else {
                true
            }
        },
        Option::None => true,
    }
}

/// The external-I/O step of an atom: decode the contract from the payload,
/// look the endpoint's pre-fetched response up, and accept it only if it
/// matches the declared schema.
pub open spec fn io_eval(
    blobs: Map<Seq<char>, Seq<u8>>,
    io: Map<Seq<char>, JModel>,
    a: AtomModel,
) -> Result<JModel, EvalErr> {
    if !blobs.contains_key(a.storage_ref) {
        Err(EvalErr::BlobLoad)
    } else {
        match dec_contract(blobs[a.storage_ref]) {
            Option::None => Err(EvalErr::PayloadDecode),
            Option::Some(c) => {
                if !io.contains_key(c.endpoint) {
                    Err(EvalErr::MissingIo(c.endpoint))
                } else if !schema_accepts(c.schema, io[c.endpoint]) {
                    Err(EvalErr::SchemaViolation)
                } else {
                    Ok(io[c.endpoint])
                }
            },
        }
    }
}

/// The verdicts of a list of evaluations, in order; the first failure
/// decides.
pub open spec fn eval_inputs(
    store: Map<Seq<u8>, Seq<u8>>,
    blobs: Map<Seq<char>, Seq<u8>>,
    io: Map<Seq<char>, JModel>,
    fuel: nat,
    inputs: Seq<Seq<char>>,
) -> Result<Seq<JModel>, EvalErr>
    decreases fuel, 1int, inputs.len(),
{
    if inputs.len() == 0 {
        Ok(Seq::empty())
    } else {
        match eval(store, blobs, io, fuel, inputs[0]) {
            Err(e) => Err(e),
            Ok(v) => {
                match eval_inputs(store, blobs, io, fuel, inputs.subrange(1, inputs.len() as int)) {
                    Err(e) => Err(e),
                    Ok(rest) => Ok(seq![v] + rest),
                }
            },
        }
    }
}

/// The verdict of evaluating the graph rooted at `hash`: fetch the atom,
/// evaluate all of its inputs (a failure in any input aborts), then dispatch
/// on its operation code.
pub open spec fn eval(
    store: Map<Seq<u8>, Seq<u8>>,
    blobs: Map<Seq<char>, Seq<u8>>,
    io: Map<Seq<char>, JModel>,
    fuel: nat,
    hash: Seq<char>,
) -> Result<JModel, EvalErr>
    decreases fuel, 0int, 0int,
{
    if fuel == 0 {
        Err(EvalErr::DepthExceeded)
    } else {
        let key = atom_key(hash);
        if !store.contains_key(key) || dec_atom(store[key]) is None {
            Err(EvalErr::NotFound)
        } else {
            let a = dec_atom(store[key])->Some_0;
            match eval_inputs(store, blobs, io, (fuel - 1) as nat, a.inputs) {
                Err(e) => Err(e),
                Ok(rs) => eval_op(store, blobs, io, hash, a, rs),
            }
        }
    }
}

/// Dispatch on the operation code, after every input has been evaluated.
/// The synthesis-required operation reads its payload as UTF-8 text; a
/// payload that is not valid UTF-8 is a decode failure rather than being
/// decoded lossily.
pub open spec fn eval_op(
    store: Map<Seq<u8>, Seq<u8>>,
    blobs: Map<Seq<char>, Seq<u8>>,
    io: Map<Seq<char>, JModel>,
    hash: Seq<char>,
    a: AtomModel,
    rs: Seq<JModel>,
) -> Result<JModel, EvalErr> {
    if a.op_code == 1 {
        Ok(JModel::Int(0))
    } else if a.op_code == 2 {
        if rs.len() > 0 && rs[0] is Arr {
            if !blobs.contains_key(a.storage_ref) {
                Err(EvalErr::BlobLoad)
            } else {
                match dec_json_doc(blobs[a.storage_ref]) {
                    Option::None => Err(EvalErr::PayloadDecode),
                    Option::Some(cfg) => Ok(
                        JModel::Arr(
                            filter_models(
                                rs[0]->Arr_0,
                                str_or_empty(j_as_str(jfield(cfg, "field"@))),
                                str_or_empty(j_as_str(jfield(cfg, "op"@))),
                                j_as_int(jfield(cfg, "val"@)),
                                j_as_str(jfield(cfg, "val"@)),
                            ),
                        ),
                    ),
                }
            }
        } else {
            Ok(JModel::Arr(Seq::empty()))
        }
    } else if a.op_code == 3 {
        Ok(JModel::Arr(merge_models(rs)))
    } else if a.op_code == 50 {
        if !blobs.contains_key(a.storage_ref) {
            Err(EvalErr::BlobLoad)
        } else {
            match dec_json_doc(blobs[a.storage_ref]) {
                Option::None => Err(EvalErr::PayloadDecode),
                Option::Some(cfg) => Ok(cfg),
            }
        }
    } else if a.op_code == 100 {
        if rs.len() > 0 {
            Ok(rs[0])
        } else {
            Ok(JModel::Obj(seq![("status"@, JModel::Str("Audited"@))]))
        }
    } else if a.op_code == 500 {
        io_eval(blobs, io, a)
    } else if a.op_code == 600 {
        if !blobs.contains_key(a.storage_ref) {
            Err(EvalErr::BlobLoad)
        } else if !valid_utf8(blobs[a.storage_ref]) {
            Err(EvalErr::PayloadDecode)
        } else {
            Ok(
                JModel::Obj(
                    seq![
                        ("status"@, JModel::Str("SYNTHESIS_PENDING"@)),
                        ("intent"@, JModel::Str(decode_utf8(blobs[a.storage_ref]))),
                        ("hash"@, JModel::Str(hash)),
                        ("type"@, JModel::Str("Logic Gap"@)),
                    ],
                ),
            )
        }
    } else if a.op_code == 800 {
        if rs.len() > 0 {
            Ok(
                JModel::Obj(
                    seq![
                        ("origin"@, JModel::Str("0xSOVEREIGN_ROOT"@)),
                        ("payload"@, rs[0]),
                        ("masked_fields"@, JModel::Arr(seq![JModel::Str("private_logic_trace"@)])),
                    ],
                ),
            )
        } else {
            Ok(JModel::Obj(seq![("error"@, JModel::Str("Gateway has no input resonance"@))]))
        }
    } else {
        Ok(JModel::Null)
    }
}


/// The view of an optional string.
pub open spec fn ostr_view(o: Option<String>) -> Option<Seq<char>> {
    match o {
        Option::Some(s) => Some(s@),
        Option::None => None,
    }
}

/// The verdict of the dedicated external-I/O entry point.
pub open spec fn io_spec(
    store: Map<Seq<u8>, Seq<u8>>,
    blobs: Map<Seq<char>, Seq<u8>>,
    io: Map<Seq<char>, JModel>,
    hash: Seq<char>,
) -> Result<JModel, EvalErr> {
    let key = atom_key(hash);
    if !store.contains_key(key) || dec_atom(store[key]) is None {
        Err(EvalErr::NotFound)
    } else {
        let a = dec_atom(store[key])->Some_0;
        if a.op_code == 500 {
            io_eval(blobs, io, a)
        } else {
            Err(EvalErr::InvalidOp(a.op_code))
        }
    }
}

/// A signed 32-bit little-endian read at `pos`.
pub fn i32_from_le(data: &Vec<u8>, pos: usize) -> (r: i32)
    requires
        pos + 4 <= data@.len(),
    ensures
        r == spec_i32_at(data@, pos as int),
{
    let n = data.len();
    let sub = vstd::slice::slice_subrange(data.as_slice(), pos, pos + 4);
    let x = vstd::bytes::u32_from_le_bytes(sub);
    #[verifier::truncate] (x as i32)
}

/// The graph evaluator.
#[derive(Debug)]
pub struct AetherKernel {
    pub vault: AetherVault,
}

impl AetherKernel {
    pub fn new(vault: AetherVault) -> (r: Self)
        ensures
            r.vault == vault,
    {
        Self { vault }
    }

    /// Resolves an atom's payload from the blob store.
    fn resolve_data(&self, atom: &LogicAtom, blobs: &BlobStore) -> (r: Result<
        Vec<u8>,
        KernelError,
    >)
        requires
            blobs.wf(),
        ensures
            match r {
                Ok(d) => blobs.view_map().contains_key(atom.storage_ref@) && d@
                    == blobs.view_map()[atom.storage_ref@],
                Err(e) => e == KernelError::Runtime(RuntimeError::BlobLoad) && !blobs.view_map(
                ).contains_key(atom.storage_ref@),
            },
    {
        match blobs.read_blob(atom.storage_ref.as_str()) {
            Some(d) => Ok(d),
            None => Err(KernelError::Runtime(RuntimeError::BlobLoad)),
        }
    }

    /// The legacy scalar path: fetches one atom, which must carry the
    /// scalar-arithmetic operation, reads two little-endian 32-bit signed
    /// integers from its payload and returns their sum. A sum outside the
    /// 32-bit range is an overflow error rather than a wrapped value, and
    /// any other operation code is an invalid-operation error.
    pub fn execute(&self, hash: &str, blobs: &BlobStore) -> (r: Result<i32, KernelError>)
        requires
            blobs.wf(),
        ensures
            match r {
                Ok(v) => exec_spec(self.vault.store(), blobs.view_map(), hash@) == Ok::<
                    i32,
                    EvalErr,
                >(v),
                Err(e) => (e matches KernelError::Vault(ve) && ve is Storage) || exec_spec(
                    self.vault.store(),
                    blobs.view_map(),
                    hash@,
                ) == Err::<i32, EvalErr>(eview(e)),
            },
    {
        let (atom, data) = match self.fetch_and_resolve(hash, blobs) {
            Ok(pair) => pair,
            Err(e) => {
                return Err(e);
            },
        };
        Self::scalar_step(atom.op_code, &data)
    }

    /// The fetch-and-validate half of the legacy path: the atom and, for the
    /// scalar-arithmetic operation, its resolved payload.
    fn fetch_and_resolve(&self, hash: &str, blobs: &BlobStore) -> (r: Result<
        (LogicAtom, Vec<u8>),
        KernelError,
    >)
        requires
            blobs.wf(),
        ensures
            match r {
                Ok((a, data)) => {
                    &&& self.vault.store().contains_key(atom_key(hash@))
                    &&& dec_atom(self.vault.store()[atom_key(hash@)]) == Some(a@)
                    &&& exec_spec(self.vault.store(), blobs.view_map(), hash@) == scalar_spec(
                        a@.op_code,
                        data@,
                    )
                },
                Err(e) => (e matches KernelError::Vault(ve) && ve is Storage) || exec_spec(
                    self.vault.store(),
                    blobs.view_map(),
                    hash@,
                ) == Err::<i32, EvalErr>(eview(e)),
            },
    {
        let atom = match self.vault.fetch(hash) {
            Ok(a) => a,
            Err(VaultError::NotFound) => {
                return Err(KernelError::Vault(VaultError::NotFound));
            },
            Err(e) => {
                return Err(KernelError::Vault(e));
            },
        };
        if atom.op_code == 1 {
            let data = match self.resolve_data(&atom, blobs) {
                Ok(d) => d,
                Err(e) => {
                    return Err(e);
                },
            };
            Ok((atom, data))
        } else {
            let none: Vec<u8> = Vec::new();
            proof {
                assert(none@ =~= Seq::<u8>::empty());
            }
            Ok((atom, none))
        }
    }

    /// The computation half of the legacy path, decided against
    /// [`scalar_spec`].
    fn scalar_step(op_code: u16, data: &Vec<u8>) -> (r: Result<i32, KernelError>)
        ensures
            match r {
                Ok(v) => scalar_spec(op_code, data@) == Ok::<i32, EvalErr>(v),
                Err(e) => scalar_spec(op_code, data@) == Err::<i32, EvalErr>(eview(e)),
            },
    {
        if op_code == 1 {
            if data.len() < 8 {
                return Err(KernelError::Runtime(RuntimeError::PayloadTooShort));
            }
            let a = i32_from_le(data, 0);
            let b = i32_from_le(data, 4);
            let sum = (a as i64) + (b as i64);
            if sum < -0x8000_0000i64 || sum > 0x7fff_ffffi64 {
                return Err(KernelError::Runtime(RuntimeError::Overflow));
            }
            Ok(sum as i32)
        } else {
            Err(KernelError::InvalidOpCode(op_code))
        }
    }

    /// The legacy path with its wall-clock duration in nanoseconds: the
    /// measurement covers exactly the evaluation of the payload, not the
    /// fetch-and-validate half.
    pub fn execute_with_metrics(&self, hash: &str, blobs: &BlobStore) -> (r: Result<
        (i32, u128),
        KernelError,
    >)
        requires
            blobs.wf(),
        ensures
            match r {
                Ok((v, _)) => exec_spec(self.vault.store(), blobs.view_map(), hash@) == Ok::<
                    i32,
                    EvalErr,
                >(v),
                Err(e) => (e matches KernelError::Vault(ve) && ve is Storage) || exec_spec(
                    self.vault.store(),
                    blobs.view_map(),
                    hash@,
                ) == Err::<i32, EvalErr>(eview(e)),
            },
    {
        let (atom, data) = match self.fetch_and_resolve(hash, blobs) {
            Ok(pair) => pair,
            Err(e) => {
                return Err(e);
            },
        };
        let start = crate::clock::instant_now();
        let result = match Self::scalar_step(atom.op_code, &data) {
            Ok(v) => v,
            Err(e) => {
                return Err(e);
            },
        };
        let duration = crate::clock::elapsed_nanos(&start);
        Ok((result, duration))
    }

    /// One element's verdict under the filter configuration.
    fn filter_one(item: &JsonValue, field: &str, op: &str, vi: Option<i64>, vs: &Option<String>)
        -> (r: bool)
        ensures
            r == filter_pred(jview(*item), field@, op@, vi, ostr_view(*vs)),
    {
        let fv = json_field(item, field);
        if str_eq(op, ">") {
            let x: i64 = match &fv {
                JsonValue::Int(v) => *v,
                _ => 0,
            };
            let y: i64 = match vi {
                Some(v) => v,
                None => 0,
            };
            x > y
        } else if str_eq(op, "<") {
            let x: i64 = match &fv {
                JsonValue::Int(v) => *v,
                _ => 0,
            };
            let y: i64 = match vi {
                Some(v) => v,
                None => 0,
            };
            x < y
        } else if str_eq(op, "==") {
            let a: String = match fv {
                JsonValue::Str(text) => text,
                _ => String::new(),
            };
            let b: String = match vs {
                Some(text) => text.clone(),
                None => String::new(),
            };
            a == b
        } else if str_eq(op, "!=") {
            let a: String = match fv {
                JsonValue::Str(text) => text,
                _ => String::new(),
            };
            let b: String = match vs {
                Some(text) => text.clone(),
                None => String::new(),
            };
            !(a == b)
        } else if str_eq(op, "contains") {
            let a: String = match fv {
                JsonValue::Str(text) => text,
                _ => String::new(),
            };
            let b: String = match vs {
                Some(text) => text.clone(),
                None => String::new(),
            };
            crate::guard::contains_sub(a.as_str(), b.as_str())
        } else if str_eq(op, "not_contains") {
            let a: String = match fv {
                JsonValue::Str(text) => text,
                _ => String::new(),
            };
            let b: String = match vs {
                Some(text) => text.clone(),
                None => String::new(),
            };
            !crate::guard::contains_sub(a.as_str(), b.as_str())
        } else {
            true
        }
    }

    /// Whether a response has the shape its schema declares.
    fn schema_ok(schema: &JsonValue, v: &JsonValue) -> (r: bool)
        ensures
            r == schema_accepts(jview(*schema), jview(*v)),
    {
        let t = json_field(schema, "type");
        match t {
            JsonValue::Str(ts) => {
                if str_eq(ts.as_str(), "array") {
                    matches!(v, JsonValue::Array(_))
                } else if str_eq(ts.as_str(), "object") {
                    matches!(v, JsonValue::Object(_))
                } else if str_eq(ts.as_str(), "string") {
                    matches!(v, JsonValue::Str(_))
                } else if str_eq(ts.as_str(), "number") {
                    matches!(v, JsonValue::Int(_))
                } else if str_eq(ts.as_str(), "boolean") {
                    matches!(v, JsonValue::Bool(_))
                } else if str_eq(ts.as_str(), "null") {
                    matches!(v, JsonValue::Null)
                } else {
                    true
                }
            },
            _ => true,
        }
    }

    /// The external-I/O step, decided against [`io_eval`].
    fn io_exec(&self, atom: &LogicAtom, blobs: &BlobStore, io: &IoTable) -> (r: Result<
        JsonValue,
        KernelError,
    >)
        requires
            blobs.wf(),
            io.wf(),
        ensures
            match r {
                Ok(v) => io_eval(blobs.view_map(), io.view_map(), atom@) == Ok::<JModel, EvalErr>(
                    jview(v),
                ),
                Err(e) => io_eval(blobs.view_map(), io.view_map(), atom@) == Err::<
                    JModel,
                    EvalErr,
                >(eview(e)),
            },
    {
        let payload = match self.resolve_data(atom, blobs) {
            Ok(d) => d,
            Err(e) => {
                return Err(e);
            },
        };
        let contract = match decode_contract(payload.as_slice()) {
            Some(c) => c,
            None => {
                return Err(KernelError::Runtime(RuntimeError::PayloadDecode));
            },
        };
        match io.get(contract.endpoint.as_str()) {
            None => Err(KernelError::Runtime(RuntimeError::MissingIo(contract.endpoint))),
            Some(resp) => {
                if !Self::schema_ok(&contract.schema, resp) {
                    Err(KernelError::Runtime(RuntimeError::SchemaViolation))
                } else {
                    Ok(json_clone(resp))
                }
            },
        }
    }

    /// Fetches one atom, which must carry the external-I/O operation, and
    /// runs its I/O step against the pre-fetched responses.
    pub fn execute_io(&self, hash: &str, blobs: &BlobStore, io: &IoTable) -> (r: Result<
        JsonValue,
        KernelError,
    >)
        requires
            blobs.wf(),
            io.wf(),
        ensures
            match r {
                Ok(v) => io_spec(self.vault.store(), blobs.view_map(), io.view_map(), hash@)
                    == Ok::<JModel, EvalErr>(jview(v)),
                Err(e) => (e matches KernelError::Vault(ve) && ve is Storage) || io_spec(
                    self.vault.store(),
                    blobs.view_map(),
                    io.view_map(),
                    hash@,
                ) == Err::<JModel, EvalErr>(eview(e)),
            },
    {
        let atom = match self.vault.fetch(hash) {
            Ok(a) => a,
            Err(VaultError::NotFound) => {
                return Err(KernelError::Vault(VaultError::NotFound));
            },
            Err(e) => {
                return Err(KernelError::Vault(e));
            },
        };
        if atom.op_code == 500 {
            self.io_exec(&atom, blobs, io)
        } else {
            Err(KernelError::InvalidOpCode(atom.op_code))
        }
    }

    /// The primary evaluator: recursively resolves and evaluates the graph
    /// rooted at `hash`, decided against [`eval`] at the full depth budget.
    /// A hash shared by several parents is re-evaluated at each occurrence;
    /// content addressing makes every occurrence yield the same result.
    pub fn execute_smart(&self, hash: &str, blobs: &BlobStore, io: &IoTable) -> (r: Result<
        JsonValue,
        KernelError,
    >)
        requires
            blobs.wf(),
            io.wf(),
        ensures
            match r {
                Ok(v) => eval(
                    self.vault.store(),
                    blobs.view_map(),
                    io.view_map(),
                    EVAL_DEPTH as nat,
                    hash@,
                ) == Ok::<JModel, EvalErr>(jview(v)),
                Err(e) => (e matches KernelError::Vault(ve) && ve is Storage) || eval(
                    self.vault.store(),
                    blobs.view_map(),
                    io.view_map(),
                    EVAL_DEPTH as nat,
                    hash@,
                ) == Err::<JModel, EvalErr>(eview(e)),
            },
    {
        self.eval_smart(hash, blobs, io, EVAL_DEPTH)
    }

    /// The recursive body of [`Self::execute_smart`], with an explicit depth
    /// budget.
    #[verifier::loop_isolation(false)]
    #[verifier::rlimit(100)]
    #[verifier::spinoff_prover]
    fn eval_smart(&self, hash: &str, blobs: &BlobStore, io: &IoTable, fuel: usize) -> (r: Result<
        JsonValue,
        KernelError,
    >)
        requires
            blobs.wf(),
            io.wf(),
        ensures
            match r {
                Ok(v) => eval(
                    self.vault.store(),
                    blobs.view_map(),
                    io.view_map(),
                    fuel as nat,
                    hash@,
                ) == Ok::<JModel, EvalErr>(jview(v)),
                Err(e) => (e matches KernelError::Vault(ve) && ve is Storage) || eval(
                    self.vault.store(),
                    blobs.view_map(),
                    io.view_map(),
                    fuel as nat,
                    hash@,
                ) == Err::<JModel, EvalErr>(eview(e)),
            },
        decreases fuel,
    {
        let ghost store = self.vault.store();
        let ghost bm = blobs.view_map();
        let ghost im = io.view_map();
        if fuel == 0 {
            return Err(KernelError::Runtime(RuntimeError::DepthExceeded));
        }
        let atom = match self.vault.fetch(hash) {
            Ok(a) => a,
            Err(VaultError::NotFound) => {
                return Err(KernelError::Vault(VaultError::NotFound));
            },
            Err(e) => {
                return Err(KernelError::Vault(e));
            },
        };
        let ghost am = atom@;
        let ghost all = am.inputs;
        let ghost sub_fuel = (fuel - 1) as nat;
        let mut results: Vec<JsonValue> = Vec::new();
        let mut i: usize = 0;
        proof {
            assert(all.subrange(0, all.len() as int) =~= all);
            assert(jview_list(results@) =~= Seq::<JModel>::empty());
        }
        while i < atom.inputs.len()
            invariant
                0 <= i <= all.len(),
                all.len() == atom.inputs@.len(),
                eval_inputs(store, bm, im, sub_fuel, all) == (match eval_inputs(
                    store,
                    bm,
                    im,
                    sub_fuel,
                    all.subrange(i as int, all.len() as int),
                ) {
                    Ok(rest) => Ok::<Seq<JModel>, EvalErr>(jview_list(results@) + rest),
                    Err(e) => Err(e),
                }),
            decreases all.len() - i,
        {
            let ghost remaining = all.subrange(i as int, all.len() as int);
            proof {
                assert(remaining[0] == all[i as int]);
                assert(all[i as int] == atom.inputs@[i as int]@);
                assert(remaining.subrange(1, remaining.len() as int) =~= all.subrange(
                    i as int + 1,
                    all.len() as int,
                ));
            }
            match self.eval_smart(atom.inputs[i].as_str(), blobs, io, fuel - 1) {
                Ok(v) => {
                    let ghost prev = jview_list(results@);
                    let ghost vm = jview(v);
                    proof {
                        lemma_jview_list(results@);
                        lemma_jview_list(results@.push(v));
                        assert forall|k: int| 0 <= k < results@.len() + 1 implies #[trigger] jview_list(
                            results@.push(v),
                        )[k] == prev.push(vm)[k] by {
                            if k < results@.len() {
                                assert(results@.push(v)[k] == results@[k]);
                            } else {
                                assert(results@.push(v)[k] == v);
                            }
                        }
                        assert(jview_list(results@.push(v)) =~= prev.push(vm));
                    }
                    results.push(v);
                    proof {
                        match eval_inputs(
                            store,
                            bm,
                            im,
                            sub_fuel,
                            all.subrange(i as int + 1, all.len() as int),
                        ) {
                            Ok(rest) => {
                                assert(prev + (seq![vm] + rest) =~= prev.push(vm) + rest);
                            },
                            Err(_) => {},
                        }
                    }
                },
                Err(e) => {
                    return Err(e);
                },
            }
            i = i + 1;
        }
        proof {
            assert(all.subrange(all.len() as int, all.len() as int) =~= Seq::<Seq<char>>::empty());
            assert(jview_list(results@) + Seq::<JModel>::empty() =~= jview_list(results@));
            assert(eval_inputs(store, bm, im, sub_fuel, all) == Ok::<Seq<JModel>, EvalErr>(
                jview_list(results@),
            ));
            lemma_jview_list(results@);
        }
        let ghost rs = jview_list(results@);
        if atom.op_code == 1 {
            Ok(JsonValue::Int(0))
        } else if atom.op_code == 2 {
            if results.len() > 0 {
                let is_arr = matches!(&results[0], JsonValue::Array(_));
                if is_arr {
                    let payload = match self.resolve_data(&atom, blobs) {
                        Ok(d) => d,
                        Err(e) => {
                            return Err(e);
                        },
                    };
                    let cfg = match decode_json_doc(payload.as_slice()) {
                        Some(c) => c,
                        None => {
                            return Err(KernelError::Runtime(RuntimeError::PayloadDecode));
                        },
                    };
                    let field: String = match json_field(&cfg, "field") {
                        JsonValue::Str(text) => text,
                        _ => String::new(),
                    };
                    let op: String = match json_field(&cfg, "op") {
                        JsonValue::Str(text) => text,
                        _ => String::new(),
                    };
                    let val_i: Option<i64> = match json_field(&cfg, "val") {
                        JsonValue::Int(x) => Some(x),
                        _ => None,
                    };
                    let val_s: Option<String> = match json_field(&cfg, "val") {
                        JsonValue::Str(text) => Some(text),
                        _ => None,
                    };
                    let ghost fm = str_or_empty(j_as_str(jfield(jview(cfg), "field"@)));
                    let ghost om = str_or_empty(j_as_str(jfield(jview(cfg), "op"@)));
                    let ghost vim = j_as_int(jfield(jview(cfg), "val"@));
                    let ghost vsm = j_as_str(jfield(jview(cfg), "val"@));
                    match &results[0] {
                        JsonValue::Array(items) => {
                            let ghost elems = jview_list(items@);
                            let ghost target = filter_models(elems, fm, om, vim, vsm);
                            proof {
                                assert(rs[0] == jview(results@[0]));
                                assert(rs[0] is Arr && rs[0]->Arr_0 == elems);
                                lemma_jview_list(items@);
                                assert(elems.subrange(0, elems.len() as int) =~= elems);
                            }
                            let mut out: Vec<JsonValue> = Vec::new();
                            let mut k: usize = 0;
                            proof {
                                assert(jview_list(out@) =~= Seq::<JModel>::empty());
                                assert(jview_list(out@) + filter_models(
                                    elems.subrange(0, elems.len() as int),
                                    fm,
                                    om,
                                    vim,
                                    vsm,
                                ) =~= target);
                            }
                            while k < items.len()
                                invariant
                                    0 <= k <= elems.len(),
                                    elems.len() == items@.len(),
                                    target == jview_list(out@) + filter_models(
                                        elems.subrange(k as int, elems.len() as int),
                                        fm,
                                        om,
                                        vim,
                                        vsm,
                                    ),
                                decreases elems.len() - k,
                            {
                                let ghost suffix = elems.subrange(k as int, elems.len() as int);
                                proof {
                                    assert(suffix[0] == elems[k as int]);
                                    assert(elems[k as int] == jview(items@[k as int]));
                                    assert(suffix.subrange(1, suffix.len() as int)
                                        =~= elems.subrange(k as int + 1, elems.len() as int));
                                }
                                let keep = Self::filter_one(
                                    &items[k],
                                    field.as_str(),
                                    op.as_str(),
                                    val_i,
                                    &val_s,
                                );
                                if keep {
                                    let ghost prev = jview_list(out@);
                                    let copy = json_clone(&items[k]);
                                    let ghost cm = jview(copy);
                                    proof {
                                        lemma_jview_list(out@);
                                        lemma_jview_list(out@.push(copy));
                                        assert forall|t: int| 0 <= t < out@.len() + 1 implies #[trigger] jview_list(
                                            out@.push(copy),
                                        )[t] == prev.push(cm)[t] by {
                                            if t < out@.len() {
                                                assert(out@.push(copy)[t] == out@[t]);
                                            } else {
                                                assert(out@.push(copy)[t] == copy);
                                            }
                                        }
                                        assert(jview_list(out@.push(copy)) =~= prev.push(cm));
                                    }
                                    out.push(copy);
                                    proof {
                                        assert(prev + (seq![elems[k as int]] + filter_models(
                                            elems.subrange(k as int + 1, elems.len() as int),
                                            fm,
                                            om,
                                            vim,
                                            vsm,
                                        )) =~= prev.push(cm) + filter_models(
                                            elems.subrange(k as int + 1, elems.len() as int),
                                            fm,
                                            om,
                                            vim,
                                            vsm,
                                        ));
                                    }
                                } else {
                                    proof {
                                        assert(Seq::<JModel>::empty() + filter_models(
                                            elems.subrange(k as int + 1, elems.len() as int),
                                            fm,
                                            om,
                                            vim,
                                            vsm,
                                        ) =~= filter_models(
                                            elems.subrange(k as int + 1, elems.len() as int),
                                            fm,
                                            om,
                                            vim,
                                            vsm,
                                        ));
                                    }
                                }
                                k = k + 1;
                            }
                            proof {
                                assert(elems.subrange(elems.len() as int, elems.len() as int)
                                    =~= Seq::<JModel>::empty());
                                assert(jview_list(out@) + Seq::<JModel>::empty() =~= jview_list(
                                    out@,
                                ));
                                assert(target == jview_list(out@));
                            }
                            Ok(JsonValue::Array(out))
                        },
                        _ => {
                            proof {
                                assert(false);
                            }
                            Ok(JsonValue::Null)
                        },
                    }
                } else {
                    proof {
                        lemma_jview_list(results@);
                        assert(rs[0] == jview(results@[0]));
                    }
                    let empty_vec: Vec<JsonValue> = Vec::new();
                    proof {
                        assert(jview_list(empty_vec@) =~= Seq::<JModel>::empty());
                    }
                    Ok(JsonValue::Array(empty_vec))
                }
            } else {
                let empty_vec: Vec<JsonValue> = Vec::new();
                proof {
                    assert(jview_list(empty_vec@) =~= Seq::<JModel>::empty());
                }
                Ok(JsonValue::Array(empty_vec))
            }
        } else if atom.op_code == 3 {
            let ghost target = merge_models(rs);
            let mut out: Vec<JsonValue> = Vec::new();
            let mut k: usize = 0;
            proof {
                assert(rs.subrange(0, rs.len() as int) =~= rs);
                assert(jview_list(out@) =~= Seq::<JModel>::empty());
                assert(jview_list(out@) + merge_models(rs.subrange(0, rs.len() as int)) =~= target);
            }
            while k < results.len()
                invariant
                    0 <= k <= rs.len(),
                    rs.len() == results@.len(),
                    target == jview_list(out@) + merge_models(
                        rs.subrange(k as int, rs.len() as int),
                    ),
                decreases rs.len() - k,
            {
                let ghost suffix = rs.subrange(k as int, rs.len() as int);
                proof {
                    lemma_jview_list(results@);
                    assert(suffix[0] == rs[k as int]);
                    assert(rs[k as int] == jview(results@[k as int]));
                    assert(suffix.subrange(1, suffix.len() as int) =~= rs.subrange(
                        k as int + 1,
                        rs.len() as int,
                    ));
                }
                match &results[k] {
                    JsonValue::Array(items) => {
                        let ghost elems = jview_list(items@);
                        let ghost prev0 = jview_list(out@);
                        let mut t: usize = 0;
                        proof {
                            lemma_jview_list(items@);
                            assert(prev0 + elems.subrange(0, 0) =~= prev0);
                        }
                        while t < items.len()
                            invariant
                                0 <= t <= elems.len(),
                                elems.len() == items@.len(),
                                jview_list(out@) == prev0 + elems.subrange(0, t as int),
                            decreases elems.len() - t,
                        {
                            let ghost prev = jview_list(out@);
                            let copy = json_clone(&items[t]);
                            let ghost cm = jview(copy);
                            proof {
                                lemma_jview_list(out@);
                                lemma_jview_list(out@.push(copy));
                                assert forall|w: int| 0 <= w < out@.len() + 1 implies #[trigger] jview_list(
                                    out@.push(copy),
                                )[w] == prev.push(cm)[w] by {
                                    if w < out@.len() {
                                        assert(out@.push(copy)[w] == out@[w]);
                                    } else {
                                        assert(out@.push(copy)[w] == copy);
                                    }
                                }
                                assert(jview_list(out@.push(copy)) =~= prev.push(cm));
                                assert(cm == elems[t as int]);
                                assert(prev.push(cm) =~= prev0 + elems.subrange(0, t as int + 1));
                            }
                            out.push(copy);
                            t = t + 1;
                        }
                        proof {
                            assert(elems.subrange(0, elems.len() as int) =~= elems);
                            assert(jview_list(out@) =~= prev0 + elems);
                            assert(prev0 + (elems + merge_models(
                                rs.subrange(k as int + 1, rs.len() as int),
                            )) =~= (prev0 + elems) + merge_models(
                                rs.subrange(k as int + 1, rs.len() as int),
                            ));
                        }
                    },
                    _ => {
                        proof {
                            assert(Seq::<JModel>::empty() + merge_models(
                                rs.subrange(k as int + 1, rs.len() as int),
                            ) =~= merge_models(rs.subrange(k as int + 1, rs.len() as int)));
                        }
                    },
                }
                k = k + 1;
            }
            proof {
                assert(rs.subrange(rs.len() as int, rs.len() as int) =~= Seq::<JModel>::empty());
                assert(jview_list(out@) + Seq::<JModel>::empty() =~= jview_list(out@));
                assert(target == jview_list(out@));
            }
            Ok(JsonValue::Array(out))
        } else if atom.op_code == 50 {
            let payload = match self.resolve_data(&atom, blobs) {
                Ok(d) => d,
                Err(e) => {
                    return Err(e);
                },
            };
            match decode_json_doc(payload.as_slice()) {
                Some(cfg) => Ok(cfg),
                None => Err(KernelError::Runtime(RuntimeError::PayloadDecode)),
            }
        } else if atom.op_code == 100 {
            if results.len() > 0 {
                proof {
                    lemma_jview_list(results@);
                    assert(rs[0] == jview(results@[0]));
                }
                Ok(json_clone(&results[0]))
            } else {
                let mut fields: Vec<(String, JsonValue)> = Vec::new();
                fields.push(
                    (String::from_str("status"), JsonValue::Str(String::from_str("Audited"))),
                );
                proof {
                    lemma_jview_fields(fields@);
                    assert(jview_fields(fields@) =~= seq![("status"@, JModel::Str("Audited"@))]);
                }
                Ok(JsonValue::Object(fields))
            }
        } else if atom.op_code == 500 {
            self.io_exec(&atom, blobs, io)
        } else if atom.op_code == 600 {
            let payload = match self.resolve_data(&atom, blobs) {
                Ok(d) => d,
                Err(e) => {
                    return Err(e);
                },
            };
            let intent = match bytes_to_string(payload) {
                Some(text) => text,
                None => {
                    return Err(KernelError::Runtime(RuntimeError::PayloadDecode));
                },
            };
            let mut fields: Vec<(String, JsonValue)> = Vec::new();
            fields.push(
                (
                    String::from_str("status"),
                    JsonValue::Str(String::from_str("SYNTHESIS_PENDING")),
                ),
            );
            fields.push((String::from_str("intent"), JsonValue::Str(intent)));
            fields.push((String::from_str("hash"), JsonValue::Str(hash.to_owned())));
            fields.push((String::from_str("type"), JsonValue::Str(String::from_str("Logic Gap"))));
            proof {
                lemma_jview_fields(fields@);
                assert(jview_fields(fields@) =~= seq![
                    ("status"@, JModel::Str("SYNTHESIS_PENDING"@)),
                    ("intent"@, JModel::Str(decode_utf8(bm[am.storage_ref]))),
                    ("hash"@, JModel::Str(hash@)),
                    ("type"@, JModel::Str("Logic Gap"@)),
                ]);
            }
            Ok(JsonValue::Object(fields))
        } else if atom.op_code == 800 {
            if results.len() > 0 {
                proof {
                    lemma_jview_list(results@);
                    assert(rs[0] == jview(results@[0]));
                }
                let inner = json_clone(&results[0]);
                let mut masked: Vec<JsonValue> = Vec::new();
                masked.push(JsonValue::Str(String::from_str("private_logic_trace")));
                proof {
                    lemma_jview_list(masked@);
                    assert(jview_list(masked@) =~= seq![JModel::Str("private_logic_trace"@)]);
                }
                let mut fields: Vec<(String, JsonValue)> = Vec::new();
                fields.push(
                    (
                        String::from_str("origin"),
                        JsonValue::Str(String::from_str("0xSOVEREIGN_ROOT")),
                    ),
                );
                fields.push((String::from_str("payload"), inner));
                fields.push((String::from_str("masked_fields"), JsonValue::Array(masked)));
                proof {
                    lemma_jview_fields(fields@);
                    assert(jview_fields(fields@) =~= seq![
                        ("origin"@, JModel::Str("0xSOVEREIGN_ROOT"@)),
                        ("payload"@, rs[0]),
                        ("masked_fields"@, JModel::Arr(seq![JModel::Str("private_logic_trace"@)])),
                    ]);
                }
                Ok(JsonValue::Object(fields))
            } else {
                let mut fields: Vec<(String, JsonValue)> = Vec::new();
                fields.push(
                    (
                        String::from_str("error"),
                        JsonValue::Str(String::from_str("Gateway has no input resonance")),
                    ),
                );
                proof {
                    lemma_jview_fields(fields@);
                    assert(jview_fields(fields@) =~= seq![
                        ("error"@, JModel::Str("Gateway has no input resonance"@)),
                    ]);
                }
                Ok(JsonValue::Object(fields))
            }
        } else {
            Ok(JsonValue::Null)
        }
    }
}


} // verus!
