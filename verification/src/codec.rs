//! The canonical serialized forms of the store's records.
//!
//! Every record kind has a spec-level encoder (`enc_*`), a spec-level decoder
//! (`dec_*`), executable counterparts proved against them, and a round-trip
//! lemma: decoding an encoding yields the original value. An atom's content
//! address is the digest of exactly these bytes, so the encoding being
//! injective on well-formed values makes addresses collision-free up to the
//! digest itself.

use vstd::prelude::*;
use vstd::bytes::*;
use vstd::utf8::*;
use vstd::slice::{slice_subrange, slice_to_vec};
use vstd::string::StrSliceExecFns;
use crate::{AtomModel, LogicAtom, IdentityAtom, IdentityModel, ProjectAtom, ProjectModel, ProjectStatus};
use crate::io::{IOContract, ContractModel};
use crate::json::{JModel, JsonValue, jview, jview_list, jview_fields, lemma_jview_list, lemma_jview_fields};

verus! {

/// One more than the largest length a 64-bit length prefix can carry.
pub open spec fn len_limit() -> int {
    0x1_0000_0000_0000_0000
}

/// A character sequence whose UTF-8 form fits a 64-bit length prefix.
/// Every executable string satisfies this.
pub open spec fn str_wf(s: Seq<char>) -> bool {
    encode_utf8(s).len() < len_limit()
}

/// A well-formed atom model: every length fits its prefix.
pub open spec fn atom_wf(m: AtomModel) -> bool {
    &&& m.inputs.len() < len_limit()
    &&& forall|i: int| 0 <= i < m.inputs.len() ==> str_wf(#[trigger] m.inputs[i])
    &&& str_wf(m.storage_ref)
    &&& str_wf(m.context_id)
}

// ---------------------------------------------------------------------------
// Spec encoders
// ---------------------------------------------------------------------------

pub open spec fn enc_u16(x: u16) -> Seq<u8> {
    spec_u16_to_le_bytes(x)
}

pub open spec fn enc_u64(x: u64) -> Seq<u8> {
    spec_u64_to_le_bytes(x)
}

/// A string: 64-bit little-endian byte length, then the UTF-8 bytes.
pub open spec fn enc_str(s: Seq<char>) -> Seq<u8> {
    enc_u64(encode_utf8(s).len() as u64) + encode_utf8(s)
}

/// A list of strings, in order.
pub open spec fn enc_str_list(l: Seq<Seq<char>>) -> Seq<u8>
    decreases l,
{
    if l.len() == 0 {
        Seq::empty()
    } else {
        enc_str(l[0]) + enc_str_list(l.subrange(1, l.len() as int))
    }
}

/// An atom: operation code, input count, inputs, storage reference, context.
pub open spec fn enc_atom(m: AtomModel) -> Seq<u8> {
    enc_u16(m.op_code) + enc_u64(m.inputs.len() as u64) + enc_str_list(m.inputs) + enc_str(
        m.storage_ref,
    ) + enc_str(m.context_id)
}

/// Appending one string on the right of a list extends its encoding on the
/// right.
pub proof fn lemma_enc_str_list_snoc(l: Seq<Seq<char>>, s: Seq<char>)
    ensures
        enc_str_list(l.push(s)) == enc_str_list(l) + enc_str(s),
    decreases l,
{
    if l.len() == 0 {
        let one = l.push(s);
        assert(one[0] == s);
        assert(one.subrange(1, one.len() as int) =~= Seq::<Seq<char>>::empty());
        assert(enc_str_list(one) == enc_str(s) + enc_str_list(Seq::<Seq<char>>::empty()));
        assert(enc_str(s) + Seq::<u8>::empty() =~= enc_str(s));
        assert(enc_str_list(l) + enc_str(s) =~= enc_str(s));
    } else {
        let rest = l.subrange(1, l.len() as int);
        lemma_enc_str_list_snoc(rest, s);
        assert(l.push(s).subrange(1, l.push(s).len() as int) =~= rest.push(s));
        assert(l.push(s)[0] == l[0]);
        assert(enc_str_list(l.push(s)) == enc_str(l[0]) + enc_str_list(rest.push(s)));
        assert(enc_str(l[0]) + (enc_str_list(rest) + enc_str(s)) =~= (enc_str(l[0])
            + enc_str_list(rest)) + enc_str(s));
    }
}

// ---------------------------------------------------------------------------
// Spec decoders
// ---------------------------------------------------------------------------

pub open spec fn dec_u16(bytes: Seq<u8>, pos: int) -> Option<(u16, int)> {
    if 0 <= pos && pos + 2 <= bytes.len() {
        Some((spec_u16_from_le_bytes(bytes.subrange(pos, pos + 2)), pos + 2))
    } else {
        None
    }
}

pub open spec fn dec_u64(bytes: Seq<u8>, pos: int) -> Option<(u64, int)> {
    if 0 <= pos && pos + 8 <= bytes.len() {
        Some((spec_u64_from_le_bytes(bytes.subrange(pos, pos + 8)), pos + 8))
    } else {
        None
    }
}

pub open spec fn dec_str(bytes: Seq<u8>, pos: int) -> Option<(Seq<char>, int)> {
    match dec_u64(bytes, pos) {
        Option::None => None,
        Option::Some((n, p)) => {
            if p + n <= bytes.len() {
                let bs = bytes.subrange(p, p + n);
                if valid_utf8(bs) {
                    Some((decode_utf8(bs), p + n))
                } else {
                    None
                }
            } else {
                None
            }
        },
    }
}

pub open spec fn dec_str_list(bytes: Seq<u8>, pos: int, count: int) -> Option<
    (Seq<Seq<char>>, int),
>
    decreases count,
{
    if count <= 0 {
        Some((Seq::empty(), pos))
    } else {
        match dec_str(bytes, pos) {
            Option::None => None,
            Option::Some((s, p)) => {
                match dec_str_list(bytes, p, count - 1) {
                    Option::None => None,
                    Option::Some((l, q)) => Some((seq![s] + l, q)),
                }
            },
        }
    }
}

/// An atom's bytes decode to a model exactly when the whole byte string is
/// consumed.
pub open spec fn dec_atom(bytes: Seq<u8>) -> Option<AtomModel> {
    match dec_u16(bytes, 0) {
        Option::None => None,
        Option::Some((op, p1)) => {
            match dec_u64(bytes, p1) {
                Option::None => None,
                Option::Some((n, p2)) => {
                    match dec_str_list(bytes, p2, n as int) {
                        Option::None => None,
                        Option::Some((inputs, p3)) => {
                            match dec_str(bytes, p3) {
                                Option::None => None,
                                Option::Some((storage_ref, p4)) => {
                                    match dec_str(bytes, p4) {
                                        Option::None => None,
                                        Option::Some((context_id, p5)) => {
                                            if p5 == bytes.len() {
                                                Some(
                                                    AtomModel {
                                                        op_code: op,
                                                        inputs,
                                                        storage_ref,
                                                        context_id,
                                                    },
                                                )
                                            } else {
                                                None
                                            }
                                        },
                                    }
                                },
                            }
                        },
                    }
                },
            }
        },
    }
}


// ---------------------------------------------------------------------------
// Structured values
// ---------------------------------------------------------------------------

/// Tagged binary form of a structured value: `0` null, `1` false, `2` true,
/// `3` a 64-bit integer, `4` a string, `5` an array (64-bit count, then the
/// elements), `6` an object (64-bit count, then key/value pairs).
pub open spec fn enc_json(m: JModel) -> Seq<u8>
    decreases m,
{
    match m {
        JModel::Null => seq![0u8],
        JModel::Bool(b) => if b {
            seq![2u8]
        } else {
            seq![1u8]
        },
        JModel::Int(x) => seq![3u8] + enc_u64(x as u64),
        JModel::Str(s) => seq![4u8] + enc_str(s),
        JModel::Arr(items) => seq![5u8] + enc_u64(items.len() as u64) + enc_json_list(items),
        JModel::Obj(fields) => seq![6u8] + enc_u64(fields.len() as u64) + enc_json_fields(fields),
    }
}

pub open spec fn enc_json_list(items: Seq<JModel>) -> Seq<u8>
    decreases items,
{
    if items.len() == 0 {
        Seq::empty()
    } else {
        enc_json(items[0]) + enc_json_list(items.subrange(1, items.len() as int))
    }
}

pub open spec fn enc_json_fields(fields: Seq<(Seq<char>, JModel)>) -> Seq<u8>
    decreases fields,
{
    if fields.len() == 0 {
        Seq::empty()
    } else {
        enc_str(fields[0].0) + enc_json(fields[0].1) + enc_json_fields(
            fields.subrange(1, fields.len() as int),
        )
    }
}

/// A well-formed model: every string and count fits its length prefix.
pub open spec fn json_wf(m: JModel) -> bool
    decreases m,
{
    match m {
        JModel::Null => true,
        JModel::Bool(_) => true,
        JModel::Int(_) => true,
        JModel::Str(s) => str_wf(s),
        JModel::Arr(items) => items.len() < len_limit() && json_wf_list(items),
        JModel::Obj(fields) => fields.len() < len_limit() && json_wf_fields(fields),
    }
}

pub open spec fn json_wf_list(items: Seq<JModel>) -> bool
    decreases items,
{
    if items.len() == 0 {
        true
    } else {
        json_wf(items[0]) && json_wf_list(items.subrange(1, items.len() as int))
    }
}

pub open spec fn json_wf_fields(fields: Seq<(Seq<char>, JModel)>) -> bool
    decreases fields,
{
    if fields.len() == 0 {
        true
    } else {
        str_wf(fields[0].0) && json_wf(fields[0].1) && json_wf_fields(
            fields.subrange(1, fields.len() as int),
        )
    }
}

pub open spec fn dec_json(bytes: Seq<u8>, pos: int) -> Option<(JModel, int)>
    decreases bytes.len() - pos, 0int, 2int,
{
    if 0 <= pos && pos + 1 <= bytes.len() {
        let tag = bytes[pos];
        let p = pos + 1;
        if tag == 0 {
            Some((JModel::Null, p))
        } else if tag == 1 {
            Some((JModel::Bool(false), p))
        } else if tag == 2 {
            Some((JModel::Bool(true), p))
        } else if tag == 3 {
            match dec_u64(bytes, p) {
                Option::None => None,
                Option::Some((x, e)) => Some((JModel::Int(x as i64), e)),
            }
        } else if tag == 4 {
            match dec_str(bytes, p) {
                Option::None => None,
                Option::Some((s, e)) => Some((JModel::Str(s), e)),
            }
        } else if tag == 5 {
            match dec_u64(bytes, p) {
                Option::None => None,
                Option::Some((n, p2)) => {
                    match dec_json_seq(bytes, p2, n as int) {
                        Option::None => None,
                        Option::Some((items, e)) => Some((JModel::Arr(items), e)),
                    }
                },
            }
        } else if tag == 6 {
            match dec_u64(bytes, p) {
                Option::None => None,
                Option::Some((n, p2)) => {
                    match dec_json_pairs(bytes, p2, n as int) {
                        Option::None => None,
                        Option::Some((fields, e)) => Some((JModel::Obj(fields), e)),
                    }
                },
            }
        } else {
            None
        }
    } else {
        None
    }
}

pub open spec fn dec_json_seq(bytes: Seq<u8>, pos: int, count: int) -> Option<(Seq<JModel>, int)>
    decreases bytes.len() - pos, count, 1int,
{
    if count <= 0 {
        Some((Seq::empty(), pos))
    } else if !(0 <= pos && pos <= bytes.len()) {
        None
    } else {
        match dec_json(bytes, pos) {
            Option::None => None,
            Option::Some((v, p)) => {
                if pos < p && p <= bytes.len() {
                    match dec_json_seq(bytes, p, count - 1) {
                        Option::None => None,
                        Option::Some((l, e)) => Some((seq![v] + l, e)),
                    }
                } else {
                    None
                }
            },
        }
    }
}

pub open spec fn dec_json_pairs(bytes: Seq<u8>, pos: int, count: int) -> Option<
    (Seq<(Seq<char>, JModel)>, int),
>
    decreases bytes.len() - pos, count, 1int,
{
    if count <= 0 {
        Some((Seq::empty(), pos))
    } else if !(0 <= pos && pos <= bytes.len()) {
        None
    } else {
        match dec_str(bytes, pos) {
            Option::None => None,
            Option::Some((k, pk)) => {
                if pos < pk && pk <= bytes.len() {
                    match dec_json(bytes, pk) {
                        Option::None => None,
                        Option::Some((v, p)) => {
                            if pk <= p && p <= bytes.len() {
                                match dec_json_pairs(bytes, p, count - 1) {
                                    Option::None => None,
                                    Option::Some((l, e)) => Some((seq![(k, v)] + l, e)),
                                }
                            } else {
                                None
                            }
                        },
                    }
                } else {
                    None
                }
            },
        }
    }
}

/// A whole byte string decodes to a structured value exactly when it is
/// consumed completely.
pub open spec fn dec_json_doc(bytes: Seq<u8>) -> Option<JModel> {
    match dec_json(bytes, 0) {
        Option::None => None,
        Option::Some((v, e)) => if e == bytes.len() {
            Some(v)
        } else {
            None
        },
    }
}

// ---------------------------------------------------------------------------
// Frame lemmas: decoding an encoding embedded in a longer byte string
// ---------------------------------------------------------------------------

pub proof fn lemma_dec_u16_frame(bytes: Seq<u8>, pos: int, x: u16)
    requires
        0 <= pos,
        pos + 2 <= bytes.len(),
        bytes.subrange(pos, pos + 2) == enc_u16(x),
    ensures
        dec_u16(bytes, pos) == Some((x, pos + 2)),
{
    lemma_auto_spec_u16_to_from_le_bytes();
    assert(spec_u16_to_le_bytes(x).len() == 2);
    assert(spec_u16_from_le_bytes(spec_u16_to_le_bytes(x)) == x);
    assert(bytes.subrange(pos, pos + 2) == spec_u16_to_le_bytes(x));
}

pub proof fn lemma_dec_u64_frame(bytes: Seq<u8>, pos: int, x: u64)
    requires
        0 <= pos,
        pos + 8 <= bytes.len(),
        bytes.subrange(pos, pos + 8) == enc_u64(x),
    ensures
        dec_u64(bytes, pos) == Some((x, pos + 8)),
{
    lemma_auto_spec_u64_to_from_le_bytes();
    assert(spec_u64_to_le_bytes(x).len() == 8);
    assert(spec_u64_from_le_bytes(spec_u64_to_le_bytes(x)) == x);
    assert(bytes.subrange(pos, pos + 8) == spec_u64_to_le_bytes(x));
}

/// Splits an embedded concatenation into its two embedded halves.
pub proof fn lemma_split_frame(bytes: Seq<u8>, pos: int, a: Seq<u8>, b: Seq<u8>)
    requires
        0 <= pos,
        pos + a.len() + b.len() <= bytes.len(),
        bytes.subrange(pos, pos + a.len() + b.len()) == a + b,
    ensures
        bytes.subrange(pos, pos + a.len()) == a,
        bytes.subrange(pos + a.len(), pos + a.len() + b.len()) == b,
{
    let ab = a + b;
    assert forall|i: int| 0 <= i < ab.len() implies bytes[pos + i] == #[trigger] ab[i] by {
        assert(bytes.subrange(pos, pos + ab.len())[i] == ab[i]);
    }
    assert forall|i: int| 0 <= i < a.len() implies bytes.subrange(pos, pos + a.len())[i] == a[i] by {
        assert(ab[i] == a[i]);
    }
    assert(bytes.subrange(pos, pos + a.len()) =~= a);
    assert forall|i: int| 0 <= i < b.len() implies bytes.subrange(
        pos + a.len(),
        pos + a.len() + b.len(),
    )[i] == b[i] by {
        assert(ab[a.len() + i] == b[i]);
        assert(bytes[pos + (a.len() + i)] == ab[a.len() + i]);
    }
    assert(bytes.subrange(pos + a.len(), pos + a.len() + b.len()) =~= b);
}

pub proof fn lemma_dec_str_frame(bytes: Seq<u8>, pos: int, s: Seq<char>)
    requires
        str_wf(s),
        0 <= pos,
        pos + enc_str(s).len() <= bytes.len(),
        bytes.subrange(pos, pos + enc_str(s).len()) == enc_str(s),
    ensures
        dec_str(bytes, pos) == Some((s, pos + enc_str(s).len())),
{
    broadcast use encode_utf8_valid_utf8, encode_utf8_decode_utf8;

    lemma_auto_spec_u64_to_from_le_bytes();
    let ebytes = encode_utf8(s);
    let n = ebytes.len() as u64;
    lemma_split_frame(bytes, pos, enc_u64(n), ebytes);
    lemma_dec_u64_frame(bytes, pos, n);
    assert(bytes.subrange(pos + 8, pos + 8 + n) == ebytes);
}

pub proof fn lemma_dec_str_list_frame(bytes: Seq<u8>, pos: int, l: Seq<Seq<char>>)
    requires
        forall|i: int| 0 <= i < l.len() ==> str_wf(#[trigger] l[i]),
        0 <= pos,
        pos + enc_str_list(l).len() <= bytes.len(),
        bytes.subrange(pos, pos + enc_str_list(l).len()) == enc_str_list(l),
    ensures
        dec_str_list(bytes, pos, l.len() as int) == Some((l, pos + enc_str_list(l).len())),
    decreases l,
{
    if l.len() == 0 {
        assert(dec_str_list(bytes, pos, 0) == Some((Seq::<Seq<char>>::empty(), pos)));
        assert(l =~= Seq::<Seq<char>>::empty());
    } else {
        let rest = l.subrange(1, l.len() as int);
        let head = enc_str(l[0]);
        let tail = enc_str_list(rest);
        assert(enc_str_list(l) == head + tail);
        lemma_split_frame(bytes, pos, head, tail);
        lemma_dec_str_frame(bytes, pos, l[0]);
        lemma_dec_str_list_frame(bytes, pos + head.len(), rest);
        assert(seq![l[0]] + rest =~= l);
    }
}

/// Round trip: a well-formed atom model decodes from its own encoding.
#[verifier::rlimit(60)]
#[verifier::spinoff_prover]
pub proof fn lemma_dec_enc_atom(m: AtomModel)
    requires
        atom_wf(m),
    ensures
        dec_atom(enc_atom(m)) == Some(m),
{
    lemma_auto_spec_u16_to_from_le_bytes();
    lemma_auto_spec_u64_to_from_le_bytes();
    let bytes = enc_atom(m);
    let a = enc_u16(m.op_code);
    let b = enc_u64(m.inputs.len() as u64);
    let c = enc_str_list(m.inputs);
    let d = enc_str(m.storage_ref);
    let e = enc_str(m.context_id);
    assert(bytes.subrange(0, bytes.len() as int) =~= bytes);
    assert(bytes =~= a + (b + (c + (d + e))));
    lemma_split_frame(bytes, 0, a, b + (c + (d + e)));
    lemma_dec_u16_frame(bytes, 0, m.op_code);
    let p1 = a.len() as int;
    lemma_split_frame(bytes, p1, b, c + (d + e));
    lemma_dec_u64_frame(bytes, p1, m.inputs.len() as u64);
    let p2 = p1 + b.len();
    lemma_split_frame(bytes, p2, c, d + e);
    lemma_dec_str_list_frame(bytes, p2, m.inputs);
    let p3 = p2 + c.len();
    lemma_split_frame(bytes, p3, d, e);
    lemma_dec_str_frame(bytes, p3, m.storage_ref);
    let p4 = p3 + d.len();
    lemma_dec_str_frame(bytes, p4, m.context_id);
    assert(p4 + e.len() == bytes.len());
    assert(m.inputs.len() as u64 as int == m.inputs.len());
}


/// Every encoded value starts with its tag byte.
pub proof fn lemma_enc_json_len(m: JModel)
    ensures
        enc_json(m).len() >= 1,
{
}

pub proof fn lemma_enc_json_list_snoc(items: Seq<JModel>, v: JModel)
    ensures
        enc_json_list(items.push(v)) == enc_json_list(items) + enc_json(v),
        json_wf_list(items.push(v)) == (json_wf_list(items) && json_wf(v)),
    decreases items,
{
    if items.len() == 0 {
        let one = items.push(v);
        assert(one[0] == v);
        assert(one.subrange(1, one.len() as int) =~= Seq::<JModel>::empty());
        assert(enc_json_list(one) == enc_json(v) + enc_json_list(Seq::<JModel>::empty()));
        assert(enc_json(v) + Seq::<u8>::empty() =~= enc_json(v));
        assert(enc_json_list(items) + enc_json(v) =~= enc_json(v));
        assert(json_wf_list(one) == (json_wf(v) && json_wf_list(Seq::<JModel>::empty())));
    } else {
        let rest = items.subrange(1, items.len() as int);
        lemma_enc_json_list_snoc(rest, v);
        assert(items.push(v).subrange(1, items.push(v).len() as int) =~= rest.push(v));
        assert(items.push(v)[0] == items[0]);
        assert(enc_json(items[0]) + (enc_json_list(rest) + enc_json(v)) =~= (enc_json(items[0])
            + enc_json_list(rest)) + enc_json(v));
        assert(json_wf_list(items.push(v)) == (json_wf(items[0]) && json_wf_list(rest.push(v))));
        assert(json_wf_list(items) == (json_wf(items[0]) && json_wf_list(rest)));
    }
}

pub proof fn lemma_enc_json_fields_snoc(fields: Seq<(Seq<char>, JModel)>, k: Seq<char>, v: JModel)
    ensures
        enc_json_fields(fields.push((k, v))) == enc_json_fields(fields) + (enc_str(k) + enc_json(
            v,
        )),
        json_wf_fields(fields.push((k, v))) == (json_wf_fields(fields) && str_wf(k) && json_wf(v)),
    decreases fields,
{
    if fields.len() == 0 {
        let one = fields.push((k, v));
        assert(one[0] == (k, v));
        assert(one.subrange(1, one.len() as int) =~= Seq::<(Seq<char>, JModel)>::empty());
        assert(enc_json_fields(one) == enc_str(k) + enc_json(v) + enc_json_fields(
            Seq::<(Seq<char>, JModel)>::empty(),
        ));
        assert(enc_str(k) + enc_json(v) + Seq::<u8>::empty() =~= enc_str(k) + enc_json(v));
        assert(enc_json_fields(fields) + (enc_str(k) + enc_json(v)) =~= enc_str(k) + enc_json(v));
        assert(json_wf_fields(one) == (str_wf(k) && json_wf(v) && json_wf_fields(
            Seq::<(Seq<char>, JModel)>::empty(),
        )));
    } else {
        let rest = fields.subrange(1, fields.len() as int);
        lemma_enc_json_fields_snoc(rest, k, v);
        assert(fields.push((k, v)).subrange(1, fields.push((k, v)).len() as int) =~= rest.push(
            (k, v),
        ));
        assert(fields.push((k, v))[0] == fields[0]);
        let h = enc_str(fields[0].0) + enc_json(fields[0].1);
        assert(h + (enc_json_fields(rest) + (enc_str(k) + enc_json(v))) =~= (h + enc_json_fields(
            rest,
        )) + (enc_str(k) + enc_json(v)));
        assert(json_wf_fields(fields.push((k, v))) == (str_wf(fields[0].0) && json_wf(fields[0].1)
            && json_wf_fields(rest.push((k, v)))));
        assert(json_wf_fields(fields) == (str_wf(fields[0].0) && json_wf(fields[0].1)
            && json_wf_fields(rest)));
    }
}

pub proof fn lemma_dec_json_frame(bytes: Seq<u8>, pos: int, m: JModel)
    requires
        json_wf(m),
        0 <= pos,
        pos + enc_json(m).len() <= bytes.len(),
        bytes.subrange(pos, pos + enc_json(m).len()) == enc_json(m),
    ensures
        dec_json(bytes, pos) == Some((m, pos + enc_json(m).len())),
    decreases m, 0int,
{
    lemma_auto_spec_u64_to_from_le_bytes();
    match m {
        JModel::Null => {
            assert(bytes.subrange(pos, pos + 1)[0] == 0u8);
        },
        JModel::Bool(b) => {
            assert(bytes.subrange(pos, pos + 1)[0] == (if b {
                2u8
            } else {
                1u8
            }));
        },
        JModel::Int(x) => {
            let b = enc_u64(x as u64);
            assert(enc_json(m) =~= seq![3u8] + b);
            lemma_split_frame(bytes, pos, seq![3u8], b);
            assert(bytes.subrange(pos, pos + 1)[0] == 3u8);
            lemma_dec_u64_frame(bytes, pos + 1, x as u64);
            assert((x as u64) as i64 == x) by (bit_vector);
        },
        JModel::Str(str_val) => {
            let b = enc_str(str_val);
            assert(enc_json(m) =~= seq![4u8] + b);
            lemma_split_frame(bytes, pos, seq![4u8], b);
            assert(bytes.subrange(pos, pos + 1)[0] == 4u8);
            lemma_dec_str_frame(bytes, pos + 1, str_val);
        },
        JModel::Arr(items) => {
            let n = items.len() as u64;
            let b = enc_u64(n);
            let c = enc_json_list(items);
            assert(enc_json(m) =~= seq![5u8] + (b + c));
            lemma_split_frame(bytes, pos, seq![5u8], b + c);
            assert(bytes.subrange(pos, pos + 1)[0] == 5u8);
            lemma_split_frame(bytes, pos + 1, b, c);
            lemma_dec_u64_frame(bytes, pos + 1, n);
            lemma_dec_json_seq_frame(bytes, pos + 9, items);
            assert(n as int == items.len());
        },
        JModel::Obj(fields) => {
            let n = fields.len() as u64;
            let b = enc_u64(n);
            let c = enc_json_fields(fields);
            assert(enc_json(m) =~= seq![6u8] + (b + c));
            lemma_split_frame(bytes, pos, seq![6u8], b + c);
            assert(bytes.subrange(pos, pos + 1)[0] == 6u8);
            lemma_split_frame(bytes, pos + 1, b, c);
            lemma_dec_u64_frame(bytes, pos + 1, n);
            lemma_dec_json_pairs_frame(bytes, pos + 9, fields);
            assert(n as int == fields.len());
        },
    }
}

pub proof fn lemma_dec_json_seq_frame(bytes: Seq<u8>, pos: int, items: Seq<JModel>)
    requires
        json_wf_list(items),
        0 <= pos,
        pos + enc_json_list(items).len() <= bytes.len(),
        bytes.subrange(pos, pos + enc_json_list(items).len()) == enc_json_list(items),
    ensures
        dec_json_seq(bytes, pos, items.len() as int) == Some(
            (items, pos + enc_json_list(items).len()),
        ),
    decreases items, 1int,
{
    if items.len() == 0 {
        assert(items =~= Seq::<JModel>::empty());
    } else {
        let rest = items.subrange(1, items.len() as int);
        let head = enc_json(items[0]);
        let tail = enc_json_list(rest);
        assert(enc_json_list(items) == head + tail);
        lemma_split_frame(bytes, pos, head, tail);
        lemma_dec_json_frame(bytes, pos, items[0]);
        lemma_enc_json_len(items[0]);
        lemma_dec_json_seq_frame(bytes, pos + head.len(), rest);
        assert(seq![items[0]] + rest =~= items);
    }
}

pub proof fn lemma_dec_json_pairs_frame(bytes: Seq<u8>, pos: int, fields: Seq<(Seq<char>, JModel)>)
    requires
        json_wf_fields(fields),
        0 <= pos,
        pos + enc_json_fields(fields).len() <= bytes.len(),
        bytes.subrange(pos, pos + enc_json_fields(fields).len()) == enc_json_fields(fields),
    ensures
        dec_json_pairs(bytes, pos, fields.len() as int) == Some(
            (fields, pos + enc_json_fields(fields).len()),
        ),
    decreases fields, 1int,
{
    lemma_auto_spec_u64_to_from_le_bytes();
    if fields.len() == 0 {
        assert(fields =~= Seq::<(Seq<char>, JModel)>::empty());
    } else {
        let rest = fields.subrange(1, fields.len() as int);
        let hk = enc_str(fields[0].0);
        let hv = enc_json(fields[0].1);
        let tail = enc_json_fields(rest);
        assert(enc_json_fields(fields) =~= (hk + hv) + tail);
        assert(enc_json_fields(fields) =~= hk + (hv + tail));
        lemma_split_frame(bytes, pos, hk, hv + tail);
        lemma_dec_str_frame(bytes, pos, fields[0].0);
        lemma_split_frame(bytes, pos + hk.len(), hv, tail);
        lemma_dec_json_frame(bytes, pos + hk.len(), fields[0].1);
        lemma_enc_json_len(fields[0].1);
        lemma_dec_json_pairs_frame(bytes, pos + hk.len() + hv.len(), rest);
        assert(seq![(fields[0].0, fields[0].1)] + rest =~= fields);
    }
}

/// Round trip: a well-formed structured value decodes from its own encoding.
pub proof fn lemma_dec_enc_json(m: JModel)
    requires
        json_wf(m),
    ensures
        dec_json_doc(enc_json(m)) == Some(m),
{
    let bytes = enc_json(m);
    assert(bytes.subrange(0, bytes.len() as int) =~= bytes);
    lemma_dec_json_frame(bytes, 0, m);
}

// ---------------------------------------------------------------------------
// Executable encoders
// ---------------------------------------------------------------------------

/// Appends the canonical form of a string.
pub fn encode_str_into(out: &mut Vec<u8>, s: &str)
    ensures
        final(out)@ == old(out)@ + enc_str(s@),
        str_wf(s@),
{
    let mut bs = s.as_bytes_vec();
    let mut lenb = u64_to_le_bytes(bs.len() as u64);
    out.append(&mut lenb);
    out.append(&mut bs);
    proof {
        assert(final(out)@ =~= old(out)@ + enc_str(s@));
    }
}

/// The canonical serialized form of an atom.
pub fn encode_atom(a: &LogicAtom) -> (r: Vec<u8>)
    ensures
        r@ == enc_atom(a@),
        atom_wf(a@),
{
    let mut out = u16_to_le_bytes(a.op_code);
    let mut cnt = u64_to_le_bytes(a.inputs.len() as u64);
    out.append(&mut cnt);
    let ghost header = enc_u16(a.op_code) + enc_u64(a.inputs.len() as u64);
    proof {
        assert(out@ =~= header);
    }
    let mut i: usize = 0;
    while i < a.inputs.len()
        invariant
            0 <= i <= a.inputs.len(),
            out@ == header + enc_str_list(a.inputs.deep_view().subrange(0, i as int)),
            forall|k: int| 0 <= k < i ==> str_wf(#[trigger] a.inputs.deep_view()[k]),
        decreases a.inputs.len() - i,
    {
        let ghost prefix = a.inputs.deep_view().subrange(0, i as int);
        encode_str_into(&mut out, a.inputs[i].as_str());
        proof {
            assert(a.inputs.deep_view()[i as int] == a.inputs[i as int]@);
            lemma_enc_str_list_snoc(prefix, a.inputs[i as int]@);
            assert(prefix.push(a.inputs[i as int]@) =~= a.inputs.deep_view().subrange(
                0,
                i as int + 1,
            ));
            assert(out@ =~= header + enc_str_list(
                a.inputs.deep_view().subrange(0, i as int + 1),
            ));
        }
        i = i + 1;
    }
    proof {
        assert(a.inputs.deep_view().subrange(0, a.inputs@.len() as int) =~= a.inputs.deep_view());
    }
    encode_str_into(&mut out, a.storage_ref.as_str());
    encode_str_into(&mut out, a.context_id.as_str());
    proof {
        assert(out@ =~= enc_atom(a@));
        assert(a@.inputs.len() == a.inputs@.len());
    }
    out
}

// ---------------------------------------------------------------------------
// Executable decoders
// ---------------------------------------------------------------------------

/// Relies on `String::from_utf8`: returns the decoded string exactly when the
/// bytes are valid UTF-8, and nothing otherwise.
#[verifier::external_body]
pub(crate) fn bytes_to_string(v: Vec<u8>) -> (r: Option<String>)
    ensures
        match r {
            Some(s) => valid_utf8(v@) && s@ == decode_utf8(v@),
            None => !valid_utf8(v@),
        },
{
    String::from_utf8(v).ok()
}

pub fn read_u16(bytes: &[u8], pos: usize) -> (r: Option<(u16, usize)>)
    ensures
        match r {
            Some((x, e)) => dec_u16(bytes@, pos as int) == Some((x, e as int)),
            None => dec_u16(bytes@, pos as int) is None,
        },
{
    if pos <= bytes.len() && bytes.len() - pos >= 2 {
        let sub = slice_subrange(bytes, pos, pos + 2);
        let x = u16_from_le_bytes(sub);
        Some((x, pos + 2))
    } else {
        None
    }
}

pub fn read_u64(bytes: &[u8], pos: usize) -> (r: Option<(u64, usize)>)
    ensures
        match r {
            Some((x, e)) => dec_u64(bytes@, pos as int) == Some((x, e as int)),
            None => dec_u64(bytes@, pos as int) is None,
        },
{
    if pos <= bytes.len() && bytes.len() - pos >= 8 {
        let sub = slice_subrange(bytes, pos, pos + 8);
        let x = u64_from_le_bytes(sub);
        Some((x, pos + 8))
    } else {
        None
    }
}

pub fn read_str(bytes: &[u8], pos: usize) -> (r: Option<(String, usize)>)
    ensures
        match r {
            Some((s, e)) => dec_str(bytes@, pos as int) == Some((s@, e as int)),
            None => dec_str(bytes@, pos as int) is None,
        },
{
    match read_u64(bytes, pos) {
        None => None,
        Some((n, p)) => {
            if n <= (bytes.len() - p) as u64 {
                let n_us = n as usize;
                let sub = slice_subrange(bytes, p, p + n_us);
                let v = slice_to_vec(sub);
                match bytes_to_string(v) {
                    Some(s) => Some((s, p + n_us)),
                    None => None,
                }
            } else {
                None
            }
        },
    }
}

pub fn read_str_list(bytes: &[u8], pos: usize, count: u64) -> (r: Option<(Vec<String>, usize)>)
    ensures
        match r {
            Some((v, e)) => dec_str_list(bytes@, pos as int, count as int) == Some(
                (v.deep_view(), e as int),
            ),
            None => dec_str_list(bytes@, pos as int, count as int) is None,
        },
{
    let mut out: Vec<String> = Vec::new();
    let mut cur = pos;
    let mut left = count;
    loop
        invariant
            dec_str_list(bytes@, pos as int, count as int) == (match dec_str_list(
                bytes@,
                cur as int,
                left as int,
            ) {
                Option::Some((l, e)) => Some((out.deep_view() + l, e)),
                Option::None => None::<(Seq<Seq<char>>, int)>,
            }),
        decreases left,
    {
        if left == 0 {
            proof {
                assert(out.deep_view() + Seq::<Seq<char>>::empty() =~= out.deep_view());
            }
            return Some((out, cur));
        }
        match read_str(bytes, cur) {
            None => {
                return None;
            },
            Some((s, p)) => {
                let ghost prev = out.deep_view();
                out.push(s);
                proof {
                    assert(out.deep_view() =~= prev.push(s@));
                    match dec_str_list(bytes@, p as int, left - 1) {
                        Option::Some(le) => {
                            assert(prev + (seq![s@] + le.0) =~= prev.push(s@) + le.0);
                        },
                        Option::None => {},
                    }
                }
                cur = p;
                left = left - 1;
            },
        }
    }
}

/// Decodes an atom from its canonical serialized form.
pub fn decode_atom(bytes: &[u8]) -> (r: Option<LogicAtom>)
    ensures
        match r {
            Some(a) => dec_atom(bytes@) == Some(a@),
            None => dec_atom(bytes@) is None,
        },
{
    let (op_code, p1) = match read_u16(bytes, 0) {
        Some(x) => x,
        None => {
            return None;
        },
    };
    let (n, p2) = match read_u64(bytes, p1) {
        Some(x) => x,
        None => {
            return None;
        },
    };
    let (inputs, p3) = match read_str_list(bytes, p2, n) {
        Some(x) => x,
        None => {
            return None;
        },
    };
    let (storage_ref, p4) = match read_str(bytes, p3) {
        Some(x) => x,
        None => {
            return None;
        },
    };
    let (context_id, p5) = match read_str(bytes, p4) {
        Some(x) => x,
        None => {
            return None;
        },
    };
    if p5 == bytes.len() {
        Some(LogicAtom { op_code, inputs, storage_ref, context_id })
    } else {
        None
    }
}


/// The canonical serialized form of a structured value.
#[verifier::loop_isolation(false)]
pub fn encode_json(v: &JsonValue) -> (r: Vec<u8>)
    ensures
        r@ == enc_json(jview(*v)),
        json_wf(jview(*v)),
    decreases *v,
{
    match v {
        JsonValue::Null => {
            let mut out: Vec<u8> = Vec::new();
            out.push(0u8);
            proof {
                assert(out@ =~= enc_json(JModel::Null));
            }
            out
        },
        JsonValue::Bool(b) => {
            let mut out: Vec<u8> = Vec::new();
            if *b {
                out.push(2u8);
            } else {
                out.push(1u8);
            }
            proof {
                assert(out@ =~= enc_json(JModel::Bool(*b)));
            }
            out
        },
        JsonValue::Int(x) => {
            let mut out: Vec<u8> = Vec::new();
            out.push(3u8);
            let mut num = u64_to_le_bytes(#[verifier::truncate] (*x as u64));
            out.append(&mut num);
            proof {
                assert(out@ =~= enc_json(JModel::Int(*x)));
            }
            out
        },
        JsonValue::Str(text) => {
            let mut out: Vec<u8> = Vec::new();
            out.push(4u8);
            encode_str_into(&mut out, text.as_str());
            proof {
                assert(out@ =~= enc_json(JModel::Str(text@)));
            }
            out
        },
        JsonValue::Array(items) => {
            let mut out: Vec<u8> = Vec::new();
            out.push(5u8);
            let mut cnt = u64_to_le_bytes(items.len() as u64);
            out.append(&mut cnt);
            let ghost header = seq![5u8] + enc_u64(items@.len() as u64);
            let ghost models = jview_list(items@);
            proof {
                lemma_jview_list(items@);
                assert(out@ =~= header);
                assert(models.subrange(0, 0) =~= Seq::<JModel>::empty());
            }
            let mut i: usize = 0;
            while i < items.len()
                invariant
                    0 <= i <= items@.len(),
                    out@ == header + enc_json_list(models.subrange(0, i as int)),
                    json_wf_list(models.subrange(0, i as int)),
                decreases items@.len() - i,
            {
                proof {
                    assert(decreases_to!(*v => v->Array_0));
                    assert(decreases_to!(*items => items@));
                    assert(decreases_to!(items@ => items@[i as int]));
                }
                let mut piece = encode_json(&items[i]);
                out.append(&mut piece);
                proof {
                    let prefix = models.subrange(0, i as int);
                    lemma_enc_json_list_snoc(prefix, models[i as int]);
                    assert(prefix.push(models[i as int]) =~= models.subrange(0, i as int + 1));
                    assert(out@ =~= header + enc_json_list(models.subrange(0, i as int + 1)));
                }
                i = i + 1;
            }
            proof {
                assert(models.subrange(0, items@.len() as int) =~= models);
                assert(out@ =~= enc_json(jview(*v)));
            }
            out
        },
        JsonValue::Object(fields) => {
            let mut out: Vec<u8> = Vec::new();
            out.push(6u8);
            let mut cnt = u64_to_le_bytes(fields.len() as u64);
            out.append(&mut cnt);
            let ghost header = seq![6u8] + enc_u64(fields@.len() as u64);
            let ghost models = jview_fields(fields@);
            proof {
                lemma_jview_fields(fields@);
                assert(out@ =~= header);
                assert(models.subrange(0, 0) =~= Seq::<(Seq<char>, JModel)>::empty());
            }
            let mut i: usize = 0;
            while i < fields.len()
                invariant
                    0 <= i <= fields@.len(),
                    out@ == header + enc_json_fields(models.subrange(0, i as int)),
                    json_wf_fields(models.subrange(0, i as int)),
                decreases fields@.len() - i,
            {
                proof {
                    assert(decreases_to!(*v => v->Object_0));
                    assert(decreases_to!(*fields => fields@));
                    assert(decreases_to!(fields@ => fields@[i as int]));
                    assert(decreases_to!(fields@[i as int] => fields@[i as int].1));
                }
                encode_str_into(&mut out, fields[i].0.as_str());
                let mut piece = encode_json(&fields[i].1);
                out.append(&mut piece);
                proof {
                    let prefix = models.subrange(0, i as int);
                    let km = models[i as int].0;
                    let vm = models[i as int].1;
                    lemma_enc_json_fields_snoc(prefix, km, vm);
                    assert(prefix.push((km, vm)) =~= models.subrange(0, i as int + 1));
                    assert(out@ =~= header + enc_json_fields(models.subrange(0, i as int + 1)));
                }
                i = i + 1;
            }
            proof {
                assert(models.subrange(0, fields@.len() as int) =~= models);
                assert(out@ =~= enc_json(jview(*v)));
            }
            out
        },
    }
}

/// Decodes one structured value starting at `pos`.
#[verifier::loop_isolation(false)]
#[verifier::rlimit(60)]
pub fn decode_json(bytes: &[u8], pos: usize) -> (r: Option<(JsonValue, usize)>)
    ensures
        match r {
            Some((v, e)) => dec_json(bytes@, pos as int) == Some((jview(v), e as int)),
            None => dec_json(bytes@, pos as int) is None,
        },
    decreases bytes@.len() - pos,
{
    if pos >= bytes.len() {
        return None;
    }
    let tag = *vstd::slice::slice_index_get(bytes, pos);
    let p = pos + 1;
    if tag == 0 {
        Some((JsonValue::Null, p))
    } else if tag == 1 {
        Some((JsonValue::Bool(false), p))
    } else if tag == 2 {
        Some((JsonValue::Bool(true), p))
    } else if tag == 3 {
        match read_u64(bytes, p) {
            None => None,
            Some((x, e)) => Some((JsonValue::Int(#[verifier::truncate] (x as i64)), e)),
        }
    } else if tag == 4 {
        match read_str(bytes, p) {
            None => None,
            Some((text, e)) => Some((JsonValue::Str(text), e)),
        }
    } else if tag == 5 {
        let (n, p2) = match read_u64(bytes, p) {
            None => {
                return None;
            },
            Some(x) => x,
        };
        let mut out: Vec<JsonValue> = Vec::new();
        let mut cur = p2;
        let mut left = n;
        proof {
            assert(jview_list(out@) =~= Seq::<JModel>::empty());
        }
        loop
            invariant
                pos < p2 <= cur <= bytes@.len(),
                dec_json(bytes@, pos as int) == (match dec_json_seq(
                    bytes@,
                    cur as int,
                    left as int,
                ) {
                    Option::Some((l, e)) => Some((JModel::Arr(jview_list(out@) + l), e)),
                    Option::None => None::<(JModel, int)>,
                }),
            decreases left,
        {
            if left == 0 {
                proof {
                    assert(jview_list(out@) + Seq::<JModel>::empty() =~= jview_list(out@));
                }
                return Some((JsonValue::Array(out), cur));
            }
            match decode_json(bytes, cur) {
                None => {
                    return None;
                },
                Some((v, e)) => {
                    if e > cur && e <= bytes.len() {
                        let ghost prev = jview_list(out@);
                        let ghost vm = jview(v);
                        proof {
                            lemma_jview_list(out@);
                            lemma_jview_list(out@.push(v));
                            assert forall|k: int| 0 <= k < out@.len() + 1 implies #[trigger] jview_list(
                                out@.push(v),
                            )[k] == prev.push(vm)[k] by {
                                if k < out@.len() {
                                    assert(out@.push(v)[k] == out@[k]);
                                } else {
                                    assert(out@.push(v)[k] == v);
                                }
                            }
                            assert(jview_list(out@.push(v)) =~= prev.push(vm));
                        }
                        out.push(v);
                        proof {
                            match dec_json_seq(bytes@, e as int, left - 1) {
                                Option::Some(le) => {
                                    assert(prev + (seq![vm] + le.0) =~= prev.push(vm) + le.0);
                                },
                                Option::None => {},
                            }
                        }
                        cur = e;
                        left = left - 1;
                    } else {
                        return None;
                    }
                },
            }
        }
    } else if tag == 6 {
        let (n, p2) = match read_u64(bytes, p) {
            None => {
                return None;
            },
            Some(x) => x,
        };
        let mut out: Vec<(String, JsonValue)> = Vec::new();
        let mut cur = p2;
        let mut left = n;
        proof {
            assert(jview_fields(out@) =~= Seq::<(Seq<char>, JModel)>::empty());
        }
        loop
            invariant
                pos < p2 <= cur <= bytes@.len(),
                dec_json(bytes@, pos as int) == (match dec_json_pairs(
                    bytes@,
                    cur as int,
                    left as int,
                ) {
                    Option::Some((l, e)) => Some((JModel::Obj(jview_fields(out@) + l), e)),
                    Option::None => None::<(JModel, int)>,
                }),
            decreases left,
        {
            if left == 0 {
                proof {
                    assert(jview_fields(out@) + Seq::<(Seq<char>, JModel)>::empty() =~= jview_fields(
                        out@,
                    ));
                }
                return Some((JsonValue::Object(out), cur));
            }
            let (key, pk) = match read_str(bytes, cur) {
                None => {
                    return None;
                },
                Some(x) => x,
            };
            if !(pk > cur && pk <= bytes.len()) {
                return None;
            }
            match decode_json(bytes, pk) {
                None => {
                    return None;
                },
                Some((v, e)) => {
                    if e >= pk && e <= bytes.len() {
                        let ghost prev = jview_fields(out@);
                        let ghost km = key@;
                        let ghost vm = jview(v);
                        proof {
                            lemma_jview_fields(out@);
                            lemma_jview_fields(out@.push((key, v)));
                            assert forall|k: int| 0 <= k < out@.len() + 1 implies #[trigger] jview_fields(
                                out@.push((key, v)),
                            )[k] == prev.push((km, vm))[k] by {
                                if k < out@.len() {
                                    assert(out@.push((key, v))[k] == out@[k]);
                                } else {
                                    assert(out@.push((key, v))[k] == (key, v));
                                }
                            }
                            assert(jview_fields(out@.push((key, v))) =~= prev.push((km, vm)));
                        }
                        out.push((key, v));
                        proof {
                            match dec_json_pairs(bytes@, e as int, left - 1) {
                                Option::Some(le) => {
                                    assert(prev + (seq![(km, vm)] + le.0) =~= prev.push((km, vm))
                                        + le.0);
                                },
                                Option::None => {},
                            }
                        }
                        cur = e;
                        left = left - 1;
                    } else {
                        return None;
                    }
                },
            }
        }
    } else {
        None
    }
}

/// Decodes a whole byte string as one structured value.
pub fn decode_json_doc(bytes: &[u8]) -> (r: Option<JsonValue>)
    ensures
        match r {
            Some(v) => dec_json_doc(bytes@) == Some(jview(v)),
            None => dec_json_doc(bytes@) is None,
        },
{
    match decode_json(bytes, 0) {
        None => None,
        Some((v, e)) => {
            if e == bytes.len() {
                Some(v)
            } else {
                None
            }
        },
    }
}


// ---------------------------------------------------------------------------
// Identity, project and I/O-contract records
// ---------------------------------------------------------------------------

pub open spec fn identity_wf(m: IdentityModel) -> bool {
    &&& str_wf(m.public_key)
    &&& str_wf(m.role)
    &&& str_wf(m.org_hash)
    &&& m.access_nodes.len() < len_limit()
    &&& forall|i: int| 0 <= i < m.access_nodes.len() ==> str_wf(#[trigger] m.access_nodes[i])
}

pub open spec fn enc_identity(m: IdentityModel) -> Seq<u8> {
    enc_str(m.public_key) + enc_str(m.role) + enc_str(m.org_hash) + enc_u64(
        m.access_nodes.len() as u64,
    ) + enc_str_list(m.access_nodes)
}

pub open spec fn dec_identity(bytes: Seq<u8>) -> Option<IdentityModel> {
    match dec_str(bytes, 0) {
        Option::None => None,
        Option::Some((public_key, p1)) => {
            match dec_str(bytes, p1) {
                Option::None => None,
                Option::Some((role, p2)) => {
                    match dec_str(bytes, p2) {
                        Option::None => None,
                        Option::Some((org_hash, p3)) => {
                            match dec_u64(bytes, p3) {
                                Option::None => None,
                                Option::Some((n, p4)) => {
                                    match dec_str_list(bytes, p4, n as int) {
                                        Option::None => None,
                                        Option::Some((access_nodes, p5)) => {
                                            if p5 == bytes.len() {
                                                Some(
                                                    IdentityModel {
                                                        public_key,
                                                        role,
                                                        org_hash,
                                                        access_nodes,
                                                    },
                                                )
                                            } else {
                                                None
                                            }
                                        },
                                    }
                                },
                            }
                        },
                    }
                },
            }
        },
    }
}

#[verifier::rlimit(60)]
#[verifier::spinoff_prover]
pub proof fn lemma_dec_enc_identity(m: IdentityModel)
    requires
        identity_wf(m),
    ensures
        dec_identity(enc_identity(m)) == Some(m),
{
    lemma_auto_spec_u64_to_from_le_bytes();
    let bytes = enc_identity(m);
    let a = enc_str(m.public_key);
    let b = enc_str(m.role);
    let c = enc_str(m.org_hash);
    let d = enc_u64(m.access_nodes.len() as u64);
    let e = enc_str_list(m.access_nodes);
    assert(bytes.subrange(0, bytes.len() as int) =~= bytes);
    assert(bytes =~= a + (b + (c + (d + e))));
    lemma_split_frame(bytes, 0, a, b + (c + (d + e)));
    lemma_dec_str_frame(bytes, 0, m.public_key);
    let p1 = a.len() as int;
    lemma_split_frame(bytes, p1, b, c + (d + e));
    lemma_dec_str_frame(bytes, p1, m.role);
    let p2 = p1 + b.len();
    lemma_split_frame(bytes, p2, c, d + e);
    lemma_dec_str_frame(bytes, p2, m.org_hash);
    let p3 = p2 + c.len();
    lemma_split_frame(bytes, p3, d, e);
    lemma_dec_u64_frame(bytes, p3, m.access_nodes.len() as u64);
    let p4 = p3 + d.len();
    lemma_dec_str_list_frame(bytes, p4, m.access_nodes);
    assert(p4 + e.len() == bytes.len());
    assert(m.access_nodes.len() as u64 as int == m.access_nodes.len());
}

/// The canonical serialized form of an identity record.
#[verifier::loop_isolation(false)]
pub fn encode_identity(idn: &IdentityAtom) -> (r: Vec<u8>)
    ensures
        r@ == enc_identity(idn@),
        identity_wf(idn@),
{
    let mut out: Vec<u8> = Vec::new();
    encode_str_into(&mut out, idn.public_key.as_str());
    encode_str_into(&mut out, idn.role.as_str());
    encode_str_into(&mut out, idn.org_hash.as_str());
    let mut cnt = u64_to_le_bytes(idn.access_nodes.len() as u64);
    out.append(&mut cnt);
    let ghost header = enc_str(idn.public_key@) + enc_str(idn.role@) + enc_str(idn.org_hash@)
        + enc_u64(idn.access_nodes@.len() as u64);
    proof {
        assert(out@ =~= header);
    }
    let mut i: usize = 0;
    while i < idn.access_nodes.len()
        invariant
            0 <= i <= idn.access_nodes@.len(),
            out@ == header + enc_str_list(idn.access_nodes.deep_view().subrange(0, i as int)),
            forall|k: int| 0 <= k < i ==> str_wf(#[trigger] idn.access_nodes.deep_view()[k]),
        decreases idn.access_nodes@.len() - i,
    {
        let ghost prefix = idn.access_nodes.deep_view().subrange(0, i as int);
        encode_str_into(&mut out, idn.access_nodes[i].as_str());
        proof {
            assert(idn.access_nodes.deep_view()[i as int] == idn.access_nodes[i as int]@);
            lemma_enc_str_list_snoc(prefix, idn.access_nodes[i as int]@);
            assert(prefix.push(idn.access_nodes[i as int]@) =~= idn.access_nodes.deep_view()
                .subrange(0, i as int + 1));
            assert(out@ =~= header + enc_str_list(
                idn.access_nodes.deep_view().subrange(0, i as int + 1),
            ));
        }
        i = i + 1;
    }
    proof {
        assert(idn.access_nodes.deep_view().subrange(0, idn.access_nodes@.len() as int)
            =~= idn.access_nodes.deep_view());
        assert(out@ =~= enc_identity(idn@));
    }
    out
}

/// Decodes an identity record from its canonical serialized form.
pub fn decode_identity(bytes: &[u8]) -> (r: Option<IdentityAtom>)
    ensures
        match r {
            Some(idn) => dec_identity(bytes@) == Some(idn@),
            None => dec_identity(bytes@) is None,
        },
{
    let (public_key, p1) = match read_str(bytes, 0) {
        Some(x) => x,
        None => {
            return None;
        },
    };
    let (role, p2) = match read_str(bytes, p1) {
        Some(x) => x,
        None => {
            return None;
        },
    };
    let (org_hash, p3) = match read_str(bytes, p2) {
        Some(x) => x,
        None => {
            return None;
        },
    };
    let (n, p4) = match read_u64(bytes, p3) {
        Some(x) => x,
        None => {
            return None;
        },
    };
    let (access_nodes, p5) = match read_str_list(bytes, p4, n) {
        Some(x) => x,
        None => {
            return None;
        },
    };
    if p5 == bytes.len() {
        Some(IdentityAtom { public_key, role, org_hash, access_nodes })
    } else {
        None
    }
}

/// The byte a project status is stored as.
pub open spec fn status_byte(s: ProjectStatus) -> u8 {
    match s {
        ProjectStatus::Building => 0u8,
        ProjectStatus::Active => 1u8,
        ProjectStatus::Archived => 2u8,
    }
}

pub open spec fn project_wf(m: ProjectModel) -> bool {
    &&& str_wf(m.name)
    &&& str_wf(m.root_hash)
    &&& str_wf(m.org_hash)
}

pub open spec fn enc_project(m: ProjectModel) -> Seq<u8> {
    enc_str(m.name) + enc_str(m.root_hash) + enc_str(m.org_hash) + seq![status_byte(m.status)]
        + enc_u64(m.created_at)
}

pub open spec fn dec_status(b: u8) -> Option<ProjectStatus> {
    if b == 0 {
        Some(ProjectStatus::Building)
    } else if b == 1 {
        Some(ProjectStatus::Active)
    } else if b == 2 {
        Some(ProjectStatus::Archived)
    } else {
        None
    }
}

pub open spec fn dec_project(bytes: Seq<u8>) -> Option<ProjectModel> {
    match dec_str(bytes, 0) {
        Option::None => None,
        Option::Some((name, p1)) => {
            match dec_str(bytes, p1) {
                Option::None => None,
                Option::Some((root_hash, p2)) => {
                    match dec_str(bytes, p2) {
                        Option::None => None,
                        Option::Some((org_hash, p3)) => {
                            if p3 + 1 <= bytes.len() {
                                match dec_status(bytes[p3]) {
                                    Option::None => None,
                                    Option::Some(status) => {
                                        match dec_u64(bytes, p3 + 1) {
                                            Option::None => None,
                                            Option::Some((created_at, p4)) => {
                                                if p4 == bytes.len() {
                                                    Some(
                                                        ProjectModel {
                                                            name,
                                                            root_hash,
                                                            org_hash,
                                                            status,
                                                            created_at,
                                                        },
                                                    )
                                                } else {
                                                    None
                                                }
                                            },
                                        }
                                    },
                                }
                            } else {
                                None
                            }
                        },
                    }
                },
            }
        },
    }
}

#[verifier::rlimit(60)]
#[verifier::spinoff_prover]
pub proof fn lemma_dec_enc_project(m: ProjectModel)
    requires
        project_wf(m),
    ensures
        dec_project(enc_project(m)) == Some(m),
{
    lemma_auto_spec_u64_to_from_le_bytes();
    let bytes = enc_project(m);
    let a = enc_str(m.name);
    let b = enc_str(m.root_hash);
    let c = enc_str(m.org_hash);
    let d = seq![status_byte(m.status)];
    let e = enc_u64(m.created_at);
    assert(bytes.subrange(0, bytes.len() as int) =~= bytes);
    assert(bytes =~= a + (b + (c + (d + e))));
    lemma_split_frame(bytes, 0, a, b + (c + (d + e)));
    lemma_dec_str_frame(bytes, 0, m.name);
    let p1 = a.len() as int;
    lemma_split_frame(bytes, p1, b, c + (d + e));
    lemma_dec_str_frame(bytes, p1, m.root_hash);
    let p2 = p1 + b.len();
    lemma_split_frame(bytes, p2, c, d + e);
    lemma_dec_str_frame(bytes, p2, m.org_hash);
    let p3 = p2 + c.len();
    lemma_split_frame(bytes, p3, d, e);
    assert(bytes.subrange(p3, p3 + 1)[0] == status_byte(m.status));
    lemma_dec_u64_frame(bytes, p3 + 1, m.created_at);
}

/// The canonical serialized form of a project record.
pub fn encode_project(p: &ProjectAtom) -> (r: Vec<u8>)
    ensures
        r@ == enc_project(p@),
        project_wf(p@),
{
    let mut out: Vec<u8> = Vec::new();
    encode_str_into(&mut out, p.name.as_str());
    encode_str_into(&mut out, p.root_hash.as_str());
    encode_str_into(&mut out, p.org_hash.as_str());
    match p.status {
        ProjectStatus::Building => out.push(0u8),
        ProjectStatus::Active => out.push(1u8),
        ProjectStatus::Archived => out.push(2u8),
    }
    let mut ts = u64_to_le_bytes(p.created_at);
    out.append(&mut ts);
    proof {
        assert(out@ =~= enc_project(p@));
    }
    out
}

/// Decodes a project record from its canonical serialized form.
pub fn decode_project(bytes: &[u8]) -> (r: Option<ProjectAtom>)
    ensures
        match r {
            Some(p) => dec_project(bytes@) == Some(p@),
            None => dec_project(bytes@) is None,
        },
{
    let (name, p1) = match read_str(bytes, 0) {
        Some(x) => x,
        None => {
            return None;
        },
    };
    let (root_hash, p2) = match read_str(bytes, p1) {
        Some(x) => x,
        None => {
            return None;
        },
    };
    let (org_hash, p3) = match read_str(bytes, p2) {
        Some(x) => x,
        None => {
            return None;
        },
    };
    if p3 >= bytes.len() {
        return None;
    }
    let sb = *vstd::slice::slice_index_get(bytes, p3);
    let status = if sb == 0 {
        ProjectStatus::Building
    } else if sb == 1 {
        ProjectStatus::Active
    } else if sb == 2 {
        ProjectStatus::Archived
    } else {
        return None;
    };
    let (created_at, p4) = match read_u64(bytes, p3 + 1) {
        Some(x) => x,
        None => {
            return None;
        },
    };
    if p4 == bytes.len() {
        Some(ProjectAtom { name, root_hash, org_hash, status, created_at })
    } else {
        None
    }
}

pub open spec fn contract_wf(m: ContractModel) -> bool {
    &&& str_wf(m.endpoint)
    &&& json_wf(m.schema)
}

pub open spec fn enc_contract(m: ContractModel) -> Seq<u8> {
    enc_str(m.endpoint) + seq![m.sensitivity] + enc_json(m.schema)
}

pub open spec fn dec_contract(bytes: Seq<u8>) -> Option<ContractModel> {
    match dec_str(bytes, 0) {
        Option::None => None,
        Option::Some((endpoint, p1)) => {
            if p1 + 1 <= bytes.len() {
                let sensitivity = bytes[p1];
                match dec_json(bytes, p1 + 1) {
                    Option::None => None,
                    Option::Some((schema, p2)) => {
                        if p2 == bytes.len() {
                            Some(ContractModel { endpoint, schema, sensitivity })
                        } else {
                            None
                        }
                    },
                }
            } else {
                None
            }
        },
    }
}

#[verifier::rlimit(60)]
#[verifier::spinoff_prover]
pub proof fn lemma_dec_enc_contract(m: ContractModel)
    requires
        contract_wf(m),
    ensures
        dec_contract(enc_contract(m)) == Some(m),
{
    let bytes = enc_contract(m);
    let a = enc_str(m.endpoint);
    let b = seq![m.sensitivity];
    let c = enc_json(m.schema);
    assert(bytes.subrange(0, bytes.len() as int) =~= bytes);
    assert(bytes =~= a + (b + c));
    lemma_split_frame(bytes, 0, a, b + c);
    lemma_dec_str_frame(bytes, 0, m.endpoint);
    let p1 = a.len() as int;
    lemma_split_frame(bytes, p1, b, c);
    assert(bytes.subrange(p1, p1 + 1)[0] == m.sensitivity);
    lemma_dec_json_frame(bytes, p1 + 1, m.schema);
}

/// The canonical serialized form of an I/O contract.
pub fn encode_contract(c: &IOContract) -> (r: Vec<u8>)
    ensures
        r@ == enc_contract(c@),
        contract_wf(c@),
{
    let mut out: Vec<u8> = Vec::new();
    encode_str_into(&mut out, c.endpoint.as_str());
    out.push(c.sensitivity);
    let mut schema = encode_json(&c.schema);
    out.append(&mut schema);
    proof {
        assert(out@ =~= enc_contract(c@));
    }
    out
}

/// Decodes an I/O contract from its canonical serialized form.
pub fn decode_contract(bytes: &[u8]) -> (r: Option<IOContract>)
    ensures
        match r {
            Some(c) => dec_contract(bytes@) == Some(c@),
            None => dec_contract(bytes@) is None,
        },
{
    let (endpoint, p1) = match read_str(bytes, 0) {
        Some(x) => x,
        None => {
            return None;
        },
    };
    if p1 >= bytes.len() {
        return None;
    }
    let sensitivity = *vstd::slice::slice_index_get(bytes, p1);
    let (schema, p2) = match decode_json(bytes, p1 + 1) {
        Some(x) => x,
        None => {
            return None;
        },
    };
    if p2 == bytes.len() {
        Some(IOContract { endpoint, schema, sensitivity })
    } else {
        None
    }
}

} // verus!
