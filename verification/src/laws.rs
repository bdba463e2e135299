//! The laws the engine is built around, each proved from the contracts the
//! components state.

use vstd::prelude::*;
use crate::AtomModel;
use crate::codec::enc_atom;
use crate::json::JModel;
use crate::codec::{enc_json, dec_json_doc, json_wf, json_wf_list, json_wf_fields, str_wf, atom_wf, dec_atom, lemma_dec_enc_atom, lemma_dec_enc_json};
use crate::json::{jfield, jobj_get, j_as_int, j_as_str};
use crate::kernel::{eval, eval_inputs, eval_op, filter_models, filter_pred, str_or_empty, EvalErr};
use crate::manifest::{ImportModel, NodeModel};
use crate::orchestrator::{BErr, BuildState, build_nodes, build_step, import_map};
use crate::vault::{ValKind, atom_hash, atom_key, check_inputs, merkle_level, merkle_parent, merkle_root};

verus! {

/// Content addressing: an atom's address is a function of its fields alone,
/// so persisting bit-identical atoms yields one address, and writing the
/// record twice leaves the store exactly as one write would.
pub proof fn lemma_content_addressing(store: Map<Seq<u8>, Seq<u8>>, a: AtomModel, b: AtomModel)
    requires
        a == b,
    ensures
        atom_hash(a) == atom_hash(b),
        store.insert(atom_key(atom_hash(a)), enc_atom(a)).insert(
            atom_key(atom_hash(b)),
            enc_atom(b),
        ) == store.insert(atom_key(atom_hash(a)), enc_atom(a)),
{
    assert(store.insert(atom_key(atom_hash(a)), enc_atom(a)).insert(
        atom_key(atom_hash(b)),
        enc_atom(b),
    ) =~= store.insert(atom_key(atom_hash(a)), enc_atom(a)));
}

/// What was persisted is what a later fetch decodes: the canonical bytes
/// stored under an atom's address decode back to the very atom.
pub proof fn lemma_fetch_after_persist(store: Map<Seq<u8>, Seq<u8>>, m: AtomModel)
    requires
        crate::codec::atom_wf(m),
    ensures
        ({
            let stored = store.insert(atom_key(atom_hash(m)), enc_atom(m));
            &&& stored.contains_key(atom_key(atom_hash(m)))
            &&& crate::codec::dec_atom(stored[atom_key(atom_hash(m))]) == Some(m)
        }),
{
    crate::codec::lemma_dec_enc_atom(m);
}

/// Context isolation, permissive half: when every declared input is stored,
/// readable, and tagged either global or with the atom's own context, input
/// resolution succeeds.
pub proof fn lemma_global_inputs_admitted(
    inputs: Seq<Seq<char>>,
    ctx: Seq<char>,
    store: Map<Seq<u8>, Seq<u8>>,
)
    requires
        forall|i: int|
            0 <= i < inputs.len() ==> {
                let key = atom_key(#[trigger] inputs[i]);
                &&& store.contains_key(key)
                &&& crate::codec::dec_atom(store[key]) is Some
                &&& {
                    let c = crate::codec::dec_atom(store[key])->Some_0.context_id;
                    c == crate::spec_global_context() || c == ctx
                }
            },
    ensures
        check_inputs(inputs, ctx, store) is Ok,
    decreases inputs,
{
    if inputs.len() > 0 {
        let rest = inputs.subrange(1, inputs.len() as int);
        assert(inputs[0] == inputs[0]);
        assert forall|i: int| 0 <= i < rest.len() implies {
            let key = atom_key(#[trigger] rest[i]);
            &&& store.contains_key(key)
            &&& crate::codec::dec_atom(store[key]) is Some
            &&& {
                let c = crate::codec::dec_atom(store[key])->Some_0.context_id;
                c == crate::spec_global_context() || c == ctx
            }
        } by {
            assert(rest[i] == inputs[i + 1]);
        }
        lemma_global_inputs_admitted(rest, ctx, store);
    }
}

/// Context isolation, restrictive half: the first stored, readable input
/// whose context is neither global nor the atom's own gets the whole
/// resolution rejected with a context-isolation verdict naming both sides.
pub proof fn lemma_cross_context_rejected(
    inputs: Seq<Seq<char>>,
    ctx: Seq<char>,
    store: Map<Seq<u8>, Seq<u8>>,
    k: int,
)
    requires
        0 <= k < inputs.len(),
        forall|i: int|
            0 <= i < k ==> {
                let key = atom_key(#[trigger] inputs[i]);
                &&& store.contains_key(key)
                &&& crate::codec::dec_atom(store[key]) is Some
                &&& {
                    let c = crate::codec::dec_atom(store[key])->Some_0.context_id;
                    c == crate::spec_global_context() || c == ctx
                }
            },
        store.contains_key(atom_key(inputs[k])),
        crate::codec::dec_atom(store[atom_key(inputs[k])]) is Some,
        crate::codec::dec_atom(store[atom_key(inputs[k])])->Some_0.context_id
            != crate::spec_global_context(),
        crate::codec::dec_atom(store[atom_key(inputs[k])])->Some_0.context_id != ctx,
    ensures
        check_inputs(inputs, ctx, store) == Err::<Seq<AtomModel>, ValKind>(
            ValKind::ContextIsolation(
                ctx,
                crate::codec::dec_atom(store[atom_key(inputs[k])])->Some_0.context_id,
            ),
        ),
    decreases k,
{
    let rest = inputs.subrange(1, inputs.len() as int);
    if k == 0 {
    } else {
        assert forall|i: int| 0 <= i < k - 1 implies {
            let key = atom_key(#[trigger] rest[i]);
            &&& store.contains_key(key)
            &&& crate::codec::dec_atom(store[key]) is Some
            &&& {
                let c = crate::codec::dec_atom(store[key])->Some_0.context_id;
                c == crate::spec_global_context() || c == ctx
            }
        } by {
            assert(rest[i] == inputs[i + 1]);
        }
        assert(rest[k - 1] == inputs[k]);
        lemma_cross_context_rejected(rest, ctx, store, k - 1);
        assert(inputs[0] == inputs[0]);
    }
}

/// The batch digest of three atoms follows the odd-count duplication rule:
/// the root combines the pair of the first two digests with the third
/// paired against itself.
pub proof fn lemma_batch_of_three(h1: Seq<char>, h2: Seq<char>, h3: Seq<char>)
    ensures
        merkle_root(seq![h1, h2, h3]) == merkle_parent(merkle_parent(h1, h2), merkle_parent(
            h3,
            h3,
        )),
{
    let level0 = seq![h1, h2, h3];
    let tail = level0.subrange(2, 3);
    assert(tail.len() == 1 && tail[0] == h3);
    assert(level0[0] == h1 && level0[1] == h2);
    assert(level0.subrange(2, level0.len() as int) =~= tail);
    assert(merkle_level(tail) =~= seq![merkle_parent(h3, h3)]);
    let level1 = merkle_level(level0);
    assert(level1 == seq![merkle_parent(h1, h2)] + merkle_level(tail));
    assert(level1 =~= seq![merkle_parent(h1, h2), merkle_parent(h3, h3)]);
    assert(level1[0] == merkle_parent(h1, h2) && level1[1] == merkle_parent(h3, h3));
    assert(level1.subrange(2, level1.len() as int) =~= Seq::<Seq<char>>::empty());
    assert(merkle_level(Seq::<Seq<char>>::empty()) =~= Seq::<Seq<char>>::empty());
    let level2 = merkle_level(level1);
    assert(level2 == seq![merkle_parent(level1[0], level1[1])] + merkle_level(
        level1.subrange(2, level1.len() as int),
    ));
    assert(level2 =~= seq![merkle_parent(merkle_parent(h1, h2), merkle_parent(h3, h3))]);
    assert(merkle_root(level0) == merkle_root(level1));
    assert(merkle_root(level1) == merkle_root(level2));
    assert(merkle_root(level2) == level2[0]);
}

/// Manifest inheritance, import half: the import table of a merged manifest
/// binds every child-declared name to the child's hash — appending the
/// child's imports after the parent's makes the child's binding win.
pub proof fn lemma_import_map_append(p: Seq<ImportModel>, c: Seq<ImportModel>)
    ensures
        import_map(p + c) == import_map(p).union_prefer_right(import_map(c)),
    decreases c,
{
    if c.len() == 0 {
        assert(p + c =~= p);
        assert(import_map(p).union_prefer_right(import_map(c)) =~= import_map(p));
    } else {
        let shorter = c.drop_last();
        lemma_import_map_append(p, shorter);
        assert((p + c).drop_last() =~= p + shorter);
        assert((p + c).last() == c.last());
        assert(import_map(p + c) == import_map(p + shorter).insert(c.last().name, c.last().hash));
        assert(import_map(p).union_prefer_right(import_map(shorter)).insert(
            c.last().name,
            c.last().hash,
        ) =~= import_map(p).union_prefer_right(
            import_map(shorter).insert(c.last().name, c.last().hash),
        ));
    }
}

/// A name the child declares resolves to the child's binding, whatever the
/// parent declared under it.
pub proof fn lemma_child_import_wins(p: Seq<ImportModel>, c: Seq<ImportModel>, name: Seq<char>)
    requires
        import_map(c).contains_key(name),
    ensures
        import_map(p + c).contains_key(name),
        import_map(p + c)[name] == import_map(c)[name],
{
    lemma_import_map_append(p, c);
}

/// Manifest inheritance, node half: building a merged node list processes
/// every parent node, in order, strictly before any child node — the build
/// of the concatenation is the build of the parent continued with the build
/// of the child from the state the parent left.
pub proof fn lemma_build_split(
    p: Seq<NodeModel>,
    c: Seq<NodeModel>,
    app: Seq<char>,
    imports: Map<Seq<char>, Seq<char>>,
    st: BuildState,
)
    ensures
        build_nodes(p + c, app, imports, st) == (match build_nodes(p, app, imports, st) {
            Ok(st2) => build_nodes(c, app, imports, st2),
            Err(e) => Err(e),
        }),
    decreases p,
{
    if p.len() == 0 {
        assert(p + c =~= c);
    } else {
        assert((p + c)[0] == p[0]);
        match build_step(p[0], app, imports, st) {
            Ok(st2) => {
                assert((p + c).subrange(1, (p + c).len() as int) =~= p.subrange(
                    1,
                    p.len() as int,
                ) + c);
                lemma_build_split(p.subrange(1, p.len() as int), c, app, imports, st2);
            },
            Err(_) => {
            },
        }
    }
}

/// A gateway atom with no input evaluates to a well-formed error-shaped
/// value rather than failing the evaluation.
pub proof fn lemma_gateway_soft(
    store: Map<Seq<u8>, Seq<u8>>,
    blobs: Map<Seq<char>, Seq<u8>>,
    io: Map<Seq<char>, JModel>,
    fuel: nat,
    hash: Seq<char>,
)
    requires
        fuel >= 1,
        store.contains_key(atom_key(hash)),
        crate::codec::dec_atom(store[atom_key(hash)]) is Some,
        crate::codec::dec_atom(store[atom_key(hash)])->Some_0.op_code == crate::OP_GATEWAY,
        crate::codec::dec_atom(store[atom_key(hash)])->Some_0.inputs.len() == 0,
    ensures
        eval(store, blobs, io, fuel, hash) == Ok::<JModel, EvalErr>(
            JModel::Obj(seq![("error"@, JModel::Str("Gateway has no input resonance"@))]),
        ),
{
    let a = crate::codec::dec_atom(store[atom_key(hash)])->Some_0;
    assert(eval_inputs(store, blobs, io, (fuel - 1) as nat, a.inputs) == Ok::<Seq<JModel>, EvalErr>(
        Seq::empty(),
    ));
    assert(eval_op(store, blobs, io, hash, a, Seq::empty()) == Ok::<JModel, EvalErr>(
        JModel::Obj(seq![("error"@, JModel::Str("Gateway has no input resonance"@))]),
    ));
}


/// An end-to-end filter evaluation: with a source atom whose payload is the
/// two-listing array and a filter atom over it comparing the integer field
/// against the bound, evaluating the filter against the store holding
/// exactly those two records and their payloads yields exactly the passing
/// listing. The hypotheses name the two content addresses and ask only what
/// the digest function guarantees at run time: well-formed, distinct
/// addresses.
#[verifier::rlimit(100)]
#[verifier::spinoff_prover]
pub proof fn lemma_filter_evaluation_instance(h_src: Seq<char>, h_flt: Seq<char>)
    requires
        h_src == atom_hash(
            AtomModel {
                op_code: 50,
                inputs: Seq::empty(),
                storage_ref: "local://rows"@,
                context_id: "global"@,
            },
        ),
        h_flt == atom_hash(
            AtomModel {
                op_code: 2,
                inputs: seq![h_src],
                storage_ref: "local://sieve"@,
                context_id: "global"@,
            },
        ),
        str_wf(h_src),
        atom_key(h_src) != atom_key(h_flt),
    ensures
        ({
            let row_hi = JModel::Obj(seq![("built"@, JModel::Int(2021))]);
            let row_lo = JModel::Obj(seq![("built"@, JModel::Int(2019))]);
            let rows = JModel::Arr(seq![row_hi, row_lo]);
            let cfg = JModel::Obj(
                seq![
                    ("field"@, JModel::Str("built"@)),
                    ("op"@, JModel::Str(">"@)),
                    ("val"@, JModel::Int(2020)),
                ],
            );
            let src = AtomModel {
                op_code: 50,
                inputs: Seq::empty(),
                storage_ref: "local://rows"@,
                context_id: "global"@,
            };
            let flt = AtomModel {
                op_code: 2,
                inputs: seq![h_src],
                storage_ref: "local://sieve"@,
                context_id: "global"@,
            };
            let store = Map::<Seq<u8>, Seq<u8>>::empty().insert(
                atom_key(h_src),
                enc_atom(src),
            ).insert(atom_key(h_flt), enc_atom(flt));
            let blobs = Map::<Seq<char>, Seq<u8>>::empty().insert(
                "local://rows"@,
                enc_json(rows),
            ).insert("local://sieve"@, enc_json(cfg));
            eval(store, blobs, Map::empty(), 2, h_flt) == Ok::<JModel, EvalErr>(
                JModel::Arr(seq![row_hi]),
            )
        }),
{
    reveal_strlit("local://rows");
    reveal_strlit("local://sieve");
    reveal_strlit("built");
    reveal_strlit("field");
    reveal_strlit("op");
    reveal_strlit("val");
    let row_hi = JModel::Obj(seq![("built"@, JModel::Int(2021))]);
    let row_lo = JModel::Obj(seq![("built"@, JModel::Int(2019))]);
    let rows = JModel::Arr(seq![row_hi, row_lo]);
    let cfg = JModel::Obj(
        seq![
            ("field"@, JModel::Str("built"@)),
            ("op"@, JModel::Str(">"@)),
            ("val"@, JModel::Int(2020)),
        ],
    );
    let src = AtomModel {
        op_code: 50,
        inputs: Seq::empty(),
        storage_ref: "local://rows"@,
        context_id: "global"@,
    };
    let flt = AtomModel {
        op_code: 2,
        inputs: seq![h_src],
        storage_ref: "local://sieve"@,
        context_id: "global"@,
    };
    let store = Map::<Seq<u8>, Seq<u8>>::empty().insert(atom_key(h_src), enc_atom(src)).insert(
        atom_key(h_flt),
        enc_atom(flt),
    );
    let blobs = Map::<Seq<char>, Seq<u8>>::empty().insert("local://rows"@, enc_json(rows)).insert(
        "local://sieve"@,
        enc_json(cfg),
    );
    let io = Map::<Seq<char>, JModel>::empty();

    // The two payload references differ, so the blob map keeps both.
    assert("local://rows"@.len() == 12);
    assert("local://sieve"@.len() == 13);
    assert("local://rows"@ != "local://sieve"@);
    assert(blobs["local://rows"@] == enc_json(rows));
    assert(blobs["local://sieve"@] == enc_json(cfg));

    // Both records are well formed, so they decode from their own bytes.
    lemma_small_strs();
    assert(atom_wf(src)) by {
        assert(forall|i: int| 0 <= i < src.inputs.len() ==> str_wf(#[trigger] src.inputs[i]));
    }
    assert(atom_wf(flt)) by {
        assert(flt.inputs[0] == h_src);
        assert(forall|i: int| 0 <= i < flt.inputs.len() ==> str_wf(#[trigger] flt.inputs[i]));
    }
    lemma_dec_enc_atom(src);
    lemma_dec_enc_atom(flt);
    assert(store[atom_key(h_flt)] == enc_atom(flt));
    assert(store[atom_key(h_src)] == enc_atom(src));
    assert(dec_atom(store[atom_key(h_flt)]) == Some(flt));
    assert(dec_atom(store[atom_key(h_src)]) == Some(src));

    // Both payloads are well formed, so they decode from their own bytes.
    lemma_wf_int_row("built"@, 2021);
    lemma_wf_int_row("built"@, 2019);
    assert(json_wf(rows)) by {
        assert(seq![row_hi, row_lo][0] == row_hi);
        assert(seq![row_hi, row_lo].subrange(1, 2) =~= seq![row_lo]);
        assert(seq![row_lo][0] == row_lo);
        assert(seq![row_lo].subrange(1, 1) =~= Seq::<JModel>::empty());
        assert(json_wf_list(Seq::<JModel>::empty()));
        assert(json_wf_list(seq![row_lo]));
        assert(json_wf_list(seq![row_hi, row_lo]));
    }
    assert(json_wf(cfg)) by {
        reveal_strlit(">");
        lemma_ascii_wf(">"@);
        let fields = cfg->Obj_0;
        let tail2 = seq![("op"@, JModel::Str(">"@)), ("val"@, JModel::Int(2020))];
        let tail1 = seq![("val"@, JModel::Int(2020))];
        assert(fields.subrange(1, 3) =~= tail2);
        assert(tail2.subrange(1, 2) =~= tail1);
        assert(tail1.subrange(1, 1) =~= Seq::<(Seq<char>, JModel)>::empty());
        assert(json_wf_fields(Seq::<(Seq<char>, JModel)>::empty()));
        assert(tail1[0] == ("val"@, JModel::Int(2020)));
        assert(json_wf(JModel::Int(2020)));
        assert(json_wf_fields(tail1));
        assert(tail2[0] == ("op"@, JModel::Str(">"@)));
        assert(json_wf(JModel::Str(">"@)));
        assert(json_wf_fields(tail2));
        assert(fields[0] == ("field"@, JModel::Str("built"@)));
        assert(json_wf(JModel::Str("built"@)));
        assert(json_wf_fields(fields));
    }
    lemma_dec_enc_json(rows);
    lemma_dec_enc_json(cfg);

    // The source atom evaluates to the listing array.
    assert(eval_inputs(store, blobs, io, 0, src.inputs) == Ok::<Seq<JModel>, EvalErr>(
        Seq::empty(),
    ));
    assert(eval_op(store, blobs, io, h_src, src, Seq::empty()) == Ok::<JModel, EvalErr>(rows));
    assert(eval(store, blobs, io, 1, h_src) == Ok::<JModel, EvalErr>(rows));

    // The filter's one input evaluates to that array.
    assert(flt.inputs[0] == h_src);
    assert(flt.inputs.subrange(1, 1) =~= Seq::<Seq<char>>::empty());
    assert(eval_inputs(store, blobs, io, 1, Seq::<Seq<char>>::empty()) == Ok::<
        Seq<JModel>,
        EvalErr,
    >(Seq::empty()));
    assert(seq![rows] + Seq::<JModel>::empty() =~= seq![rows]);
    assert(eval_inputs(store, blobs, io, 1, flt.inputs) == Ok::<Seq<JModel>, EvalErr>(
        seq![rows],
    ));

    // The configuration fields read back as declared.
    assert("field"@ != "op"@);
    assert("field"@ != "val"@);
    assert("op"@ != "val"@);
    let fields = cfg->Obj_0;
    let tail2 = seq![("op"@, JModel::Str(">"@)), ("val"@, JModel::Int(2020))];
    let tail1 = seq![("val"@, JModel::Int(2020))];
    assert(fields.subrange(1, 3) =~= tail2);
    assert(tail2.subrange(1, 2) =~= tail1);
    assert(fields[0].0 == "field"@ && tail2[0].0 == "op"@ && tail1[0].0 == "val"@);
    assert(jobj_get(fields, "field"@) == Some(JModel::Str("built"@)));
    assert(jobj_get(tail2, "op"@) == Some(JModel::Str(">"@)));
    assert(jobj_get(fields, "op"@) == Some(JModel::Str(">"@)));
    assert(jobj_get(tail1, "val"@) == Some(JModel::Int(2020)));
    assert(jobj_get(tail2, "val"@) == Some(JModel::Int(2020)));
    assert(jobj_get(fields, "val"@) == Some(JModel::Int(2020)));
    assert(jfield(cfg, "field"@) == JModel::Str("built"@));
    assert(jfield(cfg, "op"@) == JModel::Str(">"@));
    assert(jfield(cfg, "val"@) == JModel::Int(2020));

    // Only the listing above the bound passes the comparison.
    assert(jobj_get(row_hi->Obj_0, "built"@) == Some(JModel::Int(2021)));
    assert(jobj_get(row_lo->Obj_0, "built"@) == Some(JModel::Int(2019)));
    assert(filter_pred(row_hi, "built"@, ">"@, Some(2020i64), None));
    assert(!filter_pred(row_lo, "built"@, ">"@, Some(2020i64), None));
    let elems = seq![row_hi, row_lo];
    assert(elems[0] == row_hi);
    assert(elems.subrange(1, 2) =~= seq![row_lo]);
    assert(seq![row_lo][0] == row_lo);
    assert(seq![row_lo].subrange(1, 1) =~= Seq::<JModel>::empty());
    assert(filter_models(Seq::<JModel>::empty(), "built"@, ">"@, Some(2020i64), None) =~= Seq::<
        JModel,
    >::empty());
    assert(filter_models(seq![row_lo], "built"@, ">"@, Some(2020i64), None) == Seq::<
        JModel,
    >::empty() + filter_models(Seq::<JModel>::empty(), "built"@, ">"@, Some(2020i64), None));
    assert(filter_models(seq![row_lo], "built"@, ">"@, Some(2020i64), None) =~= Seq::<
        JModel,
    >::empty());
    assert(filter_models(elems, "built"@, ">"@, Some(2020i64), None) =~= seq![row_hi]);

    // Dispatching the filter yields exactly the passing listing.
    assert(seq![rows][0] == rows);
    assert(eval_op(store, blobs, io, h_flt, flt, seq![rows]) == Ok::<JModel, EvalErr>(
        JModel::Arr(seq![row_hi]),
    ));
    assert(eval(store, blobs, io, 2, h_flt) == Ok::<JModel, EvalErr>(JModel::Arr(seq![row_hi])));
}

/// The short literal strings of the instance above are well formed.
proof fn lemma_small_strs()
    ensures
        str_wf("local://rows"@),
        str_wf("local://sieve"@),
        str_wf("global"@),
        str_wf("built"@),
        str_wf("field"@),
        str_wf("op"@),
        str_wf("val"@),
{
    reveal_strlit("local://rows");
    reveal_strlit("local://sieve");
    reveal_strlit("global");
    reveal_strlit("built");
    reveal_strlit("field");
    reveal_strlit("op");
    reveal_strlit("val");
    assert(vstd::utf8::is_ascii_chars("local://rows"@));
    assert(vstd::utf8::is_ascii_chars("local://sieve"@));
    assert(vstd::utf8::is_ascii_chars("global"@));
    assert(vstd::utf8::is_ascii_chars("built"@));
    assert(vstd::utf8::is_ascii_chars("field"@));
    assert(vstd::utf8::is_ascii_chars("op"@));
    assert(vstd::utf8::is_ascii_chars("val"@));
    lemma_ascii_wf("local://rows"@);
    lemma_ascii_wf("local://sieve"@);
    lemma_ascii_wf("global"@);
    lemma_ascii_wf("built"@);
    lemma_ascii_wf("field"@);
    lemma_ascii_wf("op"@);
    lemma_ascii_wf("val"@);
}

/// A short ASCII string's UTF-8 form fits any length prefix.
proof fn lemma_ascii_wf(s: Seq<char>)
    requires
        s.len() < 0x1000,
        vstd::utf8::is_ascii_chars(s),
    ensures
        str_wf(s),
{
    vstd::utf8::is_ascii_chars_encode_utf8(s);
}

/// An object holding one integer field is well formed.
proof fn lemma_wf_int_row(field: Seq<char>, x: i64)
    requires
        str_wf(field),
    ensures
        json_wf(JModel::Obj(seq![(field, JModel::Int(x))])),
{
    let fields = seq![(field, JModel::Int(x))];
    assert(fields.subrange(1, 1) =~= Seq::<(Seq<char>, JModel)>::empty());
    assert(json_wf_fields(fields.subrange(1, 1)));
    assert(fields[0] == (field, JModel::Int(x)));
    assert(json_wf(JModel::Int(x)));
    assert(json_wf_fields(fields));
}

} // verus!
