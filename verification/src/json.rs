//! Structured values produced and consumed by the graph evaluator, together
//! with their mathematical model.

use vstd::prelude::*;

verus! {

/// A structured (JSON-shaped) value. Numbers are 64-bit signed integers: the
/// evaluator only ever reads integral numeric fields.
#[derive(Debug)]
pub enum JsonValue {
    Null,
    Bool(bool),
    Int(i64),
    Str(String),
    Array(Vec<JsonValue>),
    Object(Vec<(String, JsonValue)>),
}

/// Mathematical model of a [`JsonValue`].
pub ghost enum JModel {
    Null,
    Bool(bool),
    Int(i64),
    Str(Seq<char>),
    Arr(Seq<JModel>),
    Obj(Seq<(Seq<char>, JModel)>),
}

/// The model of a structured value.
pub open spec fn jview(v: JsonValue) -> JModel
    decreases v,
{
    match v {
        JsonValue::Null => JModel::Null,
        JsonValue::Bool(b) => JModel::Bool(b),
        JsonValue::Int(i) => JModel::Int(i),
        JsonValue::Str(s) => JModel::Str(s@),
        JsonValue::Array(items) => JModel::Arr(jview_list(items@)),
        JsonValue::Object(fields) => JModel::Obj(jview_fields(fields@)),
    }
}

/// The models of a sequence of values, element by element.
pub open spec fn jview_list(items: Seq<JsonValue>) -> Seq<JModel>
    decreases items,
{
    if items.len() == 0 {
        Seq::empty()
    } else {
        seq![jview(items[0])] + jview_list(items.subrange(1, items.len() as int))
    }
}

/// The models of a sequence of key/value pairs, element by element.
pub open spec fn jview_fields(fields: Seq<(String, JsonValue)>) -> Seq<(Seq<char>, JModel)>
    decreases fields,
{
    if fields.len() == 0 {
        Seq::empty()
    } else {
        seq![(fields[0].0@, jview(fields[0].1))] + jview_fields(
            fields.subrange(1, fields.len() as int),
        )
    }
}

/// `jview_list` maps `jview` over the sequence, index by index.
pub broadcast proof fn lemma_jview_list(items: Seq<JsonValue>)
    ensures
        #[trigger] jview_list(items).len() == items.len(),
        forall|i: int| 0 <= i < items.len() ==> #[trigger] jview_list(items)[i] == jview(items[i]),
    decreases items,
{
    if items.len() > 0 {
        lemma_jview_list(items.subrange(1, items.len() as int));
        assert forall|i: int| 0 <= i < items.len() implies #[trigger] jview_list(items)[i] == jview(
            items[i],
        ) by {
            if i > 0 {
                assert(items.subrange(1, items.len() as int)[i - 1] == items[i]);
            }
        }
    }
}

/// `jview_fields` maps key views and `jview` over the pairs, index by index.
pub broadcast proof fn lemma_jview_fields(fields: Seq<(String, JsonValue)>)
    ensures
        #[trigger] jview_fields(fields).len() == fields.len(),
        forall|i: int| 0 <= i < fields.len()
            ==> #[trigger] jview_fields(fields)[i] == (fields[i].0@, jview(fields[i].1)),
    decreases fields,
{
    if fields.len() > 0 {
        lemma_jview_fields(fields.subrange(1, fields.len() as int));
        assert forall|i: int| 0 <= i < fields.len() implies #[trigger] jview_fields(fields)[i] == (
        fields[i].0@, jview(fields[i].1)) by {
            if i > 0 {
                assert(fields.subrange(1, fields.len() as int)[i - 1] == fields[i]);
            }
        }
    }
}

/// A deep copy of a value: the copy has the same model.
#[verifier::loop_isolation(false)]
pub fn json_clone(v: &JsonValue) -> (r: JsonValue)
    ensures
        jview(r) == jview(*v),
    decreases *v,
{
    broadcast use lemma_jview_list, lemma_jview_fields;

    match v {
        JsonValue::Null => JsonValue::Null,
        JsonValue::Bool(b) => JsonValue::Bool(*b),
        JsonValue::Int(i) => JsonValue::Int(*i),
        JsonValue::Str(s) => JsonValue::Str(s.clone()),
        JsonValue::Array(items) => {
            let mut out: Vec<JsonValue> = Vec::new();
            let mut i: usize = 0;
            while i < items.len()
                invariant
                    0 <= i <= items@.len(),
                    out@.len() == i,
                    forall|k: int| 0 <= k < i ==> jview(#[trigger] out@[k]) == jview(items@[k]),
                decreases items@.len() - i,
            {
                proof {
                    assert(decreases_to!(*v => v->Array_0));
                    assert(decreases_to!(*items => items@));
                    assert(decreases_to!(items@ => items@[i as int]));
                }
                let e = json_clone(&items[i]);
                out.push(e);
                i = i + 1;
            }
            proof {
                lemma_jview_list(out@);
                lemma_jview_list(items@);
                assert(jview_list(out@) =~= jview_list(items@));
            }
            JsonValue::Array(out)
        },
        JsonValue::Object(fields) => {
            let mut out: Vec<(String, JsonValue)> = Vec::new();
            let mut i: usize = 0;
            while i < fields.len()
                invariant
                    0 <= i <= fields@.len(),
                    out@.len() == i,
                    forall|k: int| 0 <= k < i
                        ==> (#[trigger] out@[k]).0@ == fields@[k].0@ && jview(out@[k].1) == jview(
                        fields@[k].1,
                    ),
                decreases fields@.len() - i,
            {
                proof {
                    assert(decreases_to!(*v => v->Object_0));
                    assert(decreases_to!(*fields => fields@));
                    assert(decreases_to!(fields@ => fields@[i as int]));
                    assert(decreases_to!(fields@[i as int] => fields@[i as int].1));
                }
                let key = fields[i].0.clone();
                let val = json_clone(&fields[i].1);
                out.push((key, val));
                i = i + 1;
            }
            proof {
                lemma_jview_fields(out@);
                lemma_jview_fields(fields@);
                assert(jview_fields(out@) =~= jview_fields(fields@));
            }
            JsonValue::Object(out)
        },
    }
}

/// Deep structural equality of two values, decided against the model.
#[verifier::loop_isolation(false)]
#[verifier::rlimit(50)]
pub fn json_eq(a: &JsonValue, b: &JsonValue) -> (r: bool)
    ensures
        r == (jview(*a) == jview(*b)),
    decreases *a,
{
    match a {
        JsonValue::Null => {
            match b {
                JsonValue::Null => true,
                _ => false,
            }
        },
        JsonValue::Bool(x) => {
            match b {
                JsonValue::Bool(y) => *x == *y,
                _ => false,
            }
        },
        JsonValue::Int(x) => {
            match b {
                JsonValue::Int(y) => *x == *y,
                _ => false,
            }
        },
        JsonValue::Str(x) => {
            match b {
                JsonValue::Str(y) => *x == *y,
                _ => false,
            }
        },
        JsonValue::Array(x) => {
            match b {
                JsonValue::Array(y) => {
                    if x.len() != y.len() {
                        proof {
                            lemma_jview_list(x@);
                            lemma_jview_list(y@);
                        }
                        false
                    } else {
                        let mut i: usize = 0;
                        let mut same = true;
                        while i < x.len()
                            invariant
                                0 <= i <= x@.len(),
                                x@.len() == y@.len(),
                                same ==> forall|k: int| 0 <= k < i
                                    ==> jview(#[trigger] x@[k]) == jview(y@[k]),
                                !same ==> jview_list(x@) != jview_list(y@),
                            decreases x@.len() - i,
                        {
                            proof {
                                assert(decreases_to!(*a => a->Array_0));
                                assert(decreases_to!(*x => x@));
                                assert(decreases_to!(x@ => x@[i as int]));
                            }
                            let e = json_eq(&x[i], &y[i]);
                            if !e {
                                proof {
                                    lemma_jview_list(x@);
                                    lemma_jview_list(y@);
                                    assert(jview_list(x@)[i as int] != jview_list(y@)[i as int]);
                                }
                                same = false;
                                i = x.len();
                            } else {
                                i = i + 1;
                            }
                        }
                        proof {
                            lemma_jview_list(x@);
                            lemma_jview_list(y@);
                            if same {
                                assert(jview_list(x@) =~= jview_list(y@));
                            }
                        }
                        same
                    }
                },
                _ => false,
            }
        },
        JsonValue::Object(x) => {
            match b {
                JsonValue::Object(y) => {
                    if x.len() != y.len() {
                        proof {
                            lemma_jview_fields(x@);
                            lemma_jview_fields(y@);
                        }
                        false
                    } else {
                        let mut i: usize = 0;
                        let mut same = true;
                        while i < x.len()
                            invariant
                                0 <= i <= x@.len(),
                                x@.len() == y@.len(),
                                same ==> forall|k: int| 0 <= k < i
                                    ==> (#[trigger] x@[k]).0@ == y@[k].0@ && jview(x@[k].1)
                                        == jview(y@[k].1),
                                !same ==> jview_fields(x@) != jview_fields(y@),
                            decreases x@.len() - i,
                        {
                            proof {
                                assert(decreases_to!(*a => a->Object_0));
                                assert(decreases_to!(*x => x@));
                                assert(decreases_to!(x@ => x@[i as int]));
                                assert(decreases_to!(x@[i as int] => x@[i as int].1));
                            }
                            let keys_eq = x[i].0 == y[i].0;
                            let vals_eq = json_eq(&x[i].1, &y[i].1);
                            if !(keys_eq && vals_eq) {
                                proof {
                                    lemma_jview_fields(x@);
                                    lemma_jview_fields(y@);
                                    assert(jview_fields(x@)[i as int] != jview_fields(y@)[i as int]);
                                }
                                same = false;
                                i = x.len();
                            } else {
                                i = i + 1;
                            }
                        }
                        proof {
                            lemma_jview_fields(x@);
                            lemma_jview_fields(y@);
                            if same {
                                assert(jview_fields(x@) =~= jview_fields(y@));
                            }
                        }
                        same
                    }
                },
                _ => false,
            }
        },
    }
}


/// The first value bound to `key` in an object's field list.
pub open spec fn jobj_get(fields: Seq<(Seq<char>, JModel)>, key: Seq<char>) -> Option<JModel>
    decreases fields,
{
    if fields.len() == 0 {
        None
    } else if fields[0].0 == key {
        Some(fields[0].1)
    } else {
        jobj_get(fields.subrange(1, fields.len() as int), key)
    }
}

/// Indexing as the evaluator reads it: the field's value inside an object,
/// and null anywhere else.
pub open spec fn jfield(m: JModel, key: Seq<char>) -> JModel {
    match m {
        JModel::Obj(fields) => match jobj_get(fields, key) {
            Option::Some(v) => v,
            Option::None => JModel::Null,
        },
        _ => JModel::Null,
    }
}

/// The integer a value holds, if it is an integer.
pub open spec fn j_as_int(m: JModel) -> Option<i64> {
    match m {
        JModel::Int(x) => Some(x),
        _ => None,
    }
}

/// The text a value holds, if it is a string.
pub open spec fn j_as_str(m: JModel) -> Option<Seq<char>> {
    match m {
        JModel::Str(s) => Some(s),
        _ => None,
    }
}

/// Looks a field up in a value, as indexing does: null for a missing field
/// or a non-object.
#[verifier::loop_isolation(false)]
pub fn json_field(v: &JsonValue, key: &str) -> (r: JsonValue)
    ensures
        jview(r) == jfield(jview(*v), key@),
{
    match v {
        JsonValue::Object(fields) => {
            let ghost models = jview_fields(fields@);
            let key_s = key.to_owned();
            proof {
                lemma_jview_fields(fields@);
                assert(models.subrange(0, models.len() as int) =~= models);
            }
            let mut i: usize = 0;
            while i < fields.len()
                invariant
                    0 <= i <= fields@.len(),
                    jobj_get(models, key@) == jobj_get(
                        models.subrange(i as int, models.len() as int),
                        key@,
                    ),
                decreases fields@.len() - i,
            {
                let ghost rest = models.subrange(i as int, models.len() as int);
                proof {
                    assert(rest[0] == models[i as int]);
                    assert(rest.subrange(1, rest.len() as int) =~= models.subrange(
                        i as int + 1,
                        models.len() as int,
                    ));
                }
                if fields[i].0 == key_s {
                    return json_clone(&fields[i].1);
                }
                i = i + 1;
            }
            proof {
                assert(models.subrange(models.len() as int, models.len() as int)
                    =~= Seq::<(Seq<char>, JModel)>::empty());
            }
            JsonValue::Null
        },
        _ => {
            JsonValue::Null
        },
    }
}


/// Equality of two text slices, decided through their views.
pub fn str_eq(a: &str, b: &str) -> (r: bool)
    ensures
        r == (a@ == b@),
{
    let sa = a.to_owned();
    let sb = b.to_owned();
    sa == sb
}

} // verus!
