//! The weaving front end: translates a plain-text intent into a candidate
//! atom, writing the operation's payload into the blob store.

use vstd::prelude::*;
use vstd::string::*;
use vstd::utf8::encode_utf8;
use crate::LogicAtom;
use crate::blob::{BlobStore, blob_uri};
use crate::codec::{enc_contract, enc_json, encode_contract, encode_json};
use crate::digest::blake3_hex;
use crate::guard::{has_substring, contains_sub};
use crate::io::{IOContract, ContractModel};
use crate::json::{JModel, JsonValue, jview, jview_fields, lemma_jview_fields, str_eq};

verus! {

/// The whitespace that separates words of an intent: Unicode's white-space
/// set, as `char::is_whitespace` defines it.
pub open spec fn is_ws(c: char) -> bool {
    ||| c == ' '
    ||| c == '\t'
    ||| c == '\n'
    ||| (c as u32) == 0x0B
    ||| (c as u32) == 0x0C
    ||| c == '\r'
    ||| (c as u32) == 0x85
    ||| (c as u32) == 0xA0
    ||| (c as u32) == 0x1680
    ||| (0x2000 <= (c as u32) && (c as u32) <= 0x200A)
    ||| (c as u32) == 0x2028
    ||| (c as u32) == 0x2029
    ||| (c as u32) == 0x202F
    ||| (c as u32) == 0x205F
    ||| (c as u32) == 0x3000
}

/// The length of the leading word: the number of characters before the first
/// whitespace.
pub open spec fn word_len(s: Seq<char>) -> int
    decreases s.len(),
{
    if s.len() == 0 || is_ws(s[0]) {
        0
    } else {
        1 + word_len(s.subrange(1, s.len() as int))
    }
}

pub proof fn lemma_word_len_bounds(s: Seq<char>)
    ensures
        0 <= word_len(s) <= s.len(),
    decreases s.len(),
{
    if s.len() > 0 && !is_ws(s[0]) {
        lemma_word_len_bounds(s.subrange(1, s.len() as int));
    }
}

/// The words of an intent, in order: maximal runs of non-whitespace.
pub open spec fn split_ws(s: Seq<char>) -> Seq<Seq<char>>
    decreases s.len(),
    via split_ws_decreases
{
    if s.len() == 0 {
        Seq::empty()
    } else if is_ws(s[0]) {
        split_ws(s.subrange(1, s.len() as int))
    } else {
        seq![s.subrange(0, word_len(s))] + split_ws(s.subrange(word_len(s), s.len() as int))
    }
}

#[via_fn]
proof fn split_ws_decreases(s: Seq<char>) {
    if s.len() > 0 && !is_ws(s[0]) {
        lemma_word_len_bounds(s.subrange(1, s.len() as int));
        assert(word_len(s) == 1 + word_len(s.subrange(1, s.len() as int)));
    }
}

/// If the first `m` characters are non-whitespace and the next one (if any)
/// is whitespace, the leading word has length `m`.
pub proof fn lemma_word_len_exact(s: Seq<char>, m: int)
    requires
        0 <= m <= s.len(),
        forall|k: int| 0 <= k < m ==> !is_ws(#[trigger] s[k]),
        m == s.len() || is_ws(s[m]),
    ensures
        word_len(s) == m,
    decreases m,
{
    if m == 0 {
    } else {
        let rest = s.subrange(1, s.len() as int);
        assert forall|k: int| 0 <= k < m - 1 implies !is_ws(#[trigger] rest[k]) by {
            assert(rest[k] == s[k + 1]);
        }
        if m - 1 < rest.len() {
            assert(rest[m - 1] == s[m]);
        }
        lemma_word_len_exact(rest, m - 1);
    }
}

/// Splits an intent into words, decided against [`split_ws`].
#[verifier::loop_isolation(false)]
pub fn tokenize(s: &str) -> (r: Vec<String>)
    ensures
        r.deep_view() == split_ws(s@),
{
    let n = s.unicode_len();
    let mut out: Vec<String> = Vec::new();
    let mut i: usize = 0;
    proof {
        assert(s@.subrange(0, n as int) =~= s@);
        assert(out.deep_view() =~= Seq::<Seq<char>>::empty());
    }
    while i < n
        invariant
            0 <= i <= n,
            split_ws(s@) == out.deep_view() + split_ws(s@.subrange(i as int, n as int)),
        decreases n - i,
    {
        let ghost rest = s@.subrange(i as int, n as int);
        let c = s.get_char(i);
        if is_ws_exec(c) {
            proof {
                assert(rest[0] == s@[i as int]);
                assert(rest.subrange(1, rest.len() as int) =~= s@.subrange(
                    i as int + 1,
                    n as int,
                ));
            }
            i = i + 1;
        } else {
            let mut j = i;
            while j < n && !is_ws_exec(s.get_char(j))
                invariant
                    i <= j <= n,
                    forall|k: int| i <= k < j ==> !is_ws(#[trigger] s@[k]),
                decreases n - j,
            {
                j = j + 1;
            }
            let word = s.substring_char(i, j).to_owned();
            let ghost prev = out.deep_view();
            out.push(word);
            proof {
                assert(rest[0] == s@[i as int]);
                assert forall|k: int| 0 <= k < j - i implies !is_ws(#[trigger] rest[k]) by {
                    assert(rest[k] == s@[i + k]);
                }
                if j < n {
                    assert(rest[j - i] == s@[j as int]);
                }
                lemma_word_len_exact(rest, j - i);
                assert(rest.subrange(0, j - i) =~= s@.subrange(i as int, j as int));
                assert(rest.subrange(j - i, rest.len() as int) =~= s@.subrange(
                    j as int,
                    n as int,
                ));
                assert(out.deep_view() =~= prev.push(s@.subrange(i as int, j as int)));
                assert(prev + (seq![s@.subrange(i as int, j as int)] + split_ws(
                    s@.subrange(j as int, n as int),
                )) =~= prev.push(s@.subrange(i as int, j as int)) + split_ws(
                    s@.subrange(j as int, n as int),
                ));
            }
            i = j;
        }
    }
    proof {
        assert(s@.subrange(n as int, n as int) =~= Seq::<char>::empty());
        assert(out.deep_view() + Seq::<Seq<char>>::empty() =~= out.deep_view());
    }
    out
}

/// Whether a character separates words.
pub fn is_ws_exec(c: char) -> (r: bool)
    ensures
        r == is_ws(c),
{
    let x = c as u32;
    x == 0x20 || x == 0x09 || x == 0x0A || x == 0x0B || x == 0x0C || x == 0x0D || x == 0x85 || x
        == 0xA0 || x == 0x1680 || (0x2000 <= x && x <= 0x200A) || x == 0x2028 || x == 0x2029 || x
        == 0x202F || x == 0x205F || x == 0x3000
}

/// A decimal digit.
pub open spec fn is_digit(c: char) -> bool {
    ('0' as u32) <= (c as u32) && (c as u32) <= ('9' as u32)
}

/// The value of a digit string, most significant first.
pub open spec fn digits_val(s: Seq<char>) -> int
    decreases s.len(),
{
    if s.len() == 0 {
        0
    } else {
        digits_val(s.subrange(0, s.len() - 1)) * 10 + ((s[s.len() - 1] as u32) - ('0' as u32))
    }
}

/// The digits of a decimal string: everything after an optional sign.
pub open spec fn int_body(s: Seq<char>) -> Seq<char> {
    if s.len() > 0 && (s[0] == '-' || s[0] == '+') {
        s.subrange(1, s.len() as int)
    } else {
        s
    }
}

/// The integer a string denotes: an optional sign, then at least one digit
/// and nothing else.
pub open spec fn parse_int_spec(s: Seq<char>) -> Option<int> {
    if int_body(s).len() == 0 || exists|k: int|
        0 <= k < int_body(s).len() && !is_digit(#[trigger] int_body(s)[k]) {
        None
    } else if s.len() > 0 && s[0] == '-' {
        Some(-digits_val(int_body(s)))
    } else {
        Some(digits_val(int_body(s)))
    }
}

pub proof fn lemma_digits_val_nonneg(s: Seq<char>)
    requires
        forall|k: int| 0 <= k < s.len() ==> is_digit(#[trigger] s[k]),
    ensures
        digits_val(s) >= 0,
    decreases s.len(),
{
    if s.len() > 0 {
        let prefix = s.subrange(0, s.len() - 1);
        assert(forall|k: int| 0 <= k < prefix.len() ==> prefix[k] == s[k]);
        lemma_digits_val_nonneg(prefix);
    }
}

/// Parses a signed 64-bit decimal integer, decided against
/// [`parse_int_spec`] with the 64-bit range check.
#[verifier::loop_isolation(false)]
pub fn parse_i64(s: &str) -> (r: Option<i64>)
    ensures
        match r {
            Some(v) => parse_int_spec(s@) == Some(v as int),
            None => parse_int_spec(s@) is None || !(-0x8000_0000_0000_0000
                <= parse_int_spec(s@)->Some_0 <= 0x7fff_ffff_ffff_ffff),
        },
{
    let n = s.unicode_len();
    if n == 0 {
        return None;
    }
    let first = s.get_char(0);
    let neg = first == '-';
    let has_sign = first == '-' || first == '+';
    let start: usize = if has_sign {
        1
    } else {
        0
    };
    let ghost body = int_body(s@);
    proof {
        if has_sign {
            assert(body =~= s@.subrange(1, n as int));
        }
    }
    if start >= n {
        proof {
            assert(body.len() == 0);
        }
        return None;
    }
    let mut acc: i128 = 0;
    let mut i = start;
    proof {
        assert(body.subrange(0, 0) =~= Seq::<char>::empty());
    }
    while i < n
        invariant
            start <= i <= n,
            body.len() == n - start,
            forall|k: int| 0 <= k < i - start ==> is_digit(#[trigger] body[k]),
            acc == digits_val(body.subrange(0, i - start)),
            0 <= acc <= 0x8000_0000_0000_0000,
        decreases n - i,
    {
        let c = s.get_char(i);
        let x = c as u32;
        if !(x >= 0x30 && x <= 0x39) {
            proof {
                assert(body[i - start] == s@[i as int]);
                assert(!is_digit(body[i - start]));
                assert(parse_int_spec(s@) is None);
            }
            return None;
        }
        let d = (x - 0x30) as i128;
        proof {
            let pre = body.subrange(0, i - start);
            let cur = body.subrange(0, i + 1 - start);
            assert(cur.subrange(0, cur.len() - 1) =~= pre);
            assert(cur[cur.len() - 1] == s@[i as int]);
            assert(body[i - start] == s@[i as int]);
        }
        acc = acc * 10 + d;
        i = i + 1;
        if acc > 0x8000_0000_0000_0000i128 {
            proof {
                if forall|k: int| 0 <= k < body.len() ==> is_digit(#[trigger] body[k]) {
                    lemma_digits_grow(body, i - start);
                    assert(digits_val(body) >= acc);
                    assert(!(-0x8000_0000_0000_0000 <= parse_int_spec(s@)->Some_0
                        <= 0x7fff_ffff_ffff_ffff));
                } else {
                    assert(parse_int_spec(s@) is None);
                }
            }
            return None;
        }
    }
    proof {
        assert(body.subrange(0, n - start) =~= body);
    }
    if neg {
        let v = -acc;
        if v < -0x8000_0000_0000_0000i128 {
            return None;
        }
        Some(v as i64)
    } else {
        if acc > 0x7fff_ffff_ffff_ffffi128 {
            return None;
        }
        Some(acc as i64)
    }
}

/// A digit string is worth at least as much as any of its prefixes.
pub proof fn lemma_digits_grow(s: Seq<char>, m: int)
    requires
        0 <= m <= s.len(),
        forall|k: int| 0 <= k < s.len() ==> is_digit(#[trigger] s[k]),
    ensures
        digits_val(s) >= digits_val(s.subrange(0, m)),
    decreases s.len() - m,
{
    lemma_digits_val_nonneg(s);
    assert(s.subrange(0, s.len() as int) =~= s);
    if m < s.len() {
        lemma_digits_grow(s, m + 1);
        let a = s.subrange(0, m);
        let b = s.subrange(0, m + 1);
        assert(b.subrange(0, b.len() - 1) =~= a);
        assert(forall|k: int| 0 <= k < a.len() ==> a[k] == s[k]);
        lemma_digits_val_nonneg(a);
        assert(b[b.len() - 1] == s[m]);
        assert(is_digit(s[m]));
        assert(digits_val(b) == digits_val(a) * 10 + ((b[b.len() - 1] as u32) - ('0' as u32)));
        assert(digits_val(b) >= digits_val(a));
    }
}


/// The index of the first occurrence of `w`, or the length if absent.
pub open spec fn pos_of(parts: Seq<Seq<char>>, w: Seq<char>) -> int
    decreases parts.len(),
{
    if parts.len() == 0 {
        0
    } else if parts[0] == w {
        0
    } else {
        1 + pos_of(parts.subrange(1, parts.len() as int), w)
    }
}

pub proof fn lemma_pos_of_exact(parts: Seq<Seq<char>>, w: Seq<char>, m: int)
    requires
        0 <= m <= parts.len(),
        forall|k: int| 0 <= k < m ==> #[trigger] parts[k] != w,
        m == parts.len() || parts[m] == w,
    ensures
        pos_of(parts, w) == m,
    decreases m, parts.len(),
{
    if parts.len() == 0 {
    } else if m == 0 {
    } else {
        let rest = parts.subrange(1, parts.len() as int);
        assert forall|k: int| 0 <= k < m - 1 implies #[trigger] rest[k] != w by {
            assert(rest[k] == parts[k + 1]);
        }
        if m - 1 < rest.len() {
            assert(rest[m - 1] == parts[m]);
        }
        lemma_pos_of_exact(rest, w, m - 1);
    }
}

/// The words joined with single spaces, as the filter's value text.
pub open spec fn jn(ws: Seq<Seq<char>>) -> Seq<char>
    decreases ws.len(),
{
    if ws.len() == 0 {
        Seq::empty()
    } else if ws.len() == 1 {
        ws[0]
    } else {
        jn(ws.drop_last()) + " "@ + ws.last()
    }
}

/// The payload of a woven external-I/O atom: a contract for the URL with an
/// array schema, sovereign when the URL points at the local machine.
pub open spec fn io_payload(url: Seq<char>) -> Seq<u8> {
    enc_contract(
        ContractModel {
            endpoint: url,
            schema: JModel::Obj(seq![("type"@, JModel::Str("array"@))]),
            sensitivity: if has_substring(url, "localhost"@) || has_substring(url, "127.0.0.1"@) {
                2u8
            } else {
                0u8
            },
        },
    )
}

/// The filter value: a 64-bit integer when the text parses as one, else the
/// text itself.
pub open spec fn filter_val(vs: Seq<char>) -> JModel {
    match parse_int_spec(vs) {
        Option::Some(n) => if -0x8000_0000_0000_0000 <= n <= 0x7fff_ffff_ffff_ffff {
            JModel::Int(n as i64)
        } else {
            JModel::Str(vs)
        },
        Option::None => JModel::Str(vs),
    }
}

/// A 32-bit integer parsed from a word, zero if it does not parse.
pub open spec fn i32_or0(w: Seq<char>) -> i32 {
    match parse_int_spec(w) {
        Option::Some(n) => if -0x8000_0000 <= n <= 0x7fff_ffff {
            n as i32
        } else {
            0
        },
        Option::None => 0,
    }
}

/// What the loom would make of an intent: the operation code and the payload
/// bytes, or nothing for an empty intent. The first matching pattern decides;
/// an unrecognized intent becomes a synthesis-required atom carrying the raw
/// intent text.
pub ghost struct WeavePlan {
    pub op_code: u16,
    pub payload: Seq<u8>,
}

pub open spec fn weave_plan(intent: Seq<char>) -> Option<WeavePlan> {
    let parts = split_ws(intent);
    if parts.len() == 0 {
        None
    } else if parts[0] == "Fetch"@ && pos_of(parts, "from"@) + 1 < parts.len() {
        Some(WeavePlan { op_code: 500, payload: io_payload(parts[pos_of(parts, "from"@) + 1]) })
    } else if parts.len() >= 5 && parts[0] == "Filter"@ && parts[1] == "where"@ {
        Some(
            WeavePlan {
                op_code: 2,
                payload: enc_json(
                    JModel::Obj(
                        seq![
                            ("field"@, JModel::Str(parts[2])),
                            ("op"@, JModel::Str(parts[3])),
                            ("val"@, filter_val(jn(parts.subrange(4, parts.len() as int)))),
                        ],
                    ),
                ),
            },
        )
    } else if parts[0] == "Verify"@ {
        Some(WeavePlan { op_code: 100, payload: Seq::empty() })
    } else if parts[0] == "Output"@ {
        Some(WeavePlan { op_code: 100, payload: Seq::empty() })
    } else if parts[0] == "Merge"@ {
        Some(WeavePlan { op_code: 3, payload: Seq::empty() })
    } else if parts[0] == "Web"@ && pos_of(parts, "scrape"@) < parts.len() {
        Some(WeavePlan { op_code: 500, payload: io_payload("http://127.0.0.1:8080/kl/properties"@) })
    } else if parts[0] == "Trigger"@ {
        Some(
            WeavePlan {
                op_code: 50,
                payload: enc_json(JModel::Obj(seq![("event"@, JModel::Str(intent))])),
            },
        )
    } else if parts[0] == "Add"@ && parts.len() >= 4 {
        Some(
            WeavePlan {
                op_code: 1,
                payload: vstd::bytes::spec_u32_to_le_bytes(i32_or0(parts[1]) as u32)
                    + vstd::bytes::spec_u32_to_le_bytes(i32_or0(parts[3]) as u32),
            },
        )
    } else {
        Some(WeavePlan { op_code: 600, payload: encode_utf8(intent) })
    }
}

/// Why weaving failed.
#[derive(Debug, Clone, PartialEq, Eq, Structural)]
pub enum LoomError {
    /// The intent held no words.
    EmptyIntent,
}

/// The intent-to-atom translator: recognizes a fixed set of intent patterns
/// and writes each operation's payload into the blob store.
#[derive(Debug)]
pub struct AetherLoom {}

impl AetherLoom {
    pub fn new() -> (r: Self) {
        Self {  }
    }

    /// Weaves an intent in the global context.
    pub fn weave(&self, intent: &str, blobs: &mut BlobStore) -> (r: Result<LogicAtom, LoomError>)
        requires
            old(blobs).wf(),
        ensures
            final(blobs).wf(),
            match r {
                Ok(a) => {
                    &&& weave_plan(intent@) is Some
                    &&& woven_atom(a@, weave_plan(intent@)->Some_0, crate::spec_global_context())
                    &&& blob_written(
                        old(blobs).view_map(),
                        final(blobs).view_map(),
                        weave_plan(intent@)->Some_0.payload,
                    )
                },
                Err(_) => weave_plan(intent@) is None && final(blobs).view_map() == old(
                    blobs,
                ).view_map(),
            },
    {
        let g = crate::default_context();
        self.weave_with_context(intent, g.as_str(), blobs)
    }

    /// Weaves an intent into an atom scoped to `context`: matches the intent
    /// against the known patterns, writes the operation's payload into the
    /// blob store, and returns an atom with no inputs referring to it.
    #[verifier::loop_isolation(false)]
    #[verifier::rlimit(100)]
    #[verifier::spinoff_prover]
    pub fn weave_with_context(&self, intent: &str, context: &str, blobs: &mut BlobStore) -> (r:
        Result<LogicAtom, LoomError>)
        requires
            old(blobs).wf(),
        ensures
            final(blobs).wf(),
            match r {
                Ok(a) => {
                    &&& weave_plan(intent@) is Some
                    &&& woven_atom(a@, weave_plan(intent@)->Some_0, context@)
                    &&& blob_written(
                        old(blobs).view_map(),
                        final(blobs).view_map(),
                        weave_plan(intent@)->Some_0.payload,
                    )
                },
                Err(_) => weave_plan(intent@) is None && final(blobs).view_map() == old(
                    blobs,
                ).view_map(),
            },
    {
        let parts = tokenize(intent);
        let ghost pw = parts.deep_view();
        if parts.len() == 0 {
            return Err(LoomError::EmptyIntent);
        }
        let mut from_pos: usize = 0;
        while from_pos < parts.len() && !str_eq(parts[from_pos].as_str(), "from")
            invariant
                0 <= from_pos <= pw.len(),
                pw.len() == parts@.len(),
                forall|k: int| 0 <= k < from_pos ==> #[trigger] pw[k] != "from"@,
            decreases pw.len() - from_pos,
        {
            proof {
                assert(pw[from_pos as int] == parts@[from_pos as int]@);
            }
            from_pos = from_pos + 1;
        }
        proof {
            if from_pos < parts@.len() {
                assert(pw[from_pos as int] == parts@[from_pos as int]@);
            }
            lemma_pos_of_exact(pw, "from"@, from_pos as int);
        }
        if str_eq(parts[0].as_str(), "Fetch") && from_pos < parts.len() && parts.len() - from_pos
            > 1 {
            let url = &parts[from_pos + 1];
            proof {
                assert(pw[from_pos + 1] == parts@[from_pos + 1]@);
            }
            return Ok(self.make_io_atom(url.as_str(), context, blobs));
        }
        if parts.len() >= 5 && str_eq(parts[0].as_str(), "Filter") && str_eq(
            parts[1].as_str(),
            "where",
        ) {
            let mut val_str = parts[4].clone();
            let mut k: usize = 5;
            proof {
                assert(pw.subrange(4, 5).len() == 1);
                assert(pw.subrange(4, 5)[0] == pw[4]);
                assert(pw[4] == parts@[4]@);
                assert(val_str@ == jn(pw.subrange(4, 5)));
            }
            while k < parts.len()
                invariant
                    5 <= k <= pw.len(),
                    pw.len() == parts@.len(),
                    pw.len() >= 5,
                    val_str@ == jn(pw.subrange(4, k as int)),
                decreases pw.len() - k,
            {
                val_str.append(" ");
                val_str.append(parts[k].as_str());
                proof {
                    assert(pw[k as int] == parts@[k as int]@);
                    assert(pw.subrange(4, k as int + 1).drop_last() =~= pw.subrange(4, k as int));
                    assert(pw.subrange(4, k as int + 1).last() == pw[k as int]);
                }
                k = k + 1;
            }
            let val: JsonValue = match parse_i64(val_str.as_str()) {
                Some(n) => JsonValue::Int(n),
                None => JsonValue::Str(val_str.clone()),
            };
            let mut fields: Vec<(String, JsonValue)> = Vec::new();
            fields.push((String::from_str("field"), JsonValue::Str(parts[2].clone())));
            fields.push((String::from_str("op"), JsonValue::Str(parts[3].clone())));
            fields.push((String::from_str("val"), val));
            let config = JsonValue::Object(fields);
            let payload = encode_json(&config);
            proof {
                lemma_jview_fields(config->Object_0@);
                assert(pw[2] == parts@[2]@);
                assert(pw[3] == parts@[3]@);
                assert(jview_fields(config->Object_0@) =~= seq![
                    ("field"@, JModel::Str(pw[2])),
                    ("op"@, JModel::Str(pw[3])),
                    ("val"@, filter_val(jn(pw.subrange(4, pw.len() as int)))),
                ]);
            }
            let uri = blobs.write_blob(payload.as_slice());
            return Ok(
                LogicAtom {
                    op_code: 2,
                    inputs: Vec::new(),
                    storage_ref: uri,
                    context_id: context.to_owned(),
                },
            );
        }
        if str_eq(parts[0].as_str(), "Verify") {
            return Ok(self.make_plain_atom(100, context, blobs));
        }
        if str_eq(parts[0].as_str(), "Output") {
            return Ok(self.make_plain_atom(100, context, blobs));
        }
        if str_eq(parts[0].as_str(), "Merge") {
            return Ok(self.make_plain_atom(3, context, blobs));
        }
        let mut scrape_pos: usize = 0;
        while scrape_pos < parts.len() && !str_eq(parts[scrape_pos].as_str(), "scrape")
            invariant
                0 <= scrape_pos <= pw.len(),
                pw.len() == parts@.len(),
                forall|k: int| 0 <= k < scrape_pos ==> #[trigger] pw[k] != "scrape"@,
            decreases pw.len() - scrape_pos,
        {
            proof {
                assert(pw[scrape_pos as int] == parts@[scrape_pos as int]@);
            }
            scrape_pos = scrape_pos + 1;
        }
        proof {
            if scrape_pos < parts@.len() {
                assert(pw[scrape_pos as int] == parts@[scrape_pos as int]@);
            }
            lemma_pos_of_exact(pw, "scrape"@, scrape_pos as int);
        }
        if str_eq(parts[0].as_str(), "Web") && scrape_pos < parts.len() {
            return Ok(self.make_io_atom("http://127.0.0.1:8080/kl/properties", context, blobs));
        }
        if str_eq(parts[0].as_str(), "Trigger") {
            let mut fields: Vec<(String, JsonValue)> = Vec::new();
            fields.push((String::from_str("event"), JsonValue::Str(intent.to_owned())));
            let config = JsonValue::Object(fields);
            let payload = encode_json(&config);
            proof {
                lemma_jview_fields(config->Object_0@);
                assert(jview_fields(config->Object_0@) =~= seq![("event"@, JModel::Str(intent@))]);
            }
            let uri = blobs.write_blob(payload.as_slice());
            return Ok(
                LogicAtom {
                    op_code: 50,
                    inputs: Vec::new(),
                    storage_ref: uri,
                    context_id: context.to_owned(),
                },
            );
        }
        if parts.len() >= 4 && str_eq(parts[0].as_str(), "Add") {
            let a = Self::parse_i32_or0(parts[1].as_str());
            let b = Self::parse_i32_or0(parts[3].as_str());
            proof {
                assert(pw[1] == parts@[1]@);
                assert(pw[3] == parts@[3]@);
            }
            let mut payload = vstd::bytes::u32_to_le_bytes(#[verifier::truncate] (a as u32));
            let mut second = vstd::bytes::u32_to_le_bytes(#[verifier::truncate] (b as u32));
            payload.append(&mut second);
            let uri = blobs.write_blob(payload.as_slice());
            return Ok(
                LogicAtom {
                    op_code: 1,
                    inputs: Vec::new(),
                    storage_ref: uri,
                    context_id: context.to_owned(),
                },
            );
        }
        let payload = intent.as_bytes_vec();
        let uri = blobs.write_blob(payload.as_slice());
        Ok(
            LogicAtom {
                op_code: 600,
                inputs: Vec::new(),
                storage_ref: uri,
                context_id: context.to_owned(),
            },
        )
    }

    /// Builds an external-I/O atom for a URL.
    fn make_io_atom(&self, url: &str, context: &str, blobs: &mut BlobStore) -> (r: LogicAtom)
        requires
            old(blobs).wf(),
        ensures
            final(blobs).wf(),
            r@.op_code == 500,
            r@.inputs.len() == 0,
            r@.context_id == context@,
            r@.storage_ref == blob_uri(blake3_hex(io_payload(url@))),
            blob_written(old(blobs).view_map(), final(blobs).view_map(), io_payload(url@)),
    {
        let sens: u8 = if contains_sub(url, "localhost") || contains_sub(url, "127.0.0.1") {
            2
        } else {
            0
        };
        let mut schema_fields: Vec<(String, JsonValue)> = Vec::new();
        schema_fields.push((String::from_str("type"), JsonValue::Str(String::from_str("array"))));
        let contract = IOContract {
            endpoint: url.to_owned(),
            schema: JsonValue::Object(schema_fields),
            sensitivity: sens,
        };
        let payload = encode_contract(&contract);
        proof {
            lemma_jview_fields(contract.schema->Object_0@);
            assert(jview_fields(contract.schema->Object_0@) =~= seq![
                ("type"@, JModel::Str("array"@)),
            ]);
        }
        let uri = blobs.write_blob(payload.as_slice());
        LogicAtom {
            op_code: 500,
            inputs: Vec::new(),
            storage_ref: uri,
            context_id: context.to_owned(),
        }
    }

    /// Builds an atom with an empty payload.
    fn make_plain_atom(&self, op_code: u16, context: &str, blobs: &mut BlobStore) -> (r: LogicAtom)
        requires
            old(blobs).wf(),
        ensures
            final(blobs).wf(),
            r@.op_code == op_code,
            r@.inputs.len() == 0,
            r@.context_id == context@,
            r@.storage_ref == blob_uri(blake3_hex(Seq::<u8>::empty())),
            blob_written(old(blobs).view_map(), final(blobs).view_map(), Seq::<u8>::empty()),
    {
        let payload: Vec<u8> = Vec::new();
        let uri = blobs.write_blob(payload.as_slice());
        LogicAtom {
            op_code,
            inputs: Vec::new(),
            storage_ref: uri,
            context_id: context.to_owned(),
        }
    }

    /// Parses a 32-bit integer from a word, zero if it does not parse.
    fn parse_i32_or0(s: &str) -> (r: i32)
        ensures
            r == i32_or0(s@),
    {
        match parse_i64(s) {
            Some(v) => {
                if v >= -0x8000_0000i64 && v <= 0x7fff_ffffi64 {
                    v as i32
                } else {
                    0
                }
            },
            None => 0,
        }
    }
}

/// The atom a plan yields in a context: the plan's operation, no inputs, the
/// payload's content address as its storage reference.
pub open spec fn woven_atom(a: crate::AtomModel, plan: WeavePlan, ctx: Seq<char>) -> bool {
    &&& a.op_code == plan.op_code
    &&& a.inputs.len() == 0
    &&& a.context_id == ctx
    &&& a.storage_ref == blob_uri(blake3_hex(plan.payload))
}

/// How one payload write changes the blob store: nothing if its address is
/// taken, otherwise one new entry under its address.
pub open spec fn blob_written(
    before: Map<Seq<char>, Seq<u8>>,
    after: Map<Seq<char>, Seq<u8>>,
    payload: Seq<u8>,
) -> bool {
    let uri = blob_uri(blake3_hex(payload));
    &&& after == if before.contains_key(uri) {
        before
    } else {
        before.insert(uri, payload)
    }
    &&& after.contains_key(uri)
}

} // verus!
