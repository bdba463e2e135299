//! The policy guard: pure, stateless validation of atoms before they are
//! admitted to the store.

use vstd::prelude::*;
use vstd::string::StrSliceExecFns;
use crate::{AtomModel, GuardError, LogicAtom};

verus! {

/// `pat` occurs contiguously in `s`.
pub open spec fn has_substring(s: Seq<char>, pat: Seq<char>) -> bool {
    exists|i: int|
        0 <= i && i + pat.len() <= s.len() && #[trigger] s.subrange(i, i + pat.len() as int) == pat
}

/// Substring search, decided against [`has_substring`].
#[verifier::loop_isolation(false)]
pub fn contains_sub(s: &str, pat: &str) -> (r: bool)
    ensures
        r == has_substring(s@, pat@),
{
    let n = s.unicode_len();
    let m = pat.unicode_len();
    if m > n {
        proof {
            if has_substring(s@, pat@) {
                let w = choose|w: int|
                    0 <= w && w + pat@.len() <= s@.len() && #[trigger] s@.subrange(
                        w,
                        w + pat@.len() as int,
                    ) == pat@;
                assert(false);
            }
        }
        return false;
    }
    if m == 0 {
        proof {
            assert(s@.subrange(0, 0 + pat@.len() as int) =~= pat@);
            assert(has_substring(s@, pat@));
        }
        return true;
    }
    let mut i: usize = 0;
    while i <= n - m
        invariant
            1 <= m <= n,
            0 <= i <= n - m + 1,
            forall|k: int|
                0 <= k < i ==> #[trigger] s@.subrange(k, k + pat@.len() as int) != pat@,
        decreases n - i,
    {
        let mut j: usize = 0;
        let mut hit = true;
        while j < m
            invariant
                0 <= j <= m,
                i + m <= n,
                hit ==> forall|k: int| 0 <= k < j ==> s@[i + k] == pat@[k],
                !hit ==> s@.subrange(i as int, i + pat@.len() as int) != pat@,
            decreases m - j,
        {
            let a = s.get_char(i + j);
            let b = pat.get_char(j);
            if a != b {
                proof {
                    assert(s@.subrange(i as int, i + pat@.len() as int)[j as int] == s@[i + j]);
                }
                hit = false;
                j = m;
            } else {
                j = j + 1;
            }
        }
        if hit {
            proof {
                assert(s@.subrange(i as int, i + pat@.len() as int) =~= pat@);
            }
            return true;
        }
        i = i + 1;
    }
    proof {
        if has_substring(s@, pat@) {
            let w = choose|w: int|
                0 <= w && w + pat@.len() <= s@.len() && #[trigger] s@.subrange(
                    w,
                    w + pat@.len() as int,
                ) == pat@;
            assert(false);
        }
    }
    false
}

/// The data-sovereignty law: sensitivity below `2` always passes; at `2` the
/// endpoint must name localhost, the loopback address, or a designated
/// sovereign domain suffix.
pub open spec fn spec_sovereign(endpoint: Seq<char>, sensitivity: u8) -> bool {
    if sensitivity >= 2 {
        has_substring(endpoint, "localhost"@) || has_substring(endpoint, "127.0.0.1"@)
            || has_substring(endpoint, ".my"@)
    } else {
        true
    }
}

/// The guard's structural verdict on an atom given its resolved inputs: a
/// list-filtering atom needs at least one input, and its first input must not
/// be the output of the scalar-arithmetic operation; every other operation
/// code imposes no constraint.
pub open spec fn spec_compat(atom: AtomModel, inputs: Seq<AtomModel>) -> Result<(), GuardError> {
    if atom.op_code == 2 {
        if inputs.len() == 0 {
            Err(GuardError::FilterNeedsInput)
        } else if inputs[0].op_code == 1 {
            Err(GuardError::FilterOnScalar)
        } else {
            Ok(())
        }
    } else {
        Ok(())
    }
}

/// Pure, stateless validator; safe to consult from anywhere.
#[derive(Debug)]
pub struct AetherGuard {}

impl AetherGuard {
    pub fn new() -> (r: Self) {
        Self {  }
    }

    /// Shallow structural compatibility of an atom with its resolved inputs,
    /// decided against [`spec_compat`].
    pub fn verify_compatibility(&self, atom: &LogicAtom, input_atoms: &[LogicAtom]) -> (r: Result<
        (),
        GuardError,
    >)
        ensures
            r == spec_compat(atom@, Seq::new(input_atoms@.len(), |i: int| input_atoms@[i]@)),
    {
        proof {
            let views = Seq::new(input_atoms@.len(), |i: int| input_atoms@[i]@);
            if input_atoms@.len() > 0 {
                assert(views[0] == input_atoms@[0]@);
            }
        }
        if atom.op_code == 2 {
            if input_atoms.len() == 0 {
                return Err(GuardError::FilterNeedsInput);
            }
            if vstd::slice::slice_index_get(input_atoms, 0).op_code == 1 {
                return Err(GuardError::FilterOnScalar);
            }
        }
        Ok(())
    }

    /// Per-atom checks that need no resolved inputs; none exist yet.
    pub fn check(&self, atom: &LogicAtom) -> (r: Result<(), GuardError>)
        ensures
            r is Ok,
    {
        Ok(())
    }

    /// The interest-free law: does a solution exist in which the rate equals
    /// zero? For a concrete rate the constraint is satisfiable exactly when
    /// the rate is zero, so the query is decided directly.
    pub fn verify_interest_free(&self, rate: i32) -> (r: bool)
        ensures
            r == (rate == 0),
    {
        rate == 0
    }

    /// The data-sovereignty law, decided against [`spec_sovereign`].
    pub fn verify_sovereignty(&self, endpoint: &str, sensitivity: u8) -> (r: bool)
        ensures
            r == spec_sovereign(endpoint@, sensitivity),
    {
        if sensitivity >= 2 {
            return contains_sub(endpoint, "localhost") || contains_sub(endpoint, "127.0.0.1")
                || contains_sub(endpoint, ".my");
        }
        true
    }
}

} // verus!
