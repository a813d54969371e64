//! Consistency checks for the inverted index: given the per-key match flags
//! of a candidate and the query's strategy, decide whether the candidate can
//! match and whether a full recheck is required.
//!
//! Index keys are hashes, so collisions are possible: a positive answer is
//! always "maybe" unless a single exact key matched definitely, and the
//! structural and key-based strategies demand every query key; the
//! contained-by strategy cannot be pre-filtered at all.

use vstd::prelude::*;

verus! {

/// Strategy number of structural containment.
pub const SEXP_GIN_CONTAINS_STRATEGY: i16 = 7;

/// Strategy number of contained-by (cannot be pre-filtered).
pub const SEXP_GIN_CONTAINED_STRATEGY: i16 = 8;

/// Strategy number of key-based containment.
pub const SEXP_GIN_CONTAINS_KEY_STRATEGY: i16 = 9;

/// A three-valued per-key match flag.
#[derive(Clone, Copy, Debug, PartialEq, Eq, Structural)]
pub enum GinTernary {
    False,
    True,
    Maybe,
}

/// Every flag is set.
pub open spec fn spec_all_true(check: Seq<bool>) -> bool {
    forall|i: int| 0 <= i < check.len() ==> check[i]
}

/// The ternary consistency answer: contained-by is always a maybe; the
/// other strategies are false as soon as one key is definitely absent,
/// definitely true only for a single definitely-present key, and a maybe
/// otherwise.
pub open spec fn spec_triconsistent(check: Seq<GinTernary>, strategy: i16) -> GinTernary {
    if strategy == SEXP_GIN_CONTAINED_STRATEGY {
        GinTernary::Maybe
    } else if exists|i: int| 0 <= i < check.len() && check[i] == GinTernary::False {
        GinTernary::False
    } else if check.len() == 1 && (forall|i: int|
        0 <= i < check.len() ==> check[i] == GinTernary::True) {
        GinTernary::True
    } else {
        GinTernary::Maybe
    }
}

/// Boolean consistency check: the candidate can match only if every query
/// key was found (for the structural and key-based strategies), or
/// unconditionally for contained-by; the second result says a full recheck
/// is required, which is always the case here since keys are hashes.
pub fn sexp_gin_consistent(check: &Vec<bool>, strategy: i16) -> (r: (bool, bool))
    requires
        strategy == SEXP_GIN_CONTAINS_STRATEGY || strategy == SEXP_GIN_CONTAINED_STRATEGY
            || strategy == SEXP_GIN_CONTAINS_KEY_STRATEGY,
    ensures
        r.0 == (strategy == SEXP_GIN_CONTAINED_STRATEGY || spec_all_true(check@)),
        r.1 == true,
{
    if strategy == SEXP_GIN_CONTAINED_STRATEGY {
        return (true, true);
    }
    let n = check.len();
    let mut i: usize = 0;
    while i < n
        invariant
            0 <= i <= n,
            n == check@.len(),
            strategy != SEXP_GIN_CONTAINED_STRATEGY,
            forall|j: int| 0 <= j < i ==> check@[j],
        decreases n - i,
    {
        if !check[i] {
            proof {
                assert(!check@[i as int]);
                assert(!spec_all_true(check@));
            }
            return (false, true);
        }
        i = i + 1;
    }
    (true, true)
}

/// Three-valued consistency check, per [`spec_triconsistent`].
pub fn sexp_gin_triconsistent(check: &Vec<GinTernary>, strategy: i16) -> (r: GinTernary)
    requires
        strategy == SEXP_GIN_CONTAINS_STRATEGY || strategy == SEXP_GIN_CONTAINED_STRATEGY
            || strategy == SEXP_GIN_CONTAINS_KEY_STRATEGY,
    ensures
        r == spec_triconsistent(check@, strategy),
{
    let n = check.len();
    let mut all_true = true;
    let mut any_false = false;
    let mut i: usize = 0;
    while i < n && !any_false
        invariant
            0 <= i <= n,
            n == check@.len(),
            any_false ==> i >= 1 && check@[i - 1] == GinTernary::False,
            !any_false ==> (forall|j: int| 0 <= j < i ==> check@[j] != GinTernary::False),
            all_true == (forall|j: int| 0 <= j < i ==> check@[j] == GinTernary::True),
            any_false ==> !all_true,
        decreases n - i,
    {
        let v = check[i];
        if v == GinTernary::False {
            any_false = true;
            all_true = false;
        } else if v == GinTernary::Maybe {
            all_true = false;
            proof {
                assert(check@[i as int] != GinTernary::True);
            }
        }
        i = i + 1;
    }
    if strategy == SEXP_GIN_CONTAINED_STRATEGY {
        GinTernary::Maybe
    } else if any_false {
        GinTernary::False
    } else if all_true && n == 1 {
        GinTernary::True
    } else {
        proof {
            if check@.len() == 1 && (forall|i: int|
                0 <= i < check@.len() ==> check@[i] == GinTernary::True) {
                assert(all_true && n == 1);
            }
        }
        GinTernary::Maybe
    }
}

} // verus!
