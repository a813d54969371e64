//! Laws that relate the library's operations to one another, stated over the
//! abstract model that every operation's contract uses.

use vstd::prelude::*;
use crate::model::{Val, wf_val, enc, val_length, val_car, val_cdr, val_nth, val_contains,
    lemma_enc_injective};
use crate::hashing::{spec_sexp_hash, spec_hash64};

verus! {

/// `i` applications of cdr to `v` (none when a cdr is missing along the way).
pub open spec fn cdr_iter(v: Val, i: int) -> Option<Val>
    decreases i,
{
    if i <= 0 {
        Some(v)
    } else {
        match cdr_iter(v, i - 1) {
            Some(w) => val_cdr(w),
            None => None,
        }
    }
}

/// After `i` cdr steps into a list, the elements from `i` on remain, as a
/// list when at least two remain and as nil or a shorter list otherwise.
proof fn lemma_cdr_iter_skip(es: Seq<Val>, i: int)
    requires
        0 <= i < es.len(),
    ensures
        cdr_iter(Val::List(es), i) == Some(Val::List(es.skip(i))),
    decreases i,
{
    if i == 0 {
        assert(es.skip(0) =~= es);
    } else {
        lemma_cdr_iter_skip(es, i - 1);
        assert(es.skip(i - 1).len() == es.len() - i + 1 >= 2);
        assert(es.skip(i - 1).drop_first() =~= es.skip(i));
    }
}

/// Navigation consistency: for a list of length `n >= 1`, `nth` at 0 is the
/// car, the cdr is one element shorter, and `nth` at `i` is the car of `i`
/// cdr steps.
pub proof fn lemma_navigation_consistency(v: Val)
    requires
        wf_val(v),
        v is List,
    ensures
        val_length(v) >= 1,
        val_nth(v, 0) == val_car(v),
        val_cdr(v) is Some,
        val_length(val_cdr(v)->Some_0) == val_length(v) - 1,
        forall|i: int|
            0 <= i < val_length(v) ==> #[trigger] cdr_iter(v, i) is Some && val_car(
                cdr_iter(v, i)->Some_0,
            ) == val_nth(v, i),
{
    let es = v->List_0;
    if es.len() > 1 {
        assert(es.drop_first().len() == es.len() - 1);
    }
    assert forall|i: int| 0 <= i < val_length(v) implies #[trigger] cdr_iter(v, i) is Some
        && val_car(cdr_iter(v, i)->Some_0) == val_nth(v, i) by {
        lemma_cdr_iter_skip(es, i);
        assert(es.skip(i).len() >= 1);
        assert(es.skip(i)[0] == es[i]);
    }
}

/// Containment is reflexive: every value contains itself.
pub proof fn lemma_contains_reflexive(v: Val)
    ensures
        val_contains(v, v),
{
}

/// Every list contains each of its direct children.
pub proof fn lemma_contains_direct_child(v: Val, i: int)
    requires
        v is List,
        0 <= i < v->List_0.len(),
    ensures
        val_contains(v, v->List_0[i]),
{
    let es = v->List_0;
    lemma_contains_reflexive(es[i]);
    assert(val_contains(es[i], es[i]));
}

/// Containment is transitive.
pub proof fn lemma_contains_transitive(x: Val, y: Val, z: Val)
    requires
        val_contains(x, y),
        val_contains(y, z),
    ensures
        val_contains(x, z),
    decreases x,
{
    if x == y {
    } else {
        match x {
            Val::List(es) => {
                let i = choose|i: int| 0 <= i < es.len() && val_contains(#[trigger] es[i], y);
                lemma_contains_transitive(es[i], y, z);
            },
            _ => {},
        }
    }
}

/// Hash stability: values with byte-equal content (exactly what `equals`
/// compares) are one and the same value and hash alike; collisions across
/// unequal values remain possible, so a hash match proves nothing.
pub proof fn lemma_hash_stability(x: Val, y: Val)
    requires
        wf_val(x),
        wf_val(y),
        enc(x) == enc(y),
    ensures
        x == y,
        spec_sexp_hash(x) == spec_sexp_hash(y),
        spec_hash64(enc(x)) == spec_hash64(enc(y)),
{
    lemma_enc_injective(x, y);
}

/// Canonicalization: all well-formed encodings of nil (in particular the
/// parses of `()`, `nil` and `(  )`, which all yield the nil value) are
/// byte-identical past the version header; more generally, equal values have
/// byte-identical encodings.
pub proof fn lemma_canonical_bytes(x: Val, y: Val)
    requires
        x == y,
    ensures
        enc(x) == enc(y),
{
}

} // verus!
