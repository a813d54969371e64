//! Wildcard/capture pattern matching between an encoded expression and an
//! encoded pattern, plus a pre-order "find first matching subexpression"
//! search.
//!
//! Pattern meaning is carried by symbols on the pattern side only: `_`
//! matches exactly one element, `?name` captures one element, `_*` and
//! `??name` match all remaining elements of a list and are legal only in
//! final position; any other pattern element must equal the expression
//! element exactly.

use vstd::prelude::*;
use crate::model::Val;
use crate::sexp::{Sexp, SexpType};

verus! {

/// How a pattern-side symbol is interpreted.
#[derive(Clone, Copy, Debug, PartialEq, Eq, Structural)]
pub enum PatternType {
    Literal,
    Wildcard,
    WildcardRest,
    Capture,
    CaptureRest,
}

/// Classification of a pattern symbol's text. Spellings are checked in
/// order: the exact token `_`, the exact token `_*`, a `??` prefix, a `?`
/// prefix, and anything else is a literal.
pub open spec fn spec_pattern_kind(s: Seq<u8>) -> PatternType {
    if s == seq![0x5Fu8] {
        PatternType::Wildcard
    } else if s == seq![0x5Fu8, 0x2Au8] {
        PatternType::WildcardRest
    } else if s.len() >= 2 && s[0] == 0x3F && s[1] == 0x3F {
        PatternType::CaptureRest
    } else if s.len() >= 1 && s[0] == 0x3F {
        PatternType::Capture
    } else {
        PatternType::Literal
    }
}

/// A pattern element that matches exactly one arbitrary element.
pub open spec fn pattern_is_single(p: Val) -> bool {
    match p {
        Val::Sym(s) => spec_pattern_kind(s) == PatternType::Wildcard || spec_pattern_kind(s)
            == PatternType::Capture,
        _ => false,
    }
}

/// A pattern element that matches all remaining elements of a list.
pub open spec fn pattern_is_rest(p: Val) -> bool {
    match p {
        Val::Sym(s) => spec_pattern_kind(s) == PatternType::WildcardRest || spec_pattern_kind(s)
            == PatternType::CaptureRest,
        _ => false,
    }
}

/// Whether expression `e` matches pattern `p`: a single-element pattern
/// matches anything, a rest pattern never matches as a lone element, pattern
/// lists are matched element by element, and any other pattern must equal
/// the expression exactly.
pub open spec fn val_matches(e: Val, p: Val) -> bool
    decreases p, 1int,
{
    if pattern_is_single(p) {
        true
    } else if pattern_is_rest(p) {
        false
    } else {
        match p {
            Val::List(ps) => e is List && list_matches(e->List_0, ps),
            _ => e == p,
        }
    }
}

/// Positional matching of list elements: an exhausted pattern requires an
/// exhausted expression; a rest pattern matches everything that remains but
/// is legal only as the final pattern element; otherwise the heads must
/// match and the tails recursively match.
pub open spec fn list_matches(es: Seq<Val>, ps: Seq<Val>) -> bool
    decreases ps, 0int,
{
    if ps.len() == 0 {
        es.len() == 0
    } else if pattern_is_rest(ps[0]) {
        ps.len() == 1
    } else if es.len() == 0 {
        false
    } else {
        val_matches(es[0], ps[0]) && list_matches(es.drop_first(), ps.drop_first())
    }
}

/// Pre-order search: the first (in traversal order) subexpression of `e`
/// that matches `p`, the expression itself tried first.
pub open spec fn val_find(e: Val, p: Val) -> Option<Val>
    decreases e, 1int,
{
    if val_matches(e, p) {
        Some(e)
    } else {
        match e {
            Val::List(es) => find_first_in(es, p),
            _ => None,
        }
    }
}

/// The first match of `p` found anywhere within the elements of `es`,
/// searched left to right.
pub open spec fn find_first_in(es: Seq<Val>, p: Val) -> Option<Val>
    decreases es, 0int,
{
    if es.len() == 0 {
        None
    } else if val_find(es.first(), p) is Some {
        val_find(es.first(), p)
    } else {
        find_first_in(es.drop_first(), p)
    }
}

/// Classifies a symbol's text: `_` is a wildcard, `_*` a wildcard rest,
/// a `??` prefix a capture rest, a `?` prefix a capture, anything else a
/// literal.
pub fn get_pattern_type(sym: &Vec<u8>) -> (r: PatternType)
    ensures
        r == spec_pattern_kind(sym@),
{
    let n = sym.len();
    if n == 1 && sym[0] == 0x5F {
        // "_"
        proof {
            assert(sym@ =~= seq![0x5Fu8]);
        }
        PatternType::Wildcard
    } else if n == 2 && sym[0] == 0x5F && sym[1] == 0x2A {
        // "_*"
        proof {
            assert(sym@ =~= seq![0x5Fu8, 0x2Au8]);
        }
        PatternType::WildcardRest
    } else if n >= 2 && sym[0] == 0x3F && sym[1] == 0x3F {
        // "??name"
        PatternType::CaptureRest
    } else if n >= 1 && sym[0] == 0x3F {
        // "?name"
        PatternType::Capture
    } else {
        proof {
            if sym@ == seq![0x5Fu8] {
                assert(sym@.len() == 1 && sym@[0] == 0x5F);
            }
            if sym@ == seq![0x5Fu8, 0x2Au8] {
                assert(sym@.len() == 2 && sym@[0] == 0x5F && sym@[1] == 0x2A);
            }
        }
        PatternType::Literal
    }
}

/// Whether the expression matches the pattern: single-element patterns match
/// anything, rest patterns never match as a lone element, lists are matched
/// element by element, and any other pattern must equal the expression
/// exactly (tag and payload).
pub fn sexp_match_fn(expr: &Sexp, pattern: &Sexp) -> (r: bool)
    requires
        expr.wf(),
        pattern.wf(),
    ensures
        r == val_matches(expr@, pattern@),
    decreases pattern@, 1int,
{
    if pattern.get_type() == SexpType::Symbol {
        let name = pattern.text_bytes();
        let k = get_pattern_type(&name);
        if k == PatternType::Wildcard || k == PatternType::Capture {
            assert(pattern_is_single(pattern@));
            return true;
        }
        if k == PatternType::WildcardRest || k == PatternType::CaptureRest {
            assert(pattern_is_rest(pattern@));
            return false;
        }
        assert(!pattern_is_single(pattern@) && !pattern_is_rest(pattern@));
    }
    if pattern.get_type() == SexpType::List {
        if expr.get_type() != SexpType::List {
            return false;
        }
        match_list_elements(expr, pattern)
    } else {
        expr.equals(pattern)
    }
}

/// Positional left-to-right matching of list elements, with rest patterns
/// legal only as the final pattern element.
fn match_list_elements(expr: &Sexp, pattern: &Sexp) -> (r: bool)
    requires
        expr.wf(),
        pattern.wf(),
        expr@ is List,
        pattern@ is List,
    ensures
        r == list_matches(expr@->List_0, pattern@->List_0),
    decreases pattern@, 0int,
{
    let ghost es = expr@->List_0;
    let ghost ps = pattern@->List_0;
    let ecount = expr.child_count();
    let pcount = pattern.child_count();
    let mut j: usize = 0;
    proof {
        assert(es.skip(0) =~= es);
        assert(ps.skip(0) =~= ps);
    }
    while j < pcount
        invariant
            0 <= j <= pcount,
            j <= ecount,
            ecount == es.len(),
            pcount == ps.len(),
            expr.wf(),
            pattern.wf(),
            expr@ is List,
            pattern@ is List,
            es == expr@->List_0,
            ps == pattern@->List_0,
            list_matches(es, ps) == list_matches(es.skip(j as int), ps.skip(j as int)),
        decreases pcount - j,
    {
        let pc = pattern.child(j);
        assert(ps.skip(j as int)[0] == ps[j as int]);
        if pc.is_symbol() {
            let name = pc.text_bytes();
            let k = get_pattern_type(&name);
            if k == PatternType::WildcardRest || k == PatternType::CaptureRest {
                assert(pattern_is_rest(ps[j as int]));
                assert(list_matches(es.skip(j as int), ps.skip(j as int)) == (ps.skip(
                    j as int,
                ).len() == 1));
                return j + 1 == pcount;
            }
            assert(!pattern_is_rest(ps[j as int]));
        }
        assert(!pattern_is_rest(ps[j as int])) by {
            if ps[j as int] is Sym {
            }
        }
        if j >= ecount {
            assert(es.skip(j as int).len() == 0 && ps.skip(j as int).len() > 0);
            return false;
        }
        let ec = expr.child(j);
        assert(es.skip(j as int)[0] == es[j as int]);
        if !sexp_match_fn(&ec, &pc) {
            return false;
        }
        proof {
            assert(es.skip(j as int).drop_first() =~= es.skip(j + 1));
            assert(ps.skip(j as int).drop_first() =~= ps.skip(j + 1));
        }
        j = j + 1;
    }
    assert(ps.skip(j as int).len() == 0);
    assert(list_matches(es.skip(j as int), ps.skip(j as int)) == (es.skip(j as int).len() == 0));
    j == ecount
}

/// Pre-order search for the first subexpression that matches the pattern:
/// the expression itself is tried first, then each child's subtree in order.
pub fn sexp_find(expr: &Sexp, pattern: &Sexp) -> (r: Option<Sexp>)
    requires
        expr.wf(),
        pattern.wf(),
    ensures
        match r {
            Some(f) => f.wf() && val_find(expr@, pattern@) == Some(f@),
            None => val_find(expr@, pattern@) is None,
        },
    decreases expr@,
{
    if sexp_match_fn(expr, pattern) {
        return Some(expr.duplicate());
    }
    if expr.get_type() != SexpType::List {
        return None;
    }
    let ghost es = expr@->List_0;
    let count = expr.child_count();
    let mut k: usize = 0;
    proof {
        assert(es.skip(0) =~= es);
    }
    while k < count
        invariant
            0 <= k <= count,
            count == es.len(),
            expr.wf(),
            pattern.wf(),
            expr@ is List,
            es == expr@->List_0,
            !val_matches(expr@, pattern@),
            find_first_in(es, pattern@) == find_first_in(es.skip(k as int), pattern@),
        decreases count - k,
    {
        let c = expr.child(k);
        assert(es.skip(k as int)[0] == es[k as int]);
        let found = sexp_find(&c, pattern);
        proof {
            assert(es.skip(k as int).drop_first() =~= es.skip(k + 1));
        }
        if found.is_some() {
            return found;
        }
        k = k + 1;
    }
    assert(find_first_in(es.skip(k as int), pattern@) is None);
    None
}

} // verus!
