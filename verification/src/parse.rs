//! The textual parser: a single left-to-right recursive-descent pass with
//! one byte of lookahead, from surface syntax to a parsed tree.
//!
//! Whitespace and `;`-to-end-of-line comments are insignificant. A value is
//! `(` ... `)` (a list; empty becomes nil), a double-quoted string with the
//! escapes `\n \t \r \\ \"` (any other escaped byte is taken literally), or
//! an atom: a maximal run of bytes outside whitespace, parentheses, quote
//! and `;`, classified in order as the literal tokens `nil`/`()`, a 64-bit
//! signed integer, a float, or a symbol.
//!
//! Float atoms are the one classification this verified core cannot decide
//! itself (machine floats stay outside it): the caller supplies, per atom
//! token in reading order, the IEEE-754 bits the token denotes if it reads
//! as a float ([`Sexp::atom_tokens`] lists the tokens to classify). A token
//! with no answer, or with answer `None`, falls through to a symbol.

use vstd::prelude::*;
use crate::model::{Val, canon, enc};
use crate::codec::{ParsedExpr, parsed_view, parsed_view_seq, lemma_parsed_view_seq,
    lemma_parsed_canon_wf, serialize_parsed};
use crate::hashing::le_bytes_of_u64;
use crate::sexp::{Sexp, copy_range, bytes_eq};
use crate::model::FORMAT_VERSION;

verus! {

/// Why a parse failed; construction of the value is aborted entirely.
#[derive(Clone, Copy, Debug, PartialEq, Eq, Structural)]
pub enum ParseError {
    /// A `(` without its matching `)`.
    UnterminatedList,
    /// A `"` without its matching `"`.
    UnterminatedString,
    /// A `\` at the very end of the input.
    UnterminatedEscape,
    /// An empty atom token (cannot arise from the tokenizer, but guarded).
    EmptyAtom,
}

/// ASCII whitespace: space, horizontal tab, line feed, form feed, carriage
/// return.
pub open spec fn is_ws(c: u8) -> bool {
    c == 0x20 || c == 0x09 || c == 0x0A || c == 0x0C || c == 0x0D
}

/// A byte that ends an atom token: whitespace, parentheses, the quote, or
/// the comment introducer.
pub open spec fn is_stop(c: u8) -> bool {
    is_ws(c) || c == 0x28 || c == 0x29 || c == 0x22 || c == 0x3B
}

/// The position after all insignificant input at `pos`: whitespace, and
/// comments from `;` to the end of the line.
pub open spec fn spec_skip_ws(s: Seq<u8>, pos: int) -> int
    decreases s.len() - pos, 0int,
        when 0 <= pos <= s.len()
{
    if pos < s.len() {
        if is_ws(s[pos]) {
            spec_skip_ws(s, pos + 1)
        } else if s[pos] == 0x3B {
            spec_skip_comment(s, pos + 1)
        } else {
            pos
        }
    } else {
        pos
    }
}

/// The position after the rest of a comment line (the newline included).
pub open spec fn spec_skip_comment(s: Seq<u8>, pos: int) -> int
    decreases s.len() - pos, 1int,
        when 0 <= pos <= s.len()
{
    if pos < s.len() {
        if s[pos] == 0x0A {
            spec_skip_ws(s, pos + 1)
        } else {
            spec_skip_comment(s, pos + 1)
        }
    } else {
        pos
    }
}

/// Skipping insignificant input stays inside the buffer, lands on a
/// significant byte, and is idempotent.
pub proof fn lemma_skip_ws_bounds(s: Seq<u8>, pos: int)
    requires
        0 <= pos <= s.len(),
    ensures
        pos <= spec_skip_ws(s, pos) <= s.len(),
        spec_skip_ws(s, spec_skip_ws(s, pos)) == spec_skip_ws(s, pos),
        spec_skip_ws(s, pos) < s.len() ==> !is_ws(s[spec_skip_ws(s, pos)]) && s[spec_skip_ws(
            s,
            pos,
        )] != 0x3B,
    decreases s.len() - pos, 0int,
{
    if pos < s.len() {
        if is_ws(s[pos]) {
            lemma_skip_ws_bounds(s, pos + 1);
        } else if s[pos] == 0x3B {
            lemma_skip_comment_bounds(s, pos + 1);
        }
    }
}

/// Companion of [`lemma_skip_ws_bounds`] for comment tails.
pub proof fn lemma_skip_comment_bounds(s: Seq<u8>, pos: int)
    requires
        0 <= pos <= s.len(),
    ensures
        pos <= spec_skip_comment(s, pos) <= s.len(),
        spec_skip_ws(s, spec_skip_comment(s, pos)) == spec_skip_comment(s, pos),
        spec_skip_comment(s, pos) < s.len() ==> !is_ws(s[spec_skip_comment(s, pos)])
            && s[spec_skip_comment(s, pos)] != 0x3B,
    decreases s.len() - pos, 1int,
{
    if pos < s.len() {
        if s[pos] == 0x0A {
            lemma_skip_ws_bounds(s, pos + 1);
        } else {
            lemma_skip_comment_bounds(s, pos + 1);
        }
    }
}

/// The end of the atom token starting at `pos`: the first stop byte at or
/// after it.
pub open spec fn spec_token_end(s: Seq<u8>, pos: int) -> int
    decreases s.len() - pos,
        when 0 <= pos <= s.len()
{
    if pos < s.len() && !is_stop(s[pos]) {
        spec_token_end(s, pos + 1)
    } else {
        pos
    }
}

/// The token runs to the first stop byte.
pub proof fn lemma_token_end(s: Seq<u8>, pos: int)
    requires
        0 <= pos <= s.len(),
    ensures
        pos <= spec_token_end(s, pos) <= s.len(),
        spec_token_end(s, pos) < s.len() ==> is_stop(s[spec_token_end(s, pos)]),
        forall|j: int| pos <= j < spec_token_end(s, pos) ==> !is_stop(s[j]),
    decreases s.len() - pos,
{
    if pos < s.len() && !is_stop(s[pos]) {
        lemma_token_end(s, pos + 1);
    }
}

/// The numeric value of a run of decimal digits.
pub open spec fn dec_value(digs: Seq<u8>) -> nat
    decreases digs,
{
    if digs.len() == 0 {
        0
    } else {
        dec_value(digs.drop_last()) * 10 + (digs.last() - 0x30) as nat
    }
}

/// Whether every byte is a decimal digit.
pub open spec fn all_digits(digs: Seq<u8>) -> bool {
    forall|i: int| 0 <= i < digs.len() ==> 0x30 <= #[trigger] digs[i] <= 0x39
}

/// A 64-bit signed integer read from decimal text: an optional sign followed
/// by at least one digit, rejected outside the representable range.
pub open spec fn spec_parse_i64(tok: Seq<u8>) -> Option<i64> {
    let neg = tok.len() >= 1 && tok[0] == 0x2D;
    let digs = if tok.len() >= 1 && (tok[0] == 0x2D || tok[0] == 0x2B) {
        tok.drop_first()
    } else {
        tok
    };
    if digs.len() == 0 || !all_digits(digs) {
        None
    } else {
        let m = dec_value(digs);
        if neg {
            if m <= 0x8000_0000_0000_0000 {
                Some((-(m as int)) as i64)
            } else {
                None
            }
        } else {
            if m <= i64::MAX {
                Some(m as i64)
            } else {
                None
            }
        }
    }
}

/// What one escaped byte stands for.
pub open spec fn spec_unescape(c: u8) -> u8 {
    if c == 0x6E {  // n
        0x0A
    } else if c == 0x74 {  // t
        0x09
    } else if c == 0x72 {  // r
        0x0D
    } else {
        c
    }
}

/// The body of a double-quoted string starting just past the opening quote:
/// the unescaped bytes and the position just past the closing quote.
pub open spec fn spec_parse_string(s: Seq<u8>, pos: int) -> Result<(Seq<u8>, int), ParseError>
    decreases s.len() - pos,
        when 0 <= pos <= s.len()
{
    if pos >= s.len() {
        Err(ParseError::UnterminatedString)
    } else if s[pos] == 0x22 {
        Ok((Seq::empty(), pos + 1))
    } else if s[pos] == 0x5C {
        if pos + 1 >= s.len() {
            Err(ParseError::UnterminatedEscape)
        } else {
            match spec_parse_string(s, pos + 2) {
                Ok((rest, p)) => Ok((seq![spec_unescape(s[pos + 1])] + rest, p)),
                Err(e) => Err(e),
            }
        }
    } else {
        match spec_parse_string(s, pos + 1) {
            Ok((rest, p)) => Ok((seq![s[pos]] + rest, p)),
            Err(e) => Err(e),
        }
    }
}

/// The float answer for the `k`-th atom token, `None` past the supplied
/// answers.
pub open spec fn fb_at(fb: Seq<Option<u64>>, k: int) -> Option<u64> {
    if 0 <= k < fb.len() {
        fb[k]
    } else {
        None
    }
}

/// The outcome of one parse step: the value read, the position just past it,
/// and the atom tokens consumed in reading order.
pub struct PParsed {
    pub v: Val,
    pub pos: int,
    pub toks: Seq<Seq<u8>>,
}

/// One value parsed at `pos`, with `fb` answering float classification for
/// atom tokens counted from `k`: end of input is nil, `(` opens a list, `"`
/// opens a string, anything else is an atom.
pub open spec fn spec_parse(s: Seq<u8>, pos: int, fb: Seq<Option<u64>>, k: int) -> Result<
    PParsed,
    ParseError,
>
    decreases s.len() - pos, 0int,
        when 0 <= pos <= s.len()
{
    let p = spec_skip_ws(s, pos);
    proof {
        lemma_skip_ws_bounds(s, pos);
    }
    if p >= s.len() {
        Ok(PParsed { v: Val::Nil, pos: p, toks: Seq::empty() })
    } else if s[p] == 0x28 {
        spec_parse_items(s, p + 1, fb, k, Seq::empty(), Seq::empty())
    } else if s[p] == 0x22 {
        match spec_parse_string(s, p + 1) {
            Ok((text, pp)) => Ok(PParsed { v: Val::Str(text), pos: pp, toks: Seq::empty() }),
            Err(e) => Err(e),
        }
    } else {
        spec_parse_atom(s, p, fb, k)
    }
}

/// List elements parsed one by one until the closing `)`, accumulating the
/// values (`acc`) and the atom tokens (`toks`) read so far; an empty list is
/// nil.
pub open spec fn spec_parse_items(
    s: Seq<u8>,
    pos: int,
    fb: Seq<Option<u64>>,
    k: int,
    acc: Seq<Val>,
    toks: Seq<Seq<u8>>,
) -> Result<PParsed, ParseError>
    decreases s.len() - pos, 1int,
        when 0 <= pos <= s.len()
{
    let p = spec_skip_ws(s, pos);
    proof {
        lemma_skip_ws_bounds(s, pos);
    }
    if p >= s.len() {
        Err(ParseError::UnterminatedList)
    } else if s[p] == 0x29 {
        let v = if acc.len() == 0 {
            Val::Nil
        } else {
            Val::List(acc)
        };
        Ok(PParsed { v, pos: p + 1, toks })
    } else {
        match spec_parse(s, p, fb, k + toks.len()) {
            Ok(item) => {
                let next = if p < item.pos <= s.len() {
                    item.pos
                } else {
                    p + 1
                };
                spec_parse_items(s, next, fb, k, acc.push(item.v), toks + item.toks)
            },
            Err(e) => Err(e),
        }
    }
}

/// The atom token at `pos` classified: the literal tokens `nil` and `()`,
/// then a 64-bit integer, then a float by the supplied answer, else a
/// symbol.
pub open spec fn spec_parse_atom(s: Seq<u8>, pos: int, fb: Seq<Option<u64>>, k: int) -> Result<
    PParsed,
    ParseError,
> {
    let e = spec_token_end(s, pos);
    let tok = s.subrange(pos, e);
    if tok.len() == 0 {
        Err(ParseError::EmptyAtom)
    } else {
        let v = if tok == seq![0x6Eu8, 0x69u8, 0x6Cu8] || tok == seq![0x28u8, 0x29u8] {
            Val::Nil
        } else {
            match spec_parse_i64(tok) {
                Some(n) => Val::Int(n),
                None => match fb_at(fb, k) {
                    Some(bits) => Val::Float(le_bytes_of_u64(bits)),
                    None => Val::Sym(tok),
                },
            }
        };
        Ok(PParsed { v, pos: e, toks: seq![tok] })
    }
}

/// Parse positions never move backwards, and stay inside the buffer.
pub proof fn lemma_parse_pos_bounds(s: Seq<u8>, pos: int, fb: Seq<Option<u64>>, k: int)
    requires
        0 <= pos <= s.len(),
    ensures
        spec_parse(s, pos, fb, k) matches Ok(p) ==> spec_skip_ws(s, pos) <= p.pos <= s.len(),
    decreases s.len() - pos, 0int,
{
    lemma_skip_ws_bounds(s, pos);
    let q = spec_skip_ws(s, pos);
    if q < s.len() {
        if s[q] == 0x28 {
            lemma_parse_items_pos_bounds(s, q + 1, fb, k, Seq::empty(), Seq::empty());
        } else if s[q] == 0x22 {
            lemma_parse_string_pos_bounds(s, q + 1);
        } else {
            lemma_token_end(s, q);
        }
    }
}

/// Companion of [`lemma_parse_pos_bounds`] for list element sequences.
pub proof fn lemma_parse_items_pos_bounds(
    s: Seq<u8>,
    pos: int,
    fb: Seq<Option<u64>>,
    k: int,
    acc: Seq<Val>,
    toks: Seq<Seq<u8>>,
)
    requires
        0 <= pos <= s.len(),
    ensures
        spec_parse_items(s, pos, fb, k, acc, toks) matches Ok(p) ==> pos <= p.pos <= s.len(),
    decreases s.len() - pos, 1int,
{
    lemma_skip_ws_bounds(s, pos);
    let q = spec_skip_ws(s, pos);
    if q < s.len() && s[q] != 0x29 {
        match spec_parse(s, q, fb, k + toks.len()) {
            Ok(item) => {
                lemma_parse_pos_bounds(s, q, fb, k + toks.len());
                let next = if q < item.pos <= s.len() {
                    item.pos
                } else {
                    q + 1
                };
                lemma_parse_items_pos_bounds(s, next, fb, k, acc.push(item.v), toks + item.toks);
            },
            Err(_) => {},
        }
    }
}

/// Companion of [`lemma_parse_pos_bounds`] for string bodies.
pub proof fn lemma_parse_string_pos_bounds(s: Seq<u8>, pos: int)
    requires
        0 <= pos <= s.len(),
    ensures
        spec_parse_string(s, pos) matches Ok(r) ==> pos < r.1 <= s.len(),
    decreases s.len() - pos,
{
    if pos < s.len() {
        if s[pos] == 0x22 {
        } else if s[pos] == 0x5C {
            if pos + 1 < s.len() {
                lemma_parse_string_pos_bounds(s, pos + 2);
            }
        } else {
            lemma_parse_string_pos_bounds(s, pos + 1);
        }
    }
}

/// Tokenization does not depend on the float answers: two parses of the same
/// text agree on success, on every cursor position, and on the atom tokens
/// read, whatever answers they were given. (Only the resulting values can
/// differ, where an atom classifies as float under one set and symbol under
/// the other.) This is what makes the scan-then-classify protocol of
/// [`crate::sexp::Sexp::atom_tokens`] and [`crate::sexp::Sexp::input`] sound.
pub proof fn lemma_tokens_independent_of_answers(
    s: Seq<u8>,
    pos: int,
    fb1: Seq<Option<u64>>,
    k1: int,
    fb2: Seq<Option<u64>>,
    k2: int,
)
    requires
        0 <= pos <= s.len(),
    ensures
        match (spec_parse(s, pos, fb1, k1), spec_parse(s, pos, fb2, k2)) {
            (Ok(p1), Ok(p2)) => p1.pos == p2.pos && p1.toks == p2.toks,
            (Err(e1), Err(e2)) => e1 == e2,
            _ => false,
        },
    decreases s.len() - pos, 0int,
{
    lemma_skip_ws_bounds(s, pos);
    let p = spec_skip_ws(s, pos);
    if p < s.len() {
        if s[p] == 0x28 {
            lemma_items_independent_of_answers(
                s,
                p + 1,
                fb1,
                k1,
                fb2,
                k2,
                Seq::empty(),
                Seq::empty(),
                Seq::empty(),
                Seq::empty(),
            );
            match (spec_parse_items(s, p + 1, fb1, k1, Seq::empty(), Seq::empty()),
                spec_parse_items(s, p + 1, fb2, k2, Seq::empty(), Seq::empty())) {
                (Ok(p1), Ok(p2)) => {
                    assert(p1.toks.skip(0) =~= p1.toks);
                    assert(p2.toks.skip(0) =~= p2.toks);
                },
                _ => {},
            }
        } else if s[p] == 0x22 {
        } else {
            lemma_token_end(s, p);
        }
    }
}

/// Companion of [`lemma_tokens_independent_of_answers`] for list elements.
proof fn lemma_items_independent_of_answers(
    s: Seq<u8>,
    pos: int,
    fb1: Seq<Option<u64>>,
    k1: int,
    fb2: Seq<Option<u64>>,
    k2: int,
    acc1: Seq<Val>,
    toks1: Seq<Seq<u8>>,
    acc2: Seq<Val>,
    toks2: Seq<Seq<u8>>,
)
    requires
        0 <= pos <= s.len(),
        toks1.len() == toks2.len(),
        acc1.len() == acc2.len(),
    ensures
        match (spec_parse_items(s, pos, fb1, k1, acc1, toks1), spec_parse_items(
            s,
            pos,
            fb2,
            k2,
            acc2,
            toks2,
        )) {
            (Ok(p1), Ok(p2)) => p1.pos == p2.pos && p1.toks.skip(toks1.len() as int)
                == p2.toks.skip(toks2.len() as int),
            (Err(e1), Err(e2)) => e1 == e2,
            _ => false,
        },
    decreases s.len() - pos, 1int,
{
    lemma_skip_ws_bounds(s, pos);
    let p = spec_skip_ws(s, pos);
    if p >= s.len() {
    } else if s[p] == 0x29 {
        assert(toks1.skip(toks1.len() as int) =~= toks2.skip(toks2.len() as int));
    } else {
        lemma_tokens_independent_of_answers(s, p, fb1, k1 + toks1.len(), fb2, k2 + toks2.len());
        match (spec_parse(s, p, fb1, k1 + toks1.len()), spec_parse(s, p, fb2, k2 + toks2.len())) {
            (Ok(i1), Ok(i2)) => {
                let next = if p < i1.pos <= s.len() {
                    i1.pos
                } else {
                    p + 1
                };
                lemma_items_independent_of_answers(
                    s,
                    next,
                    fb1,
                    k1,
                    fb2,
                    k2,
                    acc1.push(i1.v),
                    toks1 + i1.toks,
                    acc2.push(i2.v),
                    toks2 + i2.toks,
                );
                match (spec_parse_items(s, next, fb1, k1, acc1.push(i1.v), toks1 + i1.toks),
                    spec_parse_items(s, next, fb2, k2, acc2.push(i2.v), toks2 + i2.toks)) {
                    (Ok(p1), Ok(p2)) => {
                        lemma_items_toks_prefix(s, next, fb1, k1, acc1.push(i1.v), toks1 + i1.toks);
                        lemma_items_toks_prefix(s, next, fb2, k2, acc2.push(i2.v), toks2 + i2.toks);
                        assert((toks1 + i1.toks).skip(toks1.len() as int) =~= i1.toks);
                        assert((toks2 + i2.toks).skip(toks2.len() as int) =~= i2.toks);
                        lemma_skip_decompose(p1.toks, toks1.len() as int, i1.toks);
                        lemma_skip_decompose(p2.toks, toks2.len() as int, i2.toks);
                    },
                    _ => {},
                }
            },
            _ => {},
        }
    }
}

/// A list whose prefix up to `a + mid.len()` ends in `mid` splits at `a`
/// into `mid` followed by the remainder.
proof fn lemma_skip_decompose(full: Seq<Seq<u8>>, a: int, mid: Seq<Seq<u8>>)
    requires
        0 <= a,
        a + mid.len() <= full.len(),
        full.take(a + mid.len()).skip(a) == mid,
    ensures
        full.skip(a) == mid + full.skip(a + mid.len()),
{
    let b = a + mid.len();
    assert(full.skip(a) =~= mid + full.skip(b)) by {
        assert forall|j: int| 0 <= j < full.len() - a implies full.skip(a)[j] == (mid + full.skip(
            b,
        ))[j] by {
            if j < mid.len() {
                assert(full.take(b).skip(a)[j] == full.take(b)[a + j]);
                assert(full.take(b)[a + j] == full[a + j]);
                assert(mid[j] == full.take(b).skip(a)[j]);
            } else {
                assert(full.skip(b)[j - mid.len()] == full[b + (j - mid.len())]);
            }
        }
    }
}

/// The accumulated tokens are a prefix of whatever a successful element
/// parse returns.
proof fn lemma_items_toks_prefix(
    s: Seq<u8>,
    pos: int,
    fb: Seq<Option<u64>>,
    k: int,
    acc: Seq<Val>,
    toks: Seq<Seq<u8>>,
)
    requires
        0 <= pos <= s.len(),
    ensures
        spec_parse_items(s, pos, fb, k, acc, toks) matches Ok(p) ==> p.toks.len() >= toks.len()
            && p.toks.take(toks.len() as int) == toks,
    decreases s.len() - pos, 2int,
{
    lemma_skip_ws_bounds(s, pos);
    let p = spec_skip_ws(s, pos);
    if p >= s.len() {
    } else if s[p] == 0x29 {
        assert(toks.take(toks.len() as int) =~= toks);
    } else {
        match spec_parse(s, p, fb, k + toks.len()) {
            Ok(item) => {
                let next = if p < item.pos <= s.len() {
                    item.pos
                } else {
                    p + 1
                };
                lemma_items_toks_prefix(s, next, fb, k, acc.push(item.v), toks + item.toks);
                match spec_parse_items(s, next, fb, k, acc.push(item.v), toks + item.toks) {
                    Ok(pp) => {
                        assert(pp.toks.take((toks + item.toks).len() as int) == toks + item.toks);
                        assert(pp.toks.take(toks.len() as int) =~= toks) by {
                            assert(forall|i: int|
                                0 <= i < (toks + item.toks).len() ==> pp.toks[i] == (toks
                                    + item.toks)[i]) by {
                                assert(forall|i: int|
                                    0 <= i < (toks + item.toks).len() ==> pp.toks.take(
                                        (toks + item.toks).len() as int,
                                    )[i] == pp.toks[i]);
                            }
                        }
                    },
                    Err(_) => {},
                }
            },
            Err(_) => {},
        }
    }
}

/// What parsing a whole input yields: the canonicalized value of the first
/// expression read (trailing input is ignored), or the parse error.
pub open spec fn spec_input(s: Seq<u8>, fb: Seq<Option<u64>>) -> Result<Val, ParseError> {
    match spec_parse(s, 0, fb, 0) {
        Ok(p) => Ok(canon(p.v)),
        Err(e) => Err(e),
    }
}

/// The texts of a sequence of token buffers.
pub open spec fn toks_view(ts: Seq<Vec<u8>>) -> Seq<Seq<u8>> {
    ts.map_values(|t: Vec<u8>| t@)
}

/// Parse state: the input buffer, a cursor, the per-token float answers, and
/// the atom tokens read so far.
pub struct Parser<'a> {
    input: &'a Vec<u8>,
    pos: usize,
    floats: &'a Vec<Option<u64>>,
    tokens: Vec<Vec<u8>>,
}

impl<'a> Parser<'a> {
    /// The cursor stays inside the buffer.
    pub closed spec fn inv(&self) -> bool {
        self.pos <= self.input@.len()
    }

    /// The input text.
    pub closed spec fn text(&self) -> Seq<u8> {
        self.input@
    }

    /// The float answers.
    pub closed spec fn fb(&self) -> Seq<Option<u64>> {
        self.floats@
    }

    /// The cursor.
    pub closed spec fn at(&self) -> int {
        self.pos as int
    }

    /// The texts of the atom tokens read so far.
    pub closed spec fn toks(&self) -> Seq<Seq<u8>> {
        toks_view(self.tokens@)
    }

    /// A step never rebinds the inputs and only appends to the token list.
    pub closed spec fn steps_from(self, o: Parser<'a>) -> bool {
        &&& self.input == o.input
        &&& self.floats == o.floats
        &&& o.toks().is_prefix_of(self.toks())
        &&& o.pos <= self.pos
    }

    /// A fresh parser at the start of `input`.
    pub fn new(input: &'a Vec<u8>, floats: &'a Vec<Option<u64>>) -> (r: Parser<'a>)
        ensures
            r.inv(),
            r.at() == 0,
            r.text() == input@,
            r.fb() == floats@,
            r.toks() == Seq::<Seq<u8>>::empty(),
    {
        let r = Parser { input, pos: 0, floats, tokens: Vec::new() };
        proof {
            assert(r.toks() =~= Seq::<Seq<u8>>::empty());
        }
        r
    }

    /// Skips whitespace and comments.
    fn skip_whitespace(&mut self)
        requires
            old(self).inv(),
        ensures
            final(self).inv(),
            final(self).steps_from(*old(self)),
            final(self).tokens == old(self).tokens,
            final(self).pos == spec_skip_ws(old(self).text(), old(self).at()),
        decreases old(self).input@.len() - old(self).pos, 0int,
    {
        let n = self.input.len();
        if self.pos < n {
            let c = self.input[self.pos];
            if c == 0x20 || c == 0x09 || c == 0x0A || c == 0x0C || c == 0x0D {
                self.pos = self.pos + 1;
                self.skip_whitespace();
            } else if c == 0x3B {
                self.pos = self.pos + 1;
                self.skip_comment();
            } else {
                proof {
                    lemma_toks_prefix_refl(self.toks());
                }
            }
        } else {
            proof {
                lemma_toks_prefix_refl(self.toks());
            }
        }
    }

    /// Skips the rest of a comment line, then any further whitespace.
    fn skip_comment(&mut self)
        requires
            old(self).inv(),
        ensures
            final(self).inv(),
            final(self).steps_from(*old(self)),
            final(self).tokens == old(self).tokens,
            final(self).pos == spec_skip_comment(old(self).text(), old(self).at()),
        decreases old(self).input@.len() - old(self).pos, 1int,
    {
        let n = self.input.len();
        if self.pos < n {
            let c = self.input[self.pos];
            self.pos = self.pos + 1;
            if c == 0x0A {
                self.skip_whitespace();
            } else {
                self.skip_comment();
            }
        } else {
            proof {
                lemma_toks_prefix_refl(self.toks());
            }
        }
    }

    /// Parses one value at the cursor, per [`spec_parse`].
    pub fn parse(&mut self) -> (r: Result<ParsedExpr, ParseError>)
        requires
            old(self).inv(),
        ensures
            final(self).inv(),
            final(self).steps_from(*old(self)),
            match r {
                Ok(e) => spec_parse(old(self).text(), old(self).at(), old(self).fb(), old(
                    self,
                ).toks().len() as int) == Ok::<PParsed, ParseError>(
                    PParsed {
                        v: parsed_view(e),
                        pos: final(self).at(),
                        toks: final(self).toks().skip(old(self).toks().len() as int),
                    },
                ) && (spec_skip_ws(old(self).text(), old(self).at()) < old(self).text().len()
                    ==> final(self).at() > spec_skip_ws(old(self).text(), old(self).at())),
                Err(er) => spec_parse(old(self).text(), old(self).at(), old(self).fb(), old(
                    self,
                ).toks().len() as int) == Err::<PParsed, ParseError>(er),
            },
        decreases old(self).text().len() - old(self).at(), 0int,
    {
        let ghost s = self.text();
        let ghost k0 = self.toks().len() as int;
        self.skip_whitespace();
        let ghost p = self.at();
        let n = self.input.len();
        if self.pos >= n {
            proof {
                assert(final(self).toks().skip(k0) =~= Seq::<Seq<u8>>::empty());
            }
            return Ok(ParsedExpr::Nil);
        }
        let c = self.input[self.pos];
        if c == 0x28 {
            self.pos = self.pos + 1;
            let r = self.parse_list_items();
            proof {
                lemma_toks_prefix_trans(old(self).toks(), final(self).toks());
            }
            r
        } else if c == 0x22 {
            self.pos = self.pos + 1;
            let body = self.parse_string_body();
            match body {
                Ok(text) => {
                    proof {
                        assert(final(self).toks().skip(k0) =~= Seq::<Seq<u8>>::empty());
                        lemma_parse_string_pos_bounds(s, p + 1);
                    }
                    Ok(ParsedExpr::String(text))
                },
                Err(e) => Err(e),
            }
        } else {
            let r = self.parse_atom();
            proof {
                if r is Ok {
                    lemma_token_end(s, p);
                    assert(s.subrange(p, spec_token_end(s, p)).len() > 0);
                }
            }
            r
        }
    }

    /// Parses list elements up to the closing `)`, per [`spec_parse_items`].
    fn parse_list_items(&mut self) -> (r: Result<ParsedExpr, ParseError>)
        requires
            old(self).inv(),
        ensures
            final(self).inv(),
            final(self).steps_from(*old(self)),
            match r {
                Ok(e) => spec_parse_items(old(self).text(), old(self).at(), old(self).fb(), old(
                    self,
                ).toks().len() as int, Seq::empty(), Seq::empty()) == Ok::<PParsed, ParseError>(
                    PParsed {
                        v: parsed_view(e),
                        pos: final(self).at(),
                        toks: final(self).toks().skip(old(self).toks().len() as int),
                    },
                ) && final(self).at() >= old(self).at(),
                Err(er) => spec_parse_items(old(self).text(), old(self).at(), old(self).fb(), old(
                    self,
                ).toks().len() as int, Seq::empty(), Seq::empty()) == Err::<PParsed, ParseError>(er),
            },
        decreases old(self).input@.len() - old(self).pos, 1int,
    {
        let ghost s = self.text();
        let ghost fb = self.fb();
        let ghost p0 = self.at();
        let ghost k0 = self.toks().len() as int;
        let ghost base = self.toks();
        let n = self.input.len();
        let mut items: Vec<ParsedExpr> = Vec::new();
        proof {
            assert(parsed_view_seq(items@) =~= Seq::<Val>::empty());
            assert(self.toks().skip(k0) =~= Seq::<Seq<u8>>::empty());
            lemma_toks_prefix_refl(self.toks());
        }
        loop
            invariant
                self.inv(),
                n == s.len(),
                s == self.text(),
                fb == self.fb(),
                self.steps_from(*old(self)),
                s == old(self).text(),
                fb == old(self).fb(),
                base == old(self).toks(),
                k0 == base.len(),
                p0 == old(self).at(),
                p0 <= self.at(),
                spec_parse_items(s, p0, fb, k0, Seq::empty(), Seq::empty()) == spec_parse_items(
                    s,
                    self.at(),
                    fb,
                    k0,
                    parsed_view_seq(items@),
                    self.toks().skip(k0),
                ),
            decreases s.len() - self.at(),
        {
            let ghost cur = self.at();
            let ghost acc = parsed_view_seq(items@);
            let ghost toks = self.toks().skip(k0);
            self.skip_whitespace();
            let ghost p = self.at();
            proof {
                lemma_skip_ws_bounds(s, cur);
                assert(spec_parse_items(s, cur, fb, k0, acc, toks) == spec_parse_items(
                    s,
                    p,
                    fb,
                    k0,
                    acc,
                    toks,
                ));
                lemma_toks_prefix_trans(base, self.toks());
            }
            if self.pos >= n {
                return Err(ParseError::UnterminatedList);
            }
            let c = self.input[self.pos];
            if c == 0x29 {
                self.pos = self.pos + 1;
                if items.len() == 0 {
                    proof {
                        assert(acc.len() == 0);
                    }
                    return Ok(ParsedExpr::Nil);
                }
                proof {
                    assert(acc.len() > 0) by {
                        lemma_parsed_view_seq(items@);
                    }
                }
                return Ok(ParsedExpr::List(items));
            }
            let ghost tokens_before = self.toks();
            let item = match self.parse() {
                Ok(i) => i,
                Err(e) => {
                    return Err(e);
                },
            };
            proof {
                lemma_toks_prefix_trans(base, self.toks());
                assert(tokens_before.len() == k0 + toks.len());
                lemma_parse_pos_bounds(s, p, fb, k0 + toks.len());
                assert(self.at() > p);
                lemma_parsed_view_push(items@, item);
                assert(self.toks().skip(k0) =~= toks + self.toks().skip(tokens_before.len() as int))
                    by {
                    assert(forall|i: int|
                        0 <= i < toks.len() ==> #[trigger] self.toks()[k0 + i] == tokens_before[k0
                            + i]);
                }
            }
            items.push(item);
        }
    }

    /// Parses a string body just past the opening quote, per
    /// [`spec_parse_string`].
    fn parse_string_body(&mut self) -> (r: Result<Vec<u8>, ParseError>)
        requires
            old(self).inv(),
        ensures
            final(self).inv(),
            final(self).steps_from(*old(self)),
            final(self).tokens == old(self).tokens,
            match r {
                Ok(text) => spec_parse_string(old(self).text(), old(self).at()) == Ok::<(Seq<u8>, int), ParseError>((text@, final(self).at())),
                Err(er) => spec_parse_string(old(self).text(), old(self).at()) == Err::<(Seq<u8>, int), ParseError>(er),
            },
        decreases old(self).input@.len() - old(self).pos,
    {
        let ghost s = self.text();
        let n = self.input.len();
        proof {
            lemma_toks_prefix_refl(self.toks());
        }
        if self.pos >= n {
            return Err(ParseError::UnterminatedString);
        }
        let c = self.input[self.pos];
        if c == 0x22 {
            self.pos = self.pos + 1;
            let text: Vec<u8> = Vec::new();
            proof {
                assert(text@ =~= Seq::<u8>::empty());
            }
            Ok(text)
        } else if c == 0x5C {
            if self.pos + 1 >= n {
                return Err(ParseError::UnterminatedEscape);
            }
            let e = self.input[self.pos + 1];
            let ch: u8 = if e == 0x6E {
                0x0A
            } else if e == 0x74 {
                0x09
            } else if e == 0x72 {
                0x0D
            } else {
                e
            };
            assert(ch == spec_unescape(e));
            self.pos = self.pos + 2;
            match self.parse_string_body() {
                Ok(mut rest) => {
                    let mut text: Vec<u8> = Vec::new();
                    text.push(ch);
                    let ghost rest_view = rest@;
                    text.append(&mut rest);
                    proof {
                        assert(text@ =~= seq![ch] + rest_view);
                    }
                    Ok(text)
                },
                Err(er) => Err(er),
            }
        } else {
            self.pos = self.pos + 1;
            match self.parse_string_body() {
                Ok(mut rest) => {
                    let mut text: Vec<u8> = Vec::new();
                    text.push(c);
                    let ghost rest_view = rest@;
                    text.append(&mut rest);
                    proof {
                        assert(text@ =~= seq![c] + rest_view);
                    }
                    Ok(text)
                },
                Err(er) => Err(er),
            }
        }
    }

    /// Hands out the atom tokens read so far.
    pub fn into_tokens(self) -> (r: Vec<Vec<u8>>)
        ensures
            toks_view(r@) == self.toks(),
    {
        self.tokens
    }

    /// Scans and classifies one atom token, per [`spec_parse_atom`].
    fn parse_atom(&mut self) -> (r: Result<ParsedExpr, ParseError>)
        requires
            old(self).inv(),
        ensures
            final(self).inv(),
            final(self).steps_from(*old(self)),
            match r {
                Ok(e) => spec_parse_atom(old(self).text(), old(self).at(), old(self).fb(), old(
                    self,
                ).toks().len() as int) == Ok::<PParsed, ParseError>(
                    PParsed {
                        v: parsed_view(e),
                        pos: final(self).at(),
                        toks: final(self).toks().skip(old(self).toks().len() as int),
                    },
                ) && final(self).at() == spec_token_end(old(self).text(), old(self).at()),
                Err(er) => spec_parse_atom(old(self).text(), old(self).at(), old(self).fb(), old(
                    self,
                ).toks().len() as int) == Err::<PParsed, ParseError>(er),
            },
    {
        let ghost s = self.text();
        let ghost p0 = self.at();
        let start = self.pos;
        proof {
            lemma_toks_prefix_refl(self.toks());
        }
        let end = find_token_end(self.input, self.pos);
        proof {
            lemma_token_end(s, p0);
        }
        self.pos = end;
        let token = copy_range(self.input, start, end);
        let ghost tok = s.subrange(p0, spec_token_end(s, p0));
        assert(token@ == tok);
        if token.len() == 0 {
            proof {
                lemma_toks_prefix_refl(self.toks());
            }
            return Err(ParseError::EmptyAtom);
        }
        let k = self.tokens.len();
        let token_copy = copy_range(&token, 0, token.len());
        proof {
            assert(token_copy@ =~= token@);
        }
        let ghost toks_before = self.toks();
        self.tokens.push(token_copy);
        proof {
            assert(self.toks() =~= toks_before.push(tok));
            assert(self.toks().skip(toks_before.len() as int) =~= seq![tok]);
            assert(toks_before.is_prefix_of(self.toks())) by {
                assert(self.toks().take(toks_before.len() as int) =~= toks_before);
            }
        }
        let nil_lit: Vec<u8> = vec![0x6E, 0x69, 0x6C];
        let paren_lit: Vec<u8> = vec![0x28, 0x29];
        proof {
            assert(nil_lit@ =~= seq![0x6Eu8, 0x69u8, 0x6Cu8]);
            assert(paren_lit@ =~= seq![0x28u8, 0x29u8]);
        }
        if bytes_eq(&token, &nil_lit) || bytes_eq(&token, &paren_lit) {
            return Ok(ParsedExpr::Nil);
        }
        match parse_i64(&token) {
            Some(v) => Ok(ParsedExpr::Integer(v)),
            None => {
                let ans: Option<u64> = if k < self.floats.len() {
                    self.floats[k]
                } else {
                    None
                };
                assert(ans == fb_at(self.fb(), k as int));
                match ans {
                    Some(bits) => Ok(ParsedExpr::Float(bits)),
                    None => Ok(ParsedExpr::Symbol(token)),
                }
            },
        }
    }
}

/// The end of the atom token at `pos`: the first stop byte at or after it.
fn find_token_end(input: &Vec<u8>, pos: usize) -> (r: usize)
    requires
        pos <= input@.len(),
    ensures
        r == spec_token_end(input@, pos as int),
        pos <= r <= input@.len(),
    decreases input@.len() - pos,
{
    proof {
        lemma_token_end(input@, pos as int);
    }
    if pos < input.len() {
        let c = input[pos];
        if c == 0x20 || c == 0x09 || c == 0x0A || c == 0x0C || c == 0x0D || c == 0x28 || c == 0x29
            || c == 0x22 || c == 0x3B {
            pos
        } else {
            find_token_end(input, pos + 1)
        }
    } else {
        pos
    }
}

impl Sexp {
    /// Parses surface text into an encoded value, the float answers
    /// supplying IEEE-754 bits per atom token in reading order (see
    /// [`Sexp::atom_tokens`]); returns the canonical encoding of the first
    /// expression read, or the parse error, with no partial value.
    pub fn input(text: &Vec<u8>, float_bits: &Vec<Option<u64>>) -> (r: Result<Sexp, ParseError>)
        ensures
            match r {
                Ok(s) => s.wf() && spec_input(text@, float_bits@) == Ok::<Val, ParseError>(s@),
                Err(e) => spec_input(text@, float_bits@) == Err::<Val, ParseError>(e),
            },
    {
        let mut parser = Parser::new(text, float_bits);
        match parser.parse() {
            Ok(expr) => {
                let mut data: Vec<u8> = Vec::new();
                data.push(FORMAT_VERSION);
                serialize_parsed(&expr, &mut data);
                let ghost v = canon(parsed_view(expr));
                proof {
                    lemma_parsed_canon_wf(expr);
                    assert(data@ =~= seq![FORMAT_VERSION] + enc(v));
                }
                Ok(Sexp::from_parts(data, Ghost(v)))
            },
            Err(e) => Err(e),
        }
    }

    /// The atom tokens of `text` in reading order: exactly the tokens whose
    /// float classification [`Sexp::input`] asks its caller to answer.
    /// Tokenization does not depend on those answers, so the tokens can be
    /// scanned first and classified second.
    pub fn atom_tokens(text: &Vec<u8>) -> (r: Vec<Vec<u8>>)
        ensures
            spec_parse(text@, 0, Seq::empty(), 0) matches Ok(p) ==> toks_view(r@) == p.toks,
    {
        let none_answers: Vec<Option<u64>> = Vec::new();
        let mut parser = Parser::new(text, &none_answers);
        proof {
            assert(none_answers@ =~= Seq::<Option<u64>>::empty());
        }
        let outcome = parser.parse();
        let ghost toks = parser.toks();
        let r = parser.into_tokens();
        proof {
            if outcome is Ok {
                assert(toks.skip(0) =~= toks);
            }
        }
        r
    }
}

/// A token list is a prefix of itself.
proof fn lemma_toks_prefix_refl(ts: Seq<Seq<u8>>)
    ensures
        ts.is_prefix_of(ts),
{
    assert(ts.take(ts.len() as int) =~= ts);
}

/// Prefixes chain: whatever extends an extension extends the base.
proof fn lemma_toks_prefix_trans(a: Seq<Seq<u8>>, c: Seq<Seq<u8>>)
    requires
        exists|b: Seq<Seq<u8>>| a.is_prefix_of(b) && b.is_prefix_of(c),
    ensures
        a.is_prefix_of(c),
{
    let b = choose|b: Seq<Seq<u8>>| a.is_prefix_of(b) && b.is_prefix_of(c);
    assert(a =~= c.take(a.len() as int)) by {
        assert(forall|i: int| 0 <= i < a.len() ==> a[i] == b[i] && b[i] == c[i]);
    }
}

/// Pushing one parsed element appends its view.
proof fn lemma_parsed_view_push(es: Seq<ParsedExpr>, e: ParsedExpr)
    ensures
        parsed_view_seq(es.push(e)) == parsed_view_seq(es).push(parsed_view(e)),
{
    lemma_parsed_view_seq(es.push(e));
    lemma_parsed_view_seq(es);
    assert(parsed_view_seq(es.push(e)) =~= parsed_view_seq(es).push(parsed_view(e)));
}

/// Monotonicity of decimal reading: a digit prefix never exceeds the whole.
proof fn lemma_dec_value_prefix(digs: Seq<u8>, t: int)
    requires
        0 <= t <= digs.len(),
    ensures
        dec_value(digs) >= dec_value(digs.take(t)),
    decreases digs.len() - t,
{
    if t < digs.len() {
        assert(digs.take(t + 1).drop_last() =~= digs.take(t));
        assert(digs.take(t + 1).last() == digs[t]);
        assert(dec_value(digs.take(t + 1)) == dec_value(digs.take(t)) * 10 + (digs[t]
            - 0x30) as nat);
        lemma_dec_value_prefix(digs, t + 1);
    } else {
        assert(digs.take(t) =~= digs);
    }
}

/// Reads a 64-bit signed integer from decimal text, per [`spec_parse_i64`]:
/// an optional sign and at least one digit, rejected outside the
/// representable range.
pub fn parse_i64(tok: &Vec<u8>) -> (r: Option<i64>)
    ensures
        r == spec_parse_i64(tok@),
{
    let n = tok.len();
    let has_sign = n >= 1 && (tok[0] == 0x2D || tok[0] == 0x2B);
    let neg = n >= 1 && tok[0] == 0x2D;
    let start: usize = if has_sign {
        1
    } else {
        0
    };
    let ghost digs: Seq<u8> = if has_sign {
        tok@.drop_first()
    } else {
        tok@
    };
    proof {
        assert(digs.len() == n - start);
        assert(forall|j: int| 0 <= j < digs.len() ==> digs[j] == tok@[start + j]);
    }
    if n == start {
        return None;
    }
    let mut acc: u64 = 0;
    let mut i = start;
    while i < n
        invariant
            start <= i <= n,
            n == tok@.len(),
            start == 0 || start == 1,
            digs == (if tok@.len() >= 1 && (tok@[0] == 0x2D || tok@[0] == 0x2B) {
                tok@.drop_first()
            } else {
                tok@
            }),
            neg == (tok@.len() >= 1 && tok@[0] == 0x2D),
            digs.len() == n - start,
            forall|j: int| 0 <= j < digs.len() ==> digs[j] == tok@[start + j],
            forall|j: int| 0 <= j < i - start ==> 0x30 <= #[trigger] digs[j] <= 0x39,
            acc == dec_value(digs.take(i - start)),
        decreases n - i,
    {
        let c = tok[i];
        if c < 0x30 || c > 0x39 {
            proof {
                assert(digs[i - start] == c);
                assert(!all_digits(digs));
            }
            return None;
        }
        let d: u64 = (c - 0x30) as u64;
        if acc > (u64::MAX - d) / 10 {
            proof {
                let t = i - start;
                assert(digs.take(t + 1).drop_last() =~= digs.take(t));
                assert(digs.take(t + 1).last() == digs[t]);
                assert(dec_value(digs.take(t + 1)) == acc * 10 + d);
                assert(acc * 10 + d > u64::MAX) by (nonlinear_arith)
                    requires
                        acc > (u64::MAX - d) / 10,
                        d <= 9,
                ;
                lemma_dec_value_prefix(digs, t + 1);
                assert(dec_value(digs) > u64::MAX);
                if all_digits(digs) {
                    assert(dec_value(digs) > 0x8000_0000_0000_0000);
                }
            }
            return None;
        }
        proof {
            let t = i - start;
            assert(digs.take(t + 1).drop_last() =~= digs.take(t));
            assert(digs.take(t + 1).last() == digs[t]);
        }
        acc = acc * 10 + d;
        i = i + 1;
    }
    proof {
        assert(digs.take(n - start) =~= digs);
        assert(all_digits(digs));
    }
    if neg {
        if acc <= 0x8000_0000_0000_0000 {
            if acc == 0x8000_0000_0000_0000 {
                Some(i64::MIN)
            } else {
                Some(-(acc as i64))
            }
        } else {
            None
        }
    } else {
        if acc <= 0x7FFF_FFFF_FFFF_FFFF {
            Some(acc as i64)
        } else {
            None
        }
    }
}

} // verus!
