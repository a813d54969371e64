//! The mathematical model of encoded symbolic-expression values.
//!
//! A buffer holds a one-byte format-version header followed by one tagged
//! element. [`Val`] is the abstract value a tagged element denotes, [`enc`]
//! says exactly which bytes encode a value, and [`wf_val`] singles out the
//! canonical values the library constructs (an empty list is always
//! represented as nil, so well-formed lists are non-empty).

use vstd::prelude::*;

verus! {

/// Version byte that prefixes every encoded buffer.
pub const FORMAT_VERSION: u8 = 1;

/// Type tag for nil (also the canonical empty list).
pub const TAG_NIL: u8 = 0x00;

/// Type tag for a 64-bit signed integer (zig-zag varint payload).
pub const TAG_INTEGER: u8 = 0x01;

/// Type tag for a float (payload: 8 raw little-endian IEEE-754 bytes).
pub const TAG_FLOAT: u8 = 0x02;

/// Type tag for a string (varint length + raw bytes).
pub const TAG_STRING: u8 = 0x03;

/// Type tag for a symbol (varint length + raw bytes).
pub const TAG_SYMBOL: u8 = 0x04;

/// Type tag for a list (varint element count + concatenated elements).
pub const TAG_LIST: u8 = 0x05;

/// Type tag for a boolean (payload: one byte, 0 or 1).
pub const TAG_BOOL: u8 = 0x06;

/// A symbolic-expression value: the abstract denotation of one tagged
/// element. Floats are carried as their 8 raw little-endian IEEE-754 bytes;
/// the verified core never interprets them numerically.
pub enum Val {
    Nil,
    Int(i64),
    Float(Seq<u8>),
    Bool(bool),
    Str(Seq<u8>),
    Sym(Seq<u8>),
    List(Seq<Val>),
}

/// Well-formed, canonical values: float payloads are exactly 8 bytes, string
/// and symbol lengths and list counts fit a 64-bit varint, and lists are
/// non-empty (the empty list is represented by `Val::Nil`).
pub open spec fn wf_val(v: Val) -> bool
    decreases v,
{
    match v {
        Val::Nil => true,
        Val::Int(_) => true,
        Val::Float(b) => b.len() == 8,
        Val::Bool(_) => true,
        Val::Str(s) => s.len() <= u64::MAX,
        Val::Sym(s) => s.len() <= u64::MAX,
        Val::List(es) => {
            &&& 1 <= es.len() <= u64::MAX
            &&& forall|i: int| 0 <= i < es.len() ==> wf_val(#[trigger] es[i])
        },
    }
}

/// Little-endian base-128 varint encoding of a natural number: each byte
/// carries 7 payload bits, the high bit marks continuation.
pub open spec fn varint(n: nat) -> Seq<u8>
    decreases n,
{
    if n < 0x80 {
        seq![n as u8]
    } else {
        seq![(0x80 + n % 0x80) as u8] + varint(n / 0x80)
    }
}

/// A varint is at least one byte, and exactly one byte below 0x80.
pub proof fn lemma_varint_len(n: nat)
    ensures
        1 <= varint(n).len(),
        n < 0x80 ==> varint(n).len() == 1,
        varint(n)[0] == if n < 0x80 { n as u8 } else { (0x80 + n % 0x80) as u8 },
    decreases n,
{
    if n >= 0x80 {
        lemma_varint_len(n / 0x80);
    }
}

/// Zig-zag mapping of a signed integer onto an unsigned one: non-negative
/// `v` maps to `2*v`, negative `v` maps to `-2*v - 1`.
pub open spec fn zigzag(v: i64) -> u64 {
    if v >= 0 {
        (2 * (v as int)) as u64
    } else {
        (-(2 * (v as int)) - 1) as u64
    }
}

/// Inverse of [`zigzag`].
pub open spec fn unzigzag(u: u64) -> i64 {
    if u % 2 == 0 {
        ((u as int) / 2) as i64
    } else {
        (-((u as int) / 2) - 1) as i64
    }
}

/// The bytes of one tagged element encoding `v`: a type tag byte followed by
/// the type-specific payload.
pub open spec fn enc(v: Val) -> Seq<u8>
    decreases v,
{
    match v {
        Val::Nil => seq![TAG_NIL],
        Val::Int(n) => seq![TAG_INTEGER] + varint(zigzag(n) as nat),
        Val::Float(b) => seq![TAG_FLOAT] + b,
        Val::Bool(b) => seq![TAG_BOOL, if b { 1u8 } else { 0u8 }],
        Val::Str(s) => seq![TAG_STRING] + varint(s.len()) + s,
        Val::Sym(s) => seq![TAG_SYMBOL] + varint(s.len()) + s,
        Val::List(es) => seq![TAG_LIST] + varint(es.len()) + enc_seq(es),
    }
}

/// The concatenated encodings of a sequence of elements.
pub open spec fn enc_seq(es: Seq<Val>) -> Seq<u8>
    decreases es,
{
    if es.len() == 0 {
        Seq::empty()
    } else {
        enc(es.first()) + enc_seq(es.drop_first())
    }
}

/// The bytes `b` appear at offset `pos` of `data`.
pub open spec fn bytes_at(data: Seq<u8>, pos: int, b: Seq<u8>) -> bool {
    &&& 0 <= pos
    &&& pos + b.len() <= data.len()
    &&& data.subrange(pos, pos + b.len()) == b
}

/// `v` is encoded at offset `pos` of `data`.
pub open spec fn elem_at(data: Seq<u8>, pos: int, v: Val) -> bool {
    bytes_at(data, pos, enc(v))
}

/// A concatenation appears at `pos` exactly when its parts appear in order.
pub proof fn lemma_bytes_at_split(data: Seq<u8>, pos: int, x: Seq<u8>, y: Seq<u8>)
    ensures
        bytes_at(data, pos, x + y) <==> (bytes_at(data, pos, x) && bytes_at(
            data,
            pos + x.len(),
            y,
        )),
{
    assert((x + y).len() == x.len() + y.len());
    if bytes_at(data, pos, x + y) {
        assert(data.subrange(pos, pos + x.len()) =~= x) by {
            assert forall|i: int| 0 <= i < x.len() implies data.subrange(pos, pos + x.len())[i]
                == x[i] by {
                assert(data.subrange(pos, pos + (x + y).len())[i] == (x + y)[i]);
            }
        }
        assert(data.subrange(pos + x.len(), pos + x.len() + y.len()) =~= y) by {
            assert forall|i: int| 0 <= i < y.len() implies data.subrange(
                pos + x.len(),
                pos + x.len() + y.len(),
            )[i] == y[i] by {
                assert(data.subrange(pos, pos + (x + y).len())[x.len() + i] == (x + y)[x.len()
                    + i]);
            }
        }
    }
    if bytes_at(data, pos, x) && bytes_at(data, pos + x.len(), y) {
        assert(data.subrange(pos, pos + (x + y).len()) =~= x + y) by {
            assert forall|i: int| 0 <= i < (x + y).len() implies data.subrange(
                pos,
                pos + (x + y).len(),
            )[i] == (x + y)[i] by {
                if i < x.len() {
                    assert(data.subrange(pos, pos + x.len())[i] == x[i]);
                } else {
                    assert(data.subrange(pos + x.len(), pos + x.len() + y.len())[i - x.len()]
                        == y[i - x.len()]);
                }
            }
        }
    }
}

/// Unfolding of [`enc_seq`] at element `k`: the tail of a sequence encoding
/// starts with the encoding of the `k`-th element.
pub proof fn lemma_enc_seq_skip(es: Seq<Val>, k: int)
    requires
        0 <= k < es.len(),
    ensures
        enc_seq(es.skip(k)) == enc(es[k]) + enc_seq(es.skip(k + 1)),
    decreases es.len(),
{
    let t = es.skip(k);
    assert(t.len() == es.len() - k);
    assert(t.first() == es[k]);
    assert(t.drop_first() =~= es.skip(k + 1));
    assert(enc_seq(t) == enc(t.first()) + enc_seq(t.drop_first()));
}

/// A sequence encoding is at least one byte per element.
pub proof fn lemma_enc_seq_min_len(es: Seq<Val>)
    ensures
        enc_seq(es).len() >= es.len(),
    decreases es,
{
    if es.len() > 0 {
        lemma_enc_shape(es.first());
        lemma_enc_seq_min_len(es.drop_first());
    }
}

/// Canonicalization: every empty list, however deeply nested, becomes nil.
pub open spec fn canon(v: Val) -> Val
    decreases v,
{
    match v {
        Val::List(es) => if es.len() == 0 {
            Val::Nil
        } else {
            Val::List(canon_seq(es))
        },
        _ => v,
    }
}

/// Pointwise [`canon`] over a sequence of elements.
pub open spec fn canon_seq(es: Seq<Val>) -> Seq<Val>
    decreases es,
{
    if es.len() == 0 {
        Seq::empty()
    } else {
        seq![canon(es.first())] + canon_seq(es.drop_first())
    }
}

/// Sequence length of a value: 0 for nil, 1 for any atom, the element count
/// for a list.
pub open spec fn val_length(v: Val) -> int {
    match v {
        Val::Nil => 0,
        Val::List(es) => es.len() as int,
        _ => 1,
    }
}

/// Whether a value is an atom (neither nil nor a list).
pub open spec fn val_is_atom(v: Val) -> bool {
    match v {
        Val::Nil => false,
        Val::List(_) => false,
        _ => true,
    }
}

/// The `n`-th element of a value treated as a sequence: lists index their
/// elements, an atom is a one-element sequence holding itself, nil is empty.
pub open spec fn val_nth(v: Val, n: int) -> Option<Val> {
    match v {
        Val::Nil => None,
        Val::List(es) => if 0 <= n < es.len() {
            Some(es[n])
        } else {
            None
        },
        _ => if n == 0 {
            Some(v)
        } else {
            None
        },
    }
}

/// The first element of a list; atoms and nil have no car.
pub open spec fn val_car(v: Val) -> Option<Val> {
    match v {
        Val::List(es) => Some(es[0]),
        _ => None,
    }
}

/// All but the first element of a list, collapsing to nil at length <= 1;
/// atoms and nil have no cdr.
pub open spec fn val_cdr(v: Val) -> Option<Val> {
    match v {
        Val::List(es) => if es.len() <= 1 {
            Some(Val::Nil)
        } else {
            Some(Val::List(es.drop_first()))
        },
        _ => None,
    }
}

/// The type tag byte that begins the encoding of `v`.
pub open spec fn tag_of(v: Val) -> u8 {
    match v {
        Val::Nil => TAG_NIL,
        Val::Int(_) => TAG_INTEGER,
        Val::Float(_) => TAG_FLOAT,
        Val::Bool(_) => TAG_BOOL,
        Val::Str(_) => TAG_STRING,
        Val::Sym(_) => TAG_SYMBOL,
        Val::List(_) => TAG_LIST,
    }
}

/// Basic shape of an encoding: non-empty, and starting with the type tag.
pub proof fn lemma_enc_shape(v: Val)
    ensures
        enc(v).len() >= 1,
        enc(v)[0] == tag_of(v),
{
    match v {
        Val::Nil => {},
        Val::Int(n) => {},
        Val::Float(b) => {},
        Val::Bool(b) => {},
        Val::Str(s) => {},
        Val::Sym(s) => {},
        Val::List(es) => {},
    }
}

/// Two concatenations are equal exactly when their parts are, once the left
/// parts have the same length.
pub proof fn lemma_concat_cancel(x1: Seq<u8>, y1: Seq<u8>, x2: Seq<u8>, y2: Seq<u8>)
    requires
        x1.len() == x2.len(),
        x1 + y1 == x2 + y2,
    ensures
        x1 == x2,
        y1 == y2,
{
    assert(x1 =~= x2) by {
        assert(forall|i: int| 0 <= i < x1.len() ==> x1[i] == (x1 + y1)[i] && x2[i] == (x2 + y2)[i]);
    }
    assert((x1 + y1).len() == x1.len() + y1.len());
    assert((x2 + y2).len() == x2.len() + y2.len());
    assert(y1.len() == y2.len());
    assert(y1 =~= y2) by {
        assert forall|i: int| 0 <= i < y1.len() implies y1[i] == y2[i] by {
            assert((x1 + y1)[x1.len() + i] == y1[i]);
            assert((x2 + y2)[x2.len() + i] == y2[i]);
        }
    }
}

/// No varint is a proper prefix of another: equal streams that both start
/// with a varint carry the same value and the same tail.
pub proof fn lemma_varint_prefix_free(a: nat, b: nat, r1: Seq<u8>, r2: Seq<u8>)
    requires
        varint(a) + r1 == varint(b) + r2,
    ensures
        a == b,
        r1 == r2,
    decreases a,
{
    lemma_varint_len(a);
    lemma_varint_len(b);
    assert((varint(a) + r1)[0] == varint(a)[0]);
    assert((varint(b) + r2)[0] == varint(b)[0]);
    if a < 0x80 {
        assert(b < 0x80) by {
            if b >= 0x80 {
                assert(varint(b)[0] == (0x80 + b % 0x80) as u8);
                assert(varint(a)[0] == a as u8);
            }
        }
        lemma_concat_cancel(varint(a), r1, varint(b), r2);
    } else {
        assert(b >= 0x80) by {
            if b < 0x80 {
                assert(varint(a)[0] == (0x80 + a % 0x80) as u8);
                assert(varint(b)[0] == b as u8);
            }
        }
        assert(a % 0x80 == b % 0x80) by {
            assert(varint(a)[0] == (0x80 + a % 0x80) as u8);
            assert(varint(b)[0] == (0x80 + b % 0x80) as u8);
        }
        assert(varint(a) =~= seq![(0x80 + a % 0x80) as u8] + varint(a / 0x80));
        assert(varint(b) =~= seq![(0x80 + b % 0x80) as u8] + varint(b / 0x80));
        assert(varint(a / 0x80) + r1 =~= (varint(a) + r1).drop_first());
        assert(varint(b / 0x80) + r2 =~= (varint(b) + r2).drop_first());
        lemma_varint_prefix_free(a / 0x80, b / 0x80, r1, r2);
        assert(a == 0x80 * (a / 0x80) + a % 0x80) by (nonlinear_arith);
        assert(b == 0x80 * (b / 0x80) + b % 0x80) by (nonlinear_arith);
    }
}

/// No encoding of a well-formed value is a proper prefix of the encoding of
/// a different well-formed value: equal streams that both start with an
/// encoded element carry the same value and the same tail.
pub proof fn lemma_enc_prefix_free(v1: Val, v2: Val, r1: Seq<u8>, r2: Seq<u8>)
    requires
        wf_val(v1),
        wf_val(v2),
        enc(v1) + r1 == enc(v2) + r2,
    ensures
        v1 == v2,
        r1 == r2,
    decreases v1,
{
    lemma_enc_shape(v1);
    lemma_enc_shape(v2);
    assert((enc(v1) + r1)[0] == tag_of(v1));
    assert((enc(v2) + r2)[0] == tag_of(v2));
    assert(tag_of(v1) == tag_of(v2));
    match v1 {
        Val::Nil => {
            lemma_concat_cancel(enc(v1), r1, enc(v2), r2);
        },
        Val::Int(n1) => {
            let n2 = v2->Int_0;
            assert(varint(zigzag(n1) as nat) + r1 =~= (enc(v1) + r1).drop_first());
            assert(varint(zigzag(n2) as nat) + r2 =~= (enc(v2) + r2).drop_first());
            lemma_varint_prefix_free(zigzag(n1) as nat, zigzag(n2) as nat, r1, r2);
            assert(n1 == n2);
        },
        Val::Float(b1) => {
            let b2 = v2->Float_0;
            assert(b1 + r1 =~= (enc(v1) + r1).drop_first());
            assert(b2 + r2 =~= (enc(v2) + r2).drop_first());
            lemma_concat_cancel(b1, r1, b2, r2);
        },
        Val::Bool(b1) => {
            let b2 = v2->Bool_0;
            assert((enc(v1) + r1)[1] == (if b1 { 1u8 } else { 0u8 }));
            assert((enc(v2) + r2)[1] == (if b2 { 1u8 } else { 0u8 }));
            assert(b1 == b2);
            lemma_concat_cancel(enc(v1), r1, enc(v2), r2);
        },
        Val::Str(s1) => {
            let s2 = v2->Str_0;
            assert((varint(s1.len()) + s1) + r1 =~= (enc(v1) + r1).drop_first());
            assert((varint(s2.len()) + s2) + r2 =~= (enc(v2) + r2).drop_first());
            assert(varint(s1.len()) + (s1 + r1) =~= (varint(s1.len()) + s1) + r1);
            assert(varint(s2.len()) + (s2 + r2) =~= (varint(s2.len()) + s2) + r2);
            lemma_varint_prefix_free(s1.len(), s2.len(), s1 + r1, s2 + r2);
            lemma_concat_cancel(s1, r1, s2, r2);
        },
        Val::Sym(s1) => {
            let s2 = v2->Sym_0;
            assert((varint(s1.len()) + s1) + r1 =~= (enc(v1) + r1).drop_first());
            assert((varint(s2.len()) + s2) + r2 =~= (enc(v2) + r2).drop_first());
            assert(varint(s1.len()) + (s1 + r1) =~= (varint(s1.len()) + s1) + r1);
            assert(varint(s2.len()) + (s2 + r2) =~= (varint(s2.len()) + s2) + r2);
            lemma_varint_prefix_free(s1.len(), s2.len(), s1 + r1, s2 + r2);
            lemma_concat_cancel(s1, r1, s2, r2);
        },
        Val::List(es1) => {
            let es2 = v2->List_0;
            assert((varint(es1.len()) + enc_seq(es1)) + r1 =~= (enc(v1) + r1).drop_first());
            assert((varint(es2.len()) + enc_seq(es2)) + r2 =~= (enc(v2) + r2).drop_first());
            assert(varint(es1.len()) + (enc_seq(es1) + r1) =~= (varint(es1.len()) + enc_seq(es1))
                + r1);
            assert(varint(es2.len()) + (enc_seq(es2) + r2) =~= (varint(es2.len()) + enc_seq(es2))
                + r2);
            lemma_varint_prefix_free(es1.len(), es2.len(), enc_seq(es1) + r1, enc_seq(es2) + r2);
            lemma_enc_seq_prefix_free(es1, es2, r1, r2);
            assert(es1 =~= es2);
        },
    }
}

/// Sequence form of [`lemma_enc_prefix_free`], for equally long sequences of
/// well-formed elements.
pub proof fn lemma_enc_seq_prefix_free(es1: Seq<Val>, es2: Seq<Val>, r1: Seq<u8>, r2: Seq<u8>)
    requires
        es1.len() == es2.len(),
        forall|i: int| 0 <= i < es1.len() ==> wf_val(#[trigger] es1[i]),
        forall|i: int| 0 <= i < es2.len() ==> wf_val(#[trigger] es2[i]),
        enc_seq(es1) + r1 == enc_seq(es2) + r2,
    ensures
        es1 =~= es2,
        r1 == r2,
    decreases es1,
{
    if es1.len() == 0 {
        assert(enc_seq(es1) + r1 =~= r1);
        assert(enc_seq(es2) + r2 =~= r2);
    } else {
        assert(enc_seq(es1) =~= enc(es1.first()) + enc_seq(es1.drop_first()));
        assert(enc_seq(es2) =~= enc(es2.first()) + enc_seq(es2.drop_first()));
        assert(enc(es1.first()) + (enc_seq(es1.drop_first()) + r1) =~= enc_seq(es1) + r1);
        assert(enc(es2.first()) + (enc_seq(es2.drop_first()) + r2) =~= enc_seq(es2) + r2);
        lemma_enc_prefix_free(
            es1.first(),
            es2.first(),
            enc_seq(es1.drop_first()) + r1,
            enc_seq(es2.drop_first()) + r2,
        );
        lemma_enc_seq_prefix_free(es1.drop_first(), es2.drop_first(), r1, r2);
        assert(es1 =~= seq![es1.first()] + es1.drop_first());
        assert(es2 =~= seq![es2.first()] + es2.drop_first());
    }
}

/// The encoding is injective on well-formed values.
pub proof fn lemma_enc_injective(v1: Val, v2: Val)
    requires
        wf_val(v1),
        wf_val(v2),
        enc(v1) == enc(v2),
    ensures
        v1 == v2,
{
    assert(enc(v1) + Seq::<u8>::empty() =~= enc(v2) + Seq::<u8>::empty());
    lemma_enc_prefix_free(v1, v2, Seq::empty(), Seq::empty());
}

/// At most one varint sits at any position of a buffer.
pub proof fn lemma_varint_at_unique(data: Seq<u8>, pos: int, a: nat, b: nat)
    requires
        bytes_at(data, pos, varint(a)),
        bytes_at(data, pos, varint(b)),
    ensures
        a == b,
{
    assert(varint(a) + data.skip(pos + varint(a).len()) =~= data.skip(pos)) by {
        assert(forall|i: int|
            0 <= i < varint(a).len() ==> #[trigger] varint(a)[i] == data.subrange(
                pos,
                pos + varint(a).len(),
            )[i]);
    }
    assert(varint(b) + data.skip(pos + varint(b).len()) =~= data.skip(pos)) by {
        assert(forall|i: int|
            0 <= i < varint(b).len() ==> #[trigger] varint(b)[i] == data.subrange(
                pos,
                pos + varint(b).len(),
            )[i]);
    }
    lemma_varint_prefix_free(
        a,
        b,
        data.skip(pos + varint(a).len()),
        data.skip(pos + varint(b).len()),
    );
}

/// At most one well-formed value sits encoded at any position of a buffer.
pub proof fn lemma_elem_at_unique(data: Seq<u8>, pos: int, v1: Val, v2: Val)
    requires
        wf_val(v1),
        wf_val(v2),
        elem_at(data, pos, v1),
        elem_at(data, pos, v2),
    ensures
        v1 == v2,
{
    assert(enc(v1) + data.skip(pos + enc(v1).len()) =~= data.skip(pos)) by {
        assert(forall|i: int|
            0 <= i < enc(v1).len() ==> #[trigger] enc(v1)[i] == data.subrange(
                pos,
                pos + enc(v1).len(),
            )[i]);
    }
    assert(enc(v2) + data.skip(pos + enc(v2).len()) =~= data.skip(pos)) by {
        assert(forall|i: int|
            0 <= i < enc(v2).len() ==> #[trigger] enc(v2)[i] == data.subrange(
                pos,
                pos + enc(v2).len(),
            )[i]);
    }
    lemma_enc_prefix_free(v1, v2, data.skip(pos + enc(v1).len()), data.skip(pos + enc(v2).len()));
}

/// Structural containment: the needle equals the haystack, or appears in some
/// (possibly deeply nested) child of it.
pub open spec fn val_contains(h: Val, n: Val) -> bool
    decreases h,
{
    h == n || (match h {
        Val::List(es) => exists|i: int| 0 <= i < es.len() && val_contains(#[trigger] es[i], n),
        _ => false,
    })
}

} // verus!
