//! Serialization of parsed trees into the tagged wire format: tag then
//! payload, with every empty list canonicalized to nil.

use vstd::prelude::*;
use crate::model::{Val, wf_val, enc, enc_seq, varint, canon, canon_seq, TAG_NIL,
    TAG_INTEGER, TAG_FLOAT, TAG_STRING, TAG_SYMBOL, TAG_LIST};
use crate::hashing::{le_bytes_of_u64, u64_le_bytes};

verus! {

/// A parsed expression: the transient tree the textual parser produces,
/// consumed immediately by [`serialize_parsed`]. Floats carry their IEEE-754
/// bit pattern; strings and symbols carry their text bytes.
pub enum ParsedExpr {
    Nil,
    Integer(i64),
    Float(u64),
    String(Vec<u8>),
    Symbol(Vec<u8>),
    List(Vec<ParsedExpr>),
}

/// The abstract value a parsed expression denotes (before canonicalization).
pub open spec fn parsed_view(e: ParsedExpr) -> Val
    decreases e, 1int,
{
    match e {
        ParsedExpr::Nil => Val::Nil,
        ParsedExpr::Integer(n) => Val::Int(n),
        ParsedExpr::Float(bits) => Val::Float(le_bytes_of_u64(bits)),
        ParsedExpr::String(s) => Val::Str(s@),
        ParsedExpr::Symbol(s) => Val::Sym(s@),
        ParsedExpr::List(items) => Val::List(parsed_view_seq(items@)),
    }
}

/// Pointwise [`parsed_view`] over a sequence of parsed expressions.
pub open spec fn parsed_view_seq(es: Seq<ParsedExpr>) -> Seq<Val>
    decreases es, 0int,
{
    if es.len() == 0 {
        Seq::empty()
    } else {
        seq![parsed_view(es.first())] + parsed_view_seq(es.drop_first())
    }
}

/// Shape of [`parsed_view_seq`]: same length, pointwise views.
pub proof fn lemma_parsed_view_seq(es: Seq<ParsedExpr>)
    ensures
        parsed_view_seq(es).len() == es.len(),
        forall|i: int| 0 <= i < es.len() ==> parsed_view_seq(es)[i] == parsed_view(es[i]),
    decreases es,
{
    if es.len() > 0 {
        lemma_parsed_view_seq(es.drop_first());
        assert(forall|i: int|
            1 <= i < es.len() ==> parsed_view_seq(es)[i] == parsed_view_seq(es.drop_first())[i
                - 1]);
    }
}

/// Shape of [`canon_seq`]: same length, pointwise canonicalization.
pub proof fn lemma_canon_seq(es: Seq<Val>)
    ensures
        canon_seq(es).len() == es.len(),
        forall|i: int| 0 <= i < es.len() ==> canon_seq(es)[i] == canon(es[i]),
    decreases es,
{
    if es.len() > 0 {
        lemma_canon_seq(es.drop_first());
        assert(forall|i: int|
            1 <= i < es.len() ==> canon_seq(es)[i] == canon_seq(es.drop_first())[i - 1]);
    }
}

/// The canonicalized view of any parsed expression is well-formed: payload
/// sizes come from machine-sized buffers and no empty list survives.
pub proof fn lemma_parsed_canon_wf(e: ParsedExpr)
    ensures
        wf_val(canon(parsed_view(e))),
    decreases e, 1int,
{
    match e {
        ParsedExpr::String(s) => {
            assert(s.len() == s@.len());
        },
        ParsedExpr::Symbol(s) => {
            assert(s.len() == s@.len());
        },
        ParsedExpr::List(items) => {
            assert(items.len() == items@.len());
            lemma_parsed_canon_wf_seq(items@);
            lemma_parsed_view_seq(items@);
            lemma_canon_seq(parsed_view_seq(items@));
        },
        _ => {},
    }
}

/// Sequence form of [`lemma_parsed_canon_wf`].
pub proof fn lemma_parsed_canon_wf_seq(es: Seq<ParsedExpr>)
    ensures
        forall|i: int|
            0 <= i < es.len() ==> wf_val(canon(parsed_view(#[trigger] es[i]))),
    decreases es, 0int,
{
    if es.len() > 0 {
        lemma_parsed_canon_wf(es.first());
        lemma_parsed_canon_wf_seq(es.drop_first());
        assert(forall|i: int| 1 <= i < es.len() ==> es[i] == es.drop_first()[i - 1]);
    }
}

/// Canonicalization is the identity on well-formed values.
pub proof fn lemma_canon_id(v: Val)
    requires
        wf_val(v),
    ensures
        canon(v) == v,
    decreases v, 1int,
{
    match v {
        Val::List(es) => {
            lemma_canon_id_seq(es);
            lemma_canon_seq(es);
            assert(canon_seq(es) =~= es);
        },
        _ => {},
    }
}

/// Sequence form of [`lemma_canon_id`].
pub proof fn lemma_canon_id_seq(es: Seq<Val>)
    requires
        forall|i: int| 0 <= i < es.len() ==> wf_val(#[trigger] es[i]),
    ensures
        forall|i: int| 0 <= i < es.len() ==> canon(#[trigger] es[i]) == es[i],
    decreases es, 0int,
{
    if es.len() > 0 {
        lemma_canon_id(es.first());
        lemma_canon_id_seq(es.drop_first());
        assert(forall|i: int| 1 <= i < es.len() ==> es[i] == es.drop_first()[i - 1]);
    }
}

/// Appending one more element's encoding extends a sequence encoding.
pub proof fn lemma_enc_seq_push(es: Seq<Val>, v: Val)
    ensures
        enc_seq(es.push(v)) == enc_seq(es) + enc(v),
    decreases es,
{
    if es.len() == 0 {
        assert(es.push(v).len() == 1);
        assert(es.push(v).first() == v);
        assert(es.push(v).drop_first() =~= Seq::<Val>::empty());
        assert(enc_seq(Seq::<Val>::empty()) == Seq::<u8>::empty());
        assert(enc_seq(es.push(v)) =~= enc(v) + Seq::<u8>::empty());
        assert(enc(v) + Seq::<u8>::empty() =~= enc(v));
        assert(enc_seq(es) + enc(v) =~= enc(v));
    } else {
        assert(es.push(v).first() == es.first());
        assert(es.push(v).drop_first() =~= es.drop_first().push(v));
        lemma_enc_seq_push(es.drop_first(), v);
        assert(enc_seq(es.push(v)) =~= enc(es.first()) + (enc_seq(es.drop_first()) + enc(v)));
        assert(enc(es.first()) + (enc_seq(es.drop_first()) + enc(v)) =~= (enc(es.first())
            + enc_seq(es.drop_first())) + enc(v));
    }
}

/// Appends a varint length prefix followed by the raw bytes of `s`.
pub fn write_string(out: &mut Vec<u8>, s: &Vec<u8>)
    ensures
        final(out)@ == old(out)@ + varint(s@.len()) + s@,
{
    let ghost mid = out@ + varint(s@.len());
    crate::varint::write_varint(out, s.len() as u64);
    let n = s.len();
    let mut i: usize = 0;
    while i < n
        invariant
            0 <= i <= n,
            n == s@.len(),
            out@ == mid + s@.subrange(0, i as int),
        decreases n - i,
    {
        out.push(s[i]);
        proof {
            assert(out@ =~= mid + s@.subrange(0, i + 1));
        }
        i = i + 1;
    }
    proof {
        assert(s@.subrange(0, n as int) =~= s@);
    }
}

/// Recursively serializes a parsed expression: tag then payload per the wire
/// format, encoding every empty list as nil.
pub fn serialize_parsed(expr: &ParsedExpr, out: &mut Vec<u8>)
    ensures
        final(out)@ == old(out)@ + enc(canon(parsed_view(*expr))),
    decreases *expr,
{
    match expr {
        ParsedExpr::Nil => {
            out.push(TAG_NIL);
            proof {
                assert(out@ =~= old(out)@ + enc(Val::Nil));
            }
        },
        ParsedExpr::Integer(n) => {
            out.push(TAG_INTEGER);
            crate::varint::write_signed_varint(out, *n);
            proof {
                assert(out@ =~= old(out)@ + enc(Val::Int(*n)));
            }
        },
        ParsedExpr::Float(bits) => {
            out.push(TAG_FLOAT);
            let mut payload = u64_le_bytes(*bits);
            out.append(&mut payload);
            proof {
                assert(out@ =~= old(out)@ + enc(Val::Float(le_bytes_of_u64(*bits))));
            }
        },
        ParsedExpr::String(s) => {
            out.push(TAG_STRING);
            write_string(out, s);
            proof {
                assert(out@ =~= old(out)@ + enc(Val::Str(s@)));
            }
        },
        ParsedExpr::Symbol(s) => {
            out.push(TAG_SYMBOL);
            write_string(out, s);
            proof {
                assert(out@ =~= old(out)@ + enc(Val::Sym(s@)));
            }
        },
        ParsedExpr::List(items) => {
            let n = items.len();
            if n == 0 {
                out.push(TAG_NIL);
                proof {
                    assert(parsed_view_seq(items@).len() == 0);
                    assert(canon(parsed_view(*expr)) == Val::Nil);
                    assert(out@ =~= old(out)@ + enc(Val::Nil));
                }
            } else {
                let ghost vs = parsed_view_seq(items@);
                let ghost cs = canon_seq(vs);
                proof {
                    lemma_parsed_view_seq(items@);
                    lemma_canon_seq(vs);
                    assert(canon(parsed_view(*expr)) == Val::List(cs));
                }
                out.push(TAG_LIST);
                crate::varint::write_varint(out, n as u64);
                let ghost mid = old(out)@ + seq![TAG_LIST] + varint(cs.len());
                proof {
                    assert(out@ =~= mid);
                    assert(cs.take(0) =~= Seq::<Val>::empty());
                    assert(mid + enc_seq(cs.take(0)) =~= mid);
                }
                let mut i: usize = 0;
                while i < n
                    invariant
                        0 <= i <= n,
                        *expr == ParsedExpr::List(*items),
                        n == items@.len(),
                        vs == parsed_view_seq(items@),
                        cs == canon_seq(vs),
                        vs.len() == n,
                        cs.len() == n,
                        forall|j: int| 0 <= j < n ==> vs[j] == parsed_view(items@[j]),
                        forall|j: int| 0 <= j < n ==> cs[j] == canon(vs[j]),
                        out@ == mid + enc_seq(cs.take(i as int)),
                    decreases n - i,
                {
                    proof {
                        assert((*expr)->List_0 == *items);
                        assert(decreases_to!(*expr => (*expr)->List_0));
                        assert(decreases_to!(*items => items@));
                        assert(decreases_to!(items@ => items@[i as int]));
                    }
                    serialize_parsed(&items[i], out);
                    proof {
                        lemma_enc_seq_push(cs.take(i as int), cs[i as int]);
                        assert(cs.take(i as int).push(cs[i as int]) =~= cs.take(i + 1));
                        assert(out@ =~= mid + enc_seq(cs.take(i + 1)));
                    }
                    i = i + 1;
                }
                proof {
                    assert(cs.take(n as int) =~= cs);
                    assert(out@ =~= old(out)@ + enc(Val::List(cs)));
                }
            }
        },
    }
}

} // verus!
