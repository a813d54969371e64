//! Rendering encoded values back to surface syntax: integers in decimal,
//! strings re-escaped and quoted, symbols verbatim, lists space-joined and
//! parenthesized, nil as `()`, booleans as `#t`/`#f`.
//!
//! Float payloads are opaque 8-byte patterns to this verified core, so their
//! texts are supplied by the caller, one per float in traversal order
//! ([`Sexp::float_payloads`] lists the payloads to format); a missing text
//! falls back to `0.0`.

use vstd::prelude::*;
use crate::model::{Val, enc, enc_seq, varint, lemma_enc_shape, lemma_varint_len};
use crate::parse::toks_view;
use crate::sexp::{Sexp, SexpType};

verus! {

/// The decimal digits of `m`, most significant first.
pub open spec fn dec_digits(m: nat) -> Seq<u8>
    decreases m,
{
    if m < 10 {
        seq![(0x30 + m) as u8]
    } else {
        dec_digits(m / 10) + seq![(0x30 + m % 10) as u8]
    }
}

/// The decimal text of `n`, with a leading minus for negatives.
pub open spec fn dec_repr(n: i64) -> Seq<u8> {
    if n >= 0 {
        dec_digits(n as nat)
    } else {
        seq![0x2Du8] + dec_digits((-(n as int)) as nat)
    }
}

/// The escape sequence (or literal byte) a string byte renders as: the
/// quote, backslash, newline, tab and carriage return are escaped, all else
/// passes through.
pub open spec fn esc_byte(c: u8) -> Seq<u8> {
    if c == 0x22 {
        seq![0x5Cu8, 0x22u8]
    } else if c == 0x5C {
        seq![0x5Cu8, 0x5Cu8]
    } else if c == 0x0A {
        seq![0x5Cu8, 0x6Eu8]
    } else if c == 0x09 {
        seq![0x5Cu8, 0x74u8]
    } else if c == 0x0D {
        seq![0x5Cu8, 0x72u8]
    } else {
        seq![c]
    }
}

/// A string body with the five special bytes escaped.
pub open spec fn spec_escape(s: Seq<u8>) -> Seq<u8>
    decreases s,
{
    if s.len() == 0 {
        Seq::empty()
    } else {
        esc_byte(s.first()) + spec_escape(s.drop_first())
    }
}

/// The caller-supplied text for the `j`-th float, or the fallback `0.0`.
pub open spec fn ft_at(ft: Seq<Seq<u8>>, j: int) -> Seq<u8> {
    if 0 <= j < ft.len() {
        ft[j]
    } else {
        seq![0x30u8, 0x2Eu8, 0x30u8]
    }
}

/// The rendering of a value, with `ft` supplying float texts from index `j`
/// on: the text and the next float index.
pub open spec fn spec_render(v: Val, ft: Seq<Seq<u8>>, j: int) -> (Seq<u8>, int)
    decreases v, 1int,
{
    match v {
        Val::Nil => (seq![0x28u8, 0x29u8], j),
        Val::Int(n) => (dec_repr(n), j),
        Val::Float(_) => (ft_at(ft, j), j + 1),
        Val::Bool(b) => (
            if b {
                seq![0x23u8, 0x74u8]
            } else {
                seq![0x23u8, 0x66u8]
            },
            j,
        ),
        Val::Str(s) => (seq![0x22u8] + spec_escape(s) + seq![0x22u8], j),
        Val::Sym(s) => (s, j),
        Val::List(es) => {
            let (body, j2) = spec_render_seq(es, ft, j);
            (seq![0x28u8] + body + seq![0x29u8], j2)
        },
    }
}

/// The space-joined renderings of a sequence of elements.
pub open spec fn spec_render_seq(es: Seq<Val>, ft: Seq<Seq<u8>>, j: int) -> (Seq<u8>, int)
    decreases es, 0int,
{
    if es.len() == 0 {
        (Seq::empty(), j)
    } else {
        let (h, j1) = spec_render(es.first(), ft, j);
        if es.len() == 1 {
            (h, j1)
        } else {
            let (t, j2) = spec_render_seq(es.drop_first(), ft, j1);
            (h + seq![0x20u8] + t, j2)
        }
    }
}

/// The float payloads of a value in traversal order: the texts a renderer
/// must supply, one per entry.
pub open spec fn spec_float_list(v: Val) -> Seq<Seq<u8>>
    decreases v, 1int,
{
    match v {
        Val::Float(b) => seq![b],
        Val::List(es) => spec_float_list_seq(es),
        _ => Seq::empty(),
    }
}

/// The float payloads of a sequence of elements, in order.
pub open spec fn spec_float_list_seq(es: Seq<Val>) -> Seq<Seq<u8>>
    decreases es, 0int,
{
    if es.len() == 0 {
        Seq::empty()
    } else {
        spec_float_list(es.first()) + spec_float_list_seq(es.drop_first())
    }
}

/// A value holds no more floats than encoded bytes.
pub proof fn lemma_float_list_bound(v: Val)
    ensures
        spec_float_list(v).len() <= enc(v).len(),
    decreases v, 1int,
{
    match v {
        Val::List(es) => {
            lemma_float_list_seq_bound(es);
            lemma_enc_shape(v);
            assert(enc(v).len() == 1 + varint(es.len()).len() + enc_seq(es).len());
            lemma_varint_len(es.len());
        },
        _ => {},
    }
}

/// Sequence form of [`lemma_float_list_bound`].
pub proof fn lemma_float_list_seq_bound(es: Seq<Val>)
    ensures
        spec_float_list_seq(es).len() <= enc_seq(es).len(),
    decreases es, 0int,
{
    if es.len() > 0 {
        lemma_float_list_bound(es.first());
        lemma_float_list_seq_bound(es.drop_first());
    }
}

/// Rendering consumes exactly one float text per listed payload.
pub proof fn lemma_render_consumes(v: Val, ft: Seq<Seq<u8>>, j: int)
    ensures
        spec_render(v, ft, j).1 == j + spec_float_list(v).len(),
    decreases v, 1int,
{
    match v {
        Val::List(es) => {
            lemma_render_seq_consumes(es, ft, j);
        },
        _ => {},
    }
}

/// Sequence form of [`lemma_render_consumes`].
pub proof fn lemma_render_seq_consumes(es: Seq<Val>, ft: Seq<Seq<u8>>, j: int)
    ensures
        spec_render_seq(es, ft, j).1 == j + spec_float_list_seq(es).len(),
    decreases es, 0int,
{
    if es.len() > 0 {
        lemma_render_consumes(es.first(), ft, j);
        if es.len() > 1 {
            lemma_render_seq_consumes(es.drop_first(), ft, spec_render(es.first(), ft, j).1);
        }
    }
}

/// Appends the decimal digits of `m`.
fn write_dec_u64(m: u64, out: &mut Vec<u8>)
    ensures
        final(out)@ == old(out)@ + dec_digits(m as nat),
    decreases m,
{
    if m < 10 {
        out.push((0x30 + m) as u8);
        proof {
            assert(out@ =~= old(out)@ + dec_digits(m as nat));
        }
    } else {
        write_dec_u64(m / 10, out);
        out.push((0x30 + (m % 10)) as u8);
        proof {
            assert(out@ =~= old(out)@ + (dec_digits((m / 10) as nat) + seq![
                (0x30 + m % 10) as u8,
            ]));
        }
    }
}

/// Appends the decimal text of `n`.
fn write_dec_i64(n: i64, out: &mut Vec<u8>)
    ensures
        final(out)@ == old(out)@ + dec_repr(n),
{
    if n >= 0 {
        write_dec_u64(n as u64, out);
    } else {
        out.push(0x2D);
        let mag: u64 = ((-(n + 1)) as u64) + 1;
        assert(mag == -(n as int));
        let ghost mid = out@;
        write_dec_u64(mag, out);
        proof {
            assert(out@ =~= old(out)@ + (seq![0x2Du8] + dec_digits(mag as nat)));
        }
    }
}

/// Escapes a string body for display.
pub fn escape_string(s: &Vec<u8>) -> (r: Vec<u8>)
    ensures
        r@ == spec_escape(s@),
{
    let n = s.len();
    let mut out: Vec<u8> = Vec::new();
    let mut i: usize = 0;
    proof {
        assert(s@.skip(0) =~= s@);
        assert(out@ + spec_escape(s@.skip(0)) =~= spec_escape(s@));
    }
    while i < n
        invariant
            0 <= i <= n,
            n == s@.len(),
            out@ + spec_escape(s@.skip(i as int)) == spec_escape(s@),
        decreases n - i,
    {
        let c = s[i];
        proof {
            assert(s@.skip(i as int).first() == s@[i as int]);
            assert(s@.skip(i as int).drop_first() =~= s@.skip(i + 1));
        }
        let ghost before = out@;
        if c == 0x22 {
            out.push(0x5C);
            out.push(0x22);
        } else if c == 0x5C {
            out.push(0x5C);
            out.push(0x5C);
        } else if c == 0x0A {
            out.push(0x5C);
            out.push(0x6E);
        } else if c == 0x09 {
            out.push(0x5C);
            out.push(0x74);
        } else if c == 0x0D {
            out.push(0x5C);
            out.push(0x72);
        } else {
            out.push(c);
        }
        proof {
            assert(out@ =~= before + esc_byte(c));
            assert(out@ + spec_escape(s@.skip(i + 1)) =~= before + (esc_byte(c) + spec_escape(
                s@.skip(i + 1),
            )));
        }
        i = i + 1;
    }
    proof {
        assert(s@.skip(n as int) =~= Seq::<u8>::empty());
        assert(out@ + spec_escape(s@.skip(n as int)) =~= out@);
    }
    out
}

impl Sexp {
    /// The float payloads of this value in traversal order: exactly the
    /// entries whose texts [`Sexp::to_string_repr_with`] asks its caller to
    /// format.
    pub fn float_payloads(&self) -> (r: Vec<Vec<u8>>)
        requires
            self.wf(),
        ensures
            toks_view(r@) == spec_float_list(self@),
    {
        let mut out: Vec<Vec<u8>> = Vec::new();
        proof {
            assert(toks_view(out@) =~= Seq::<Seq<u8>>::empty());
        }
        collect_floats(self, &mut out);
        let r = out;
        proof {
            assert(toks_view(r@) =~= Seq::<Seq<u8>>::empty() + spec_float_list(self@));
        }
        r
    }

    /// Renders this value to surface text with no float texts supplied:
    /// every float falls back to `0.0`. For float-free values this is the
    /// full rendering.
    pub fn to_string_repr(&self) -> (r: Vec<u8>)
        requires
            self.wf(),
        ensures
            r@ == spec_render(self@, Seq::empty(), 0).0,
    {
        let empty: Vec<Vec<u8>> = Vec::new();
        proof {
            assert(toks_view(empty@) =~= Seq::<Seq<u8>>::empty());
        }
        self.to_string_repr_with(&empty)
    }

    /// Renders this value to surface text, with `float_texts` supplying the
    /// display form of each float payload in traversal order.
    pub fn to_string_repr_with(&self, float_texts: &Vec<Vec<u8>>) -> (r: Vec<u8>)
        requires
            self.wf(),
        ensures
            r@ == spec_render(self@, toks_view(float_texts@), 0).0,
    {
        let n = self.byte_len();
        proof {
            lemma_float_list_bound(self@);
            lemma_enc_shape(self@);
            assert(self.bytes().len() == 1 + enc(self@).len());
            assert(spec_float_list(self@).len() <= n);
        }
        let mut out: Vec<u8> = Vec::new();
        render_rec(self, float_texts, 0, &mut out);
        out
    }
}

/// Appends each float payload of `v` to `out`, in traversal order.
fn collect_floats(v: &Sexp, out: &mut Vec<Vec<u8>>)
    requires
        v.wf(),
    ensures
        toks_view(final(out)@) == toks_view(old(out)@) + spec_float_list(v@),
    decreases v@,
{
    let t = v.get_type();
    if t == SexpType::Float {
        let p = v.float_payload();
        out.push(p);
        proof {
            assert(toks_view(out@) =~= toks_view(old(out)@) + spec_float_list(v@));
        }
    } else if t == SexpType::List {
        let ghost es = v@->List_0;
        let count = v.child_count();
        let mut k: usize = 0;
        proof {
            assert(es.skip(0) =~= es);
            assert(toks_view(out@) + spec_float_list_seq(es.skip(0)) =~= toks_view(old(out)@)
                + spec_float_list_seq(es));
        }
        while k < count
            invariant
                0 <= k <= count,
                count == es.len(),
                v.wf(),
                v@ is List,
                es == v@->List_0,
                toks_view(out@) + spec_float_list_seq(es.skip(k as int)) == toks_view(old(out)@)
                    + spec_float_list_seq(es),
            decreases count - k,
        {
            let c = v.child(k);
            proof {
                assert(es.skip(k as int).first() == es[k as int]);
                assert(es.skip(k as int).drop_first() =~= es.skip(k + 1));
            }
            let ghost before = toks_view(out@);
            collect_floats(&c, out);
            proof {
                assert(before + (spec_float_list(es[k as int]) + spec_float_list_seq(
                    es.skip(k + 1),
                )) =~= (before + spec_float_list(es[k as int])) + spec_float_list_seq(
                    es.skip(k + 1),
                ));
            }
            k = k + 1;
        }
        proof {
            assert(spec_float_list_seq(es.skip(count as int)) =~= Seq::<Seq<u8>>::empty());
            assert(toks_view(out@) + Seq::<Seq<u8>>::empty() =~= toks_view(out@));
            assert(toks_view(old(out)@) + spec_float_list_seq(es) =~= toks_view(old(out)@)
                + spec_float_list(v@));
        }
    } else {
        proof {
            assert(toks_view(out@) =~= toks_view(old(out)@) + spec_float_list(v@));
        }
    }
}

/// Renders one value at float index `j`, appending its text; returns the
/// next float index.
fn render_rec(v: &Sexp, ft: &Vec<Vec<u8>>, j: usize, out: &mut Vec<u8>) -> (r: usize)
    requires
        v.wf(),
        j + spec_float_list(v@).len() <= usize::MAX,
    ensures
        final(out)@ == old(out)@ + spec_render(v@, toks_view(ft@), j as int).0,
        r == spec_render(v@, toks_view(ft@), j as int).1,
    decreases v@,
{
    let ghost tv = toks_view(ft@);
    let t = v.get_type();
    if t == SexpType::Nil {
        out.push(0x28);
        out.push(0x29);
        proof {
            assert(out@ =~= old(out)@ + spec_render(v@, tv, j as int).0);
        }
        j
    } else if t == SexpType::Integer {
        let n = v.int_value();
        write_dec_i64(n, out);
        j
    } else if t == SexpType::Float {
        proof {
            assert(spec_float_list(v@).len() == 1);
        }
        if j < ft.len() {
            let ghost before = out@;
            let mut text = crate::sexp::copy_range(&ft[j], 0, ft[j].len());
            proof {
                assert(text@ =~= tv[j as int]);
            }
            out.append(&mut text);
            proof {
                assert(out@ =~= before + ft_at(tv, j as int));
            }
        } else {
            out.push(0x30);
            out.push(0x2E);
            out.push(0x30);
            proof {
                assert(tv.len() == ft@.len());
                assert(out@ =~= old(out)@ + ft_at(tv, j as int));
            }
        }
        j + 1
    } else if t == SexpType::Bool {
        let b = v.bool_value();
        out.push(0x23);
        if b {
            out.push(0x74);
        } else {
            out.push(0x66);
        }
        proof {
            assert(out@ =~= old(out)@ + spec_render(v@, tv, j as int).0);
        }
        j
    } else if t == SexpType::String {
        let s = v.text_bytes();
        out.push(0x22);
        let mut body = escape_string(&s);
        out.append(&mut body);
        out.push(0x22);
        proof {
            assert(out@ =~= old(out)@ + (seq![0x22u8] + spec_escape(v@->Str_0) + seq![0x22u8]));
        }
        j
    } else if t == SexpType::Symbol {
        let mut s = v.text_bytes();
        out.append(&mut s);
        j
    } else {
        assert(v@ is List);
        let ghost es = v@->List_0;
        let count = v.child_count();
        out.push(0x28);
        let ghost open_out = out@;
        let ghost j0 = j as int;
        let mut jj = j;
        let mut k: usize = 0;
        proof {
            assert(spec_float_list(v@) == spec_float_list_seq(es));
            assert(es.skip(0) =~= es);
        }
        while k < count
            invariant
                0 <= k <= count,
                count == es.len(),
                count >= 1,
                v.wf(),
                v@ is List,
                es == v@->List_0,
                tv == toks_view(ft@),
                open_out == old(out)@ + seq![0x28u8],
                j0 + spec_float_list_seq(es).len() <= usize::MAX,
                j0 <= jj,
                jj + spec_float_list_seq(es.skip(k as int)).len() == j0 + spec_float_list_seq(
                    es,
                ).len(),
                spec_render_seq(es, tv, j0).1 == spec_render_seq(es.skip(k as int), tv, jj as int).1,
                out@ + (if 0 < k < count {
                    seq![0x20u8]
                } else {
                    Seq::<u8>::empty()
                }) + spec_render_seq(es.skip(k as int), tv, jj as int).0 == open_out
                    + spec_render_seq(es, tv, j0).0,
            decreases count - k,
        {
            let ghost skipk = es.skip(k as int);
            proof {
                assert(skipk.first() == es[k as int]);
                assert(skipk.drop_first() =~= es.skip(k + 1));
                lemma_render_consumes(es[k as int], tv, jj as int);
                lemma_render_seq_consumes(es.skip(k + 1), tv, spec_render(
                    es[k as int],
                    tv,
                    jj as int,
                ).1);
                assert(spec_float_list_seq(skipk).len() == spec_float_list(es[k as int]).len()
                    + spec_float_list_seq(es.skip(k + 1)).len());
            }
            if k > 0 {
                out.push(0x20);
            }
            let ghost before = out@;
            let c = v.child(k);
            let jn = render_rec(&c, ft, jj, out);
            proof {
                if skipk.len() == 1 {
                    assert(spec_render_seq(skipk, tv, jj as int) == spec_render(
                        es[k as int],
                        tv,
                        jj as int,
                    ));
                    assert(es.skip(k + 1).len() == 0);
                } else {
                    assert(spec_render_seq(skipk, tv, jj as int).0 == spec_render(
                        es[k as int],
                        tv,
                        jj as int,
                    ).0 + seq![0x20u8] + spec_render_seq(es.skip(k + 1), tv, jn as int).0);
                }
                assert(out@ + (if 0 < k + 1 < count {
                    seq![0x20u8]
                } else {
                    Seq::<u8>::empty()
                }) + spec_render_seq(es.skip(k + 1), tv, jn as int).0 =~= open_out
                    + spec_render_seq(es, tv, j0).0) by {
                    assert(out@ =~= before + spec_render(es[k as int], tv, jj as int).0);
                }
            }
            jj = jn;
            k = k + 1;
        }
        out.push(0x29);
        proof {
            assert(es.skip(count as int) =~= Seq::<Val>::empty());
            assert(spec_render_seq(es.skip(count as int), tv, jj as int).0 =~= Seq::<u8>::empty());
            let body = spec_render_seq(es, tv, j0);
            assert(spec_render(v@, tv, j0) == (seq![0x28u8] + body.0 + seq![0x29u8], body.1));
            assert(out@ =~= old(out)@ + (seq![0x28u8] + body.0 + seq![0x29u8]));
        }
        jj
    }
}

} // verus!
