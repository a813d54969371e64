//! The textual round trip: rendering a value and re-parsing the text yields
//! the value back.
//!
//! The law is stated for the values the parser itself can produce, floats
//! aside: nil, integers, strings, non-degenerate symbols (non-empty, free of
//! token-ending bytes, not the literal `nil`, and not readable as an
//! integer), and lists of such values. Booleans and floats are excluded:
//! their renderings (`#t`, and caller-formatted float text) re-read as
//! symbols or depend on the caller's float formatter, so no such value comes
//! out of a parse in the first place.

use vstd::prelude::*;
use crate::model::{Val, wf_val, bytes_at};
use crate::codec::lemma_canon_id;
use crate::parse::{ParseError, is_ws, is_stop, spec_skip_ws, spec_token_end, spec_parse_i64,
    spec_parse_string, spec_parse, spec_parse_items, spec_parse_atom, spec_unescape, fb_at,
    spec_input, PParsed, dec_value, all_digits};
use crate::render::{dec_digits, dec_repr, esc_byte, spec_escape, spec_render, spec_render_seq,
    spec_float_list, spec_float_list_seq};

verus! {

/// A value whose rendering re-parses to itself: everything the parser can
/// produce except floats.
pub open spec fn renderable(v: Val) -> bool
    decreases v, 1int,
{
    match v {
        Val::Nil => true,
        Val::Int(_) => true,
        Val::Float(_) => false,
        Val::Bool(_) => false,
        Val::Str(_) => true,
        Val::Sym(s) => {
            &&& s.len() >= 1
            &&& (forall|i: int| 0 <= i < s.len() ==> !is_stop(#[trigger] s[i]))
            &&& s != seq![0x6Eu8, 0x69u8, 0x6Cu8]
            &&& spec_parse_i64(s) is None
        },
        Val::List(es) => forall|i: int| 0 <= i < es.len() ==> renderable(#[trigger] es[i]),
    }
}

/// Renderable values carry no float payloads.
proof fn lemma_renderable_no_floats(v: Val)
    requires
        renderable(v),
    ensures
        spec_float_list(v) == Seq::<Seq<u8>>::empty(),
    decreases v, 1int,
{
    match v {
        Val::List(es) => {
            lemma_renderable_no_floats_seq(es);
        },
        _ => {
            assert(spec_float_list(v) =~= Seq::<Seq<u8>>::empty());
        },
    }
}

/// Sequence form of [`lemma_renderable_no_floats`].
proof fn lemma_renderable_no_floats_seq(es: Seq<Val>)
    requires
        forall|i: int| 0 <= i < es.len() ==> renderable(#[trigger] es[i]),
    ensures
        spec_float_list_seq(es) == Seq::<Seq<u8>>::empty(),
    decreases es, 0int,
{
    if es.len() == 0 {
        assert(spec_float_list_seq(es) =~= Seq::<Seq<u8>>::empty());
    } else {
        lemma_renderable_no_floats(es.first());
        lemma_renderable_no_floats_seq(es.drop_first());
        assert(spec_float_list_seq(es) =~= spec_float_list(es.first()) + spec_float_list_seq(
            es.drop_first(),
        ));
        assert(spec_float_list_seq(es) =~= Seq::<Seq<u8>>::empty());
    }
}

/// Decimal digits are digits and read back to the number.
proof fn lemma_dec_digits(m: nat)
    ensures
        dec_digits(m).len() >= 1,
        all_digits(dec_digits(m)),
        dec_value(dec_digits(m)) == m,
    decreases m,
{
    if m < 10 {
        assert(dec_digits(m) =~= seq![(0x30 + m) as u8]);
        assert(dec_digits(m).drop_last() =~= Seq::<u8>::empty());
        assert(dec_value(Seq::<u8>::empty()) == 0);
        assert(dec_value(dec_digits(m)) == 0 * 10 + ((0x30 + m) as u8 - 0x30) as nat);
    } else {
        lemma_dec_digits(m / 10);
        let d = dec_digits(m / 10);
        let whole = d + seq![(0x30 + m % 10) as u8];
        assert(whole.drop_last() =~= d);
        assert(whole.last() == (0x30 + m % 10) as u8);
        assert(dec_value(whole) == dec_value(d) * 10 + m % 10);
        assert(dec_value(whole) == m) by {
            assert(m == (m / 10) * 10 + m % 10);
        }
        assert(forall|i: int| 0 <= i < d.len() ==> whole[i] == d[i]);
    }
}

/// The decimal text of an integer reads back to the integer.
proof fn lemma_parse_i64_of_repr(n: i64)
    ensures
        spec_parse_i64(dec_repr(n)) == Some(n),
{
    if n >= 0 {
        lemma_dec_digits(n as nat);
        let tok = dec_digits(n as nat);
        assert(tok[0] != 0x2D && tok[0] != 0x2B);
        assert(spec_parse_i64(tok) == Some(n));
    } else {
        let mag = (-(n as int)) as nat;
        lemma_dec_digits(mag);
        let tok = seq![0x2Du8] + dec_digits(mag);
        assert(tok[0] == 0x2D);
        assert(tok.drop_first() =~= dec_digits(mag));
        assert(mag <= 0x8000_0000_0000_0000);
        assert(spec_parse_i64(tok) == Some(n));
    }
}

/// An escaped string body followed by a closing quote reads back to the
/// body.
proof fn lemma_reparse_string(buf: Seq<u8>, pos: int, s: Seq<u8>)
    requires
        bytes_at(buf, pos, spec_escape(s) + seq![0x22u8]),
    ensures
        spec_parse_string(buf, pos) == Ok::<(Seq<u8>, int), ParseError>(
            (s, pos + spec_escape(s).len() + 1),
        ),
    decreases s.len(),
{
    let text = spec_escape(s) + seq![0x22u8];
    if s.len() == 0 {
        assert(spec_escape(s) =~= Seq::<u8>::empty());
        assert(buf[pos] == text[0]) by {
            assert(buf.subrange(pos, pos + text.len())[0] == text[0]);
        }
        assert(buf[pos] == 0x22);
        assert(s =~= Seq::<u8>::empty());
    } else {
        let c = s.first();
        let e = esc_byte(c);
        assert(spec_escape(s) == e + spec_escape(s.drop_first()));
        assert(text =~= e + (spec_escape(s.drop_first()) + seq![0x22u8]));
        crate::model::lemma_bytes_at_split(buf, pos, e, spec_escape(s.drop_first()) + seq![0x22u8]);
        assert(buf[pos] == e[0]) by {
            assert(buf.subrange(pos, pos + e.len())[0] == e[0]);
        }
        if c == 0x22 || c == 0x5C || c == 0x0A || c == 0x09 || c == 0x0D {
            assert(e.len() == 2 && e[0] == 0x5C);
            assert(buf[pos + 1] == e[1]) by {
                assert(buf.subrange(pos, pos + e.len())[1] == e[1]);
            }
            assert(spec_unescape(e[1]) == c);
            lemma_reparse_string(buf, pos + 2, s.drop_first());
            assert(seq![c] + s.drop_first() =~= s);
            assert(spec_parse_string(buf, pos) == Ok::<(Seq<u8>, int), ParseError>(
                (s, pos + spec_escape(s).len() + 1),
            ));
        } else {
            assert(e =~= seq![c]);
            assert(buf[pos] == c && c != 0x22 && c != 0x5C);
            lemma_reparse_string(buf, pos + 1, s.drop_first());
            assert(seq![c] + s.drop_first() =~= s);
            assert(spec_parse_string(buf, pos) == Ok::<(Seq<u8>, int), ParseError>(
                (s, pos + spec_escape(s).len() + 1),
            ));
        }
    }
}

/// A run of non-stop bytes bounded by a stop byte (or the end of input) is
/// one whole token.
proof fn lemma_token_end_exact(buf: Seq<u8>, pos: int, len: int)
    requires
        0 <= pos,
        0 <= len,
        pos + len <= buf.len(),
        forall|j: int| pos <= j < pos + len ==> !is_stop(#[trigger] buf[j]),
        pos + len == buf.len() || is_stop(buf[pos + len]),
    ensures
        spec_token_end(buf, pos) == pos + len,
    decreases len,
{
    if len == 0 {
    } else {
        lemma_token_end_exact(buf, pos + 1, len - 1);
    }
}

/// The rendered text of a value is never empty.
proof fn lemma_render_nonempty(v: Val, ft: Seq<Seq<u8>>, j: int)
    requires
        renderable(v),
    ensures
        spec_render(v, ft, j).0.len() >= 1,
{
    match v {
        Val::Int(n) => {
            if n >= 0 {
                lemma_dec_digits(n as nat);
            } else {
                lemma_dec_digits((-(n as int)) as nat);
            }
        },
        _ => {},
    }
}

/// Re-parsing one rendered value embedded at `pos` (bounded by a stop byte
/// or the end of input) yields the value and stops right after its text.
/// Float answers are immaterial: a renderable value holds no floats.
proof fn lemma_reparse(buf: Seq<u8>, pos: int, v: Val, k: int)
    requires
        wf_val(v),
        renderable(v),
        bytes_at(buf, pos, spec_render(v, Seq::empty(), 0).0),
        pos + spec_render(v, Seq::empty(), 0).0.len() == buf.len() || is_stop(
            buf[pos + spec_render(v, Seq::empty(), 0).0.len()],
        ),
    ensures
        spec_parse(buf, pos, Seq::empty(), k) matches Ok(p) && p.v == v && p.pos == pos
            + spec_render(v, Seq::empty(), 0).0.len(),
    decreases v, 1int,
{
    let text = spec_render(v, Seq::empty(), 0).0;
    let end = pos + text.len();
    lemma_render_nonempty(v, Seq::empty(), 0);
    assert(buf[pos] == text[0]) by {
        assert(buf.subrange(pos, pos + text.len())[0] == text[0]);
    }
    match v {
        Val::Nil => {
            assert(text =~= seq![0x28u8, 0x29u8]);
            assert(buf[pos] == 0x28 && !is_ws(0x28));
            assert(spec_skip_ws(buf, pos) == pos);
            assert(buf[pos + 1] == text[1]) by {
                assert(buf.subrange(pos, pos + text.len())[1] == text[1]);
            }
            assert(buf[pos + 1] == 0x29 && !is_ws(0x29));
            assert(spec_skip_ws(buf, pos + 1) == pos + 1);
            assert(spec_parse_items(buf, pos + 1, Seq::empty(), k, Seq::empty(), Seq::empty())
                == Ok::<PParsed, ParseError>(
                PParsed { v: Val::Nil, pos: pos + 2, toks: Seq::empty() },
            ));
        },
        Val::Int(n) => {
            assert(text == dec_repr(n));
            lemma_parse_i64_of_repr(n);
            if n >= 0 {
                lemma_dec_digits(n as nat);
            } else {
                lemma_dec_digits((-(n as int)) as nat);
            }
            assert forall|j: int| pos <= j < end implies !is_stop(#[trigger] buf[j]) by {
                let i = j - pos;
                assert(buf.subrange(pos, pos + text.len())[i] == text[i]);
                assert(buf[j] == text[i]);
                if n >= 0 {
                    assert(0x30 <= text[i] <= 0x39);
                } else {
                    if i == 0 {
                        assert(text[i] == 0x2D);
                    } else {
                        assert(text[i] == dec_digits((-(n as int)) as nat)[i - 1]);
                        assert(0x30 <= text[i] <= 0x39);
                    }
                }
            }
            assert(!is_ws(buf[pos]) && buf[pos] != 0x3B);
            assert(spec_skip_ws(buf, pos) == pos);
            assert(buf[pos] != 0x28 && buf[pos] != 0x22);
            lemma_token_end_exact(buf, pos, text.len() as int);
            assert(buf.subrange(pos, end) == text);
            assert(text != seq![0x6Eu8, 0x69u8, 0x6Cu8] && text != seq![0x28u8, 0x29u8]) by {
                if n >= 0 {
                    lemma_dec_digits(n as nat);
                } else {
                }
                assert(text[0] == 0x2D || 0x30 <= text[0] <= 0x39);
            }
            assert(spec_parse_atom(buf, pos, Seq::empty(), k) matches Ok(p) && p.v == Val::Int(n)
                && p.pos == end);
        },
        Val::Str(s) => {
            assert(text == seq![0x22u8] + spec_escape(s) + seq![0x22u8]);
            assert(buf[pos] == 0x22 && !is_ws(0x22));
            assert(spec_skip_ws(buf, pos) == pos);
            assert(text =~= seq![0x22u8] + (spec_escape(s) + seq![0x22u8]));
            crate::model::lemma_bytes_at_split(
                buf,
                pos,
                seq![0x22u8],
                spec_escape(s) + seq![0x22u8],
            );
            lemma_reparse_string(buf, pos + 1, s);
        },
        Val::Sym(s) => {
            assert(text == s);
            assert forall|j: int| pos <= j < end implies !is_stop(#[trigger] buf[j]) by {
                let i = j - pos;
                assert(buf.subrange(pos, pos + text.len())[i] == text[i]);
                assert(buf[j] == text[i]);
                assert(!is_stop(s[i]));
            }
            assert(!is_ws(buf[pos]) && buf[pos] != 0x3B && buf[pos] != 0x28 && buf[pos] != 0x22);
            assert(spec_skip_ws(buf, pos) == pos);
            lemma_token_end_exact(buf, pos, text.len() as int);
            assert(buf.subrange(pos, end) == s);
            assert(s != seq![0x28u8, 0x29u8]) by {
                assert(!is_stop(s[0]));
            }
            assert(fb_at(Seq::empty(), k) is None);
            assert(spec_parse_atom(buf, pos, Seq::empty(), k) matches Ok(p) && p.v == Val::Sym(s)
                && p.pos == end);
        },
        Val::List(es) => {
            let body = spec_render_seq(es, Seq::empty(), 0).0;
            assert(text == seq![0x28u8] + body + seq![0x29u8]);
            assert(buf[pos] == 0x28 && !is_ws(0x28));
            assert(spec_skip_ws(buf, pos) == pos);
            assert(text =~= seq![0x28u8] + (body + seq![0x29u8]));
            crate::model::lemma_bytes_at_split(buf, pos, seq![0x28u8], body + seq![0x29u8]);
            lemma_reparse_items(buf, pos + 1, es, k, Seq::empty(), Seq::empty(), false);
            assert(Seq::<Val>::empty() + es =~= es);
        },
        _ => {},
    }
}

/// Re-parsing the rendered elements of a list (optionally after one
/// separating space) up to the closing parenthesis appends exactly those
/// elements to the accumulator.
proof fn lemma_reparse_items(
    buf: Seq<u8>,
    pos: int,
    es: Seq<Val>,
    k: int,
    acc: Seq<Val>,
    toks: Seq<Seq<u8>>,
    sep: bool,
)
    requires
        forall|i: int| 0 <= i < es.len() ==> wf_val(#[trigger] es[i]),
        forall|i: int| 0 <= i < es.len() ==> renderable(#[trigger] es[i]),
        !(sep && es.len() == 0),
        bytes_at(
            buf,
            pos,
            (if sep {
                seq![0x20u8]
            } else {
                Seq::<u8>::empty()
            }) + spec_render_seq(es, Seq::empty(), 0).0 + seq![0x29u8],
        ),
    ensures
        spec_parse_items(buf, pos, Seq::empty(), k, acc, toks) matches Ok(p) && p.v == (if acc.len()
            + es.len() == 0 {
            Val::Nil
        } else {
            Val::List(acc + es)
        }) && p.pos == pos + (if sep {
            1int
        } else {
            0int
        }) + spec_render_seq(es, Seq::empty(), 0).0.len() + 1,
    decreases es, 0int,
{
    let sep_text: Seq<u8> = if sep {
        seq![0x20u8]
    } else {
        Seq::empty()
    };
    let body = spec_render_seq(es, Seq::empty(), 0).0;
    let text = sep_text + body + seq![0x29u8];
    let p1 = pos + sep_text.len();
    assert(text =~= sep_text + (body + seq![0x29u8]));
    crate::model::lemma_bytes_at_split(buf, pos, sep_text, body + seq![0x29u8]);
    if es.len() == 0 {
        assert(body =~= Seq::<u8>::empty());
        assert(body + seq![0x29u8] =~= seq![0x29u8]);
        assert(buf[p1] == 0x29) by {
            assert(buf.subrange(p1, p1 + 1)[0] == 0x29);
        }
        assert(spec_skip_ws(buf, pos) == pos);
        assert(acc + es =~= acc);
        assert(spec_parse_items(buf, pos, Seq::empty(), k, acc, toks) matches Ok(p) && p.pos == pos
            + 1);
    } else {
        let e0 = es.first();
        let t0 = spec_render(e0, Seq::empty(), 0).0;
        let rest = es.drop_first();
        lemma_render_nonempty(e0, Seq::empty(), 0);
        crate::render::lemma_render_consumes(e0, Seq::empty(), 0);
        lemma_renderable_no_floats(e0);
        if es.len() == 1 {
            assert(body == t0);
        } else {
            assert(body == t0 + seq![0x20u8] + spec_render_seq(rest, Seq::empty(), 0).0);
        }
        // the first element's text sits at p1, bounded by a space or the ')'
        let after = p1 + t0.len();
        if es.len() == 1 {
            assert(body + seq![0x29u8] =~= t0 + seq![0x29u8]);
            crate::model::lemma_bytes_at_split(buf, p1, t0, seq![0x29u8]);
            assert(buf[after] == 0x29) by {
                assert(buf.subrange(after, after + 1)[0] == 0x29);
            }
            assert(is_stop(buf[after]));
        } else {
            assert(body + seq![0x29u8] =~= t0 + (seq![0x20u8] + spec_render_seq(
                rest,
                Seq::empty(),
                0,
            ).0 + seq![0x29u8]));
            crate::model::lemma_bytes_at_split(
                buf,
                p1,
                t0,
                seq![0x20u8] + spec_render_seq(rest, Seq::empty(), 0).0 + seq![0x29u8],
            );
            assert(buf[after] == 0x20) by {
                let tail = seq![0x20u8] + spec_render_seq(rest, Seq::empty(), 0).0 + seq![0x29u8];
                assert(buf.subrange(after, after + tail.len())[0] == tail[0]);
            }
            assert(is_stop(buf[after]));
        }
        assert(es[0] == e0);
        assert(wf_val(e0) && renderable(e0));
        assert(bytes_at(buf, p1, t0));
        lemma_first_byte_significant(e0);
        assert(buf[p1] == t0[0]) by {
            assert(buf.subrange(p1, p1 + t0.len())[0] == t0[0]);
        }
        assert(!is_ws(buf[p1]) && buf[p1] != 0x3B && buf[p1] != 0x29);
        assert(spec_skip_ws(buf, p1) == p1);
        // a leading separator is exactly one space, then the element's text
        if sep {
            assert(buf[pos] == 0x20) by {
                assert(buf.subrange(pos, pos + 1)[0] == 0x20);
            }
            assert(is_ws(buf[pos]));
            assert(spec_skip_ws(buf, pos) == spec_skip_ws(buf, pos + 1));
        } else {
            assert(spec_skip_ws(buf, pos) == pos);
        }
        lemma_reparse(buf, p1, e0, k + toks.len());
        let item = spec_parse(buf, p1, Seq::empty(), k + toks.len())->Ok_0;
        assert(item.v == e0 && item.pos == after);
        assert(item.pos > p1 && item.pos <= buf.len());
        if es.len() == 1 {
            lemma_reparse_items(buf, after, rest, k, acc.push(e0), toks + item.toks, false);
            assert(rest.len() == 0);
            assert(bytes_at(buf, after, Seq::<u8>::empty() + spec_render_seq(
                rest,
                Seq::empty(),
                0,
            ).0 + seq![0x29u8])) by {
                assert(Seq::<u8>::empty() + spec_render_seq(rest, Seq::empty(), 0).0 + seq![0x29u8]
                    =~= seq![0x29u8]);
            }
        } else {
            assert(bytes_at(buf, after, seq![0x20u8] + spec_render_seq(rest, Seq::empty(), 0).0
                + seq![0x29u8])) by {
                crate::model::lemma_bytes_at_split(
                    buf,
                    p1,
                    t0,
                    seq![0x20u8] + spec_render_seq(rest, Seq::empty(), 0).0 + seq![0x29u8],
                );
            }
            lemma_reparse_items(buf, after, rest, k, acc.push(e0), toks + item.toks, true);
        }
        assert(acc.push(e0) + rest =~= acc + es);
        assert(acc.push(e0).len() + rest.len() >= 1);
    }
}

/// The first byte of a rendered value is significant: not whitespace, not a
/// comment introducer, and not a closing parenthesis.
proof fn lemma_first_byte_significant(v: Val)
    requires
        wf_val(v),
        renderable(v),
    ensures
        spec_render(v, Seq::empty(), 0).0.len() >= 1,
        !is_ws(spec_render(v, Seq::empty(), 0).0[0]),
        spec_render(v, Seq::empty(), 0).0[0] != 0x3B,
        spec_render(v, Seq::empty(), 0).0[0] != 0x29,
{
    lemma_render_nonempty(v, Seq::empty(), 0);
    match v {
        Val::Int(n) => {
            if n >= 0 {
                lemma_dec_digits(n as nat);
                assert(0x30 <= dec_digits(n as nat)[0] <= 0x39);
            }
        },
        Val::Sym(s) => {
            assert(!is_stop(s[0]));
        },
        _ => {},
    }
}

/// Round trip: for every well-formed renderable value, re-parsing its
/// rendering (with no float answers, which a renderable value never needs)
/// yields an equal value.
pub proof fn lemma_round_trip(v: Val)
    requires
        wf_val(v),
        renderable(v),
    ensures
        spec_input(spec_render(v, Seq::empty(), 0).0, Seq::empty()) == Ok::<Val, ParseError>(v),
{
    let text = spec_render(v, Seq::empty(), 0).0;
    assert(text.subrange(0, text.len() as int) =~= text);
    assert(bytes_at(text, 0, text));
    lemma_reparse(text, 0, v, 0);
    lemma_canon_id(v);
}

} // verus!
