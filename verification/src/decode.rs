//! Strict decoding of untrusted buffers: validates that a byte buffer is
//! exactly the encoding of one well-formed, canonical value and rebuilds the
//! value around it, rejecting anything else.
//!
//! This is the strict counterpart of the parser for the persisted
//! representation: buffers produced by this library always decode, and a
//! buffer that decodes is the encoding of exactly one value (encodings are
//! prefix-free), so decoding is both sound and complete.

use vstd::prelude::*;
use crate::model::{Val, wf_val, enc, enc_seq, varint, zigzag, unzigzag, bytes_at, elem_at,
    tag_of, FORMAT_VERSION, TAG_NIL, TAG_INTEGER, TAG_FLOAT, TAG_STRING, TAG_SYMBOL, TAG_LIST,
    TAG_BOOL, lemma_enc_shape, lemma_varint_len, lemma_bytes_at_split, lemma_varint_at_unique,
    lemma_elem_at_unique, lemma_enc_seq_min_len};
use crate::codec::lemma_enc_seq_push;
use crate::sexp::{Sexp, copy_range};

verus! {

/// Reads one varint with no foreknowledge of its value: the value and the
/// position just past it, or nothing when no 64-bit varint sits at `pos`.
fn read_varint_untrusted(data: &Vec<u8>, pos: usize) -> (r: Option<(u64, usize)>)
    requires
        pos <= data@.len(),
    ensures
        match r {
            Some((n, end)) => bytes_at(data@, pos as int, varint(n as nat)) && end == pos + varint(
                n as nat,
            ).len(),
            None => forall|n: u64| !bytes_at(data@, pos as int, #[trigger] varint(n as nat)),
        },
    decreases data@.len() - pos,
{
    let dlen = data.len();
    if pos >= dlen {
        proof {
            assert forall|n: u64| !bytes_at(data@, pos as int, #[trigger] varint(n as nat)) by {
                lemma_varint_len(n as nat);
            }
        }
        return None;
    }
    let b = data[pos];
    if b < 0x80 {
        proof {
            assert(data@.subrange(pos as int, pos + 1) =~= seq![b]);
            assert(varint(b as nat) =~= seq![b]);
        }
        Some((b as u64, pos + 1))
    } else {
        let low: u64 = (b - 0x80) as u64;
        let rest = read_varint_untrusted(data, pos + 1);
        proof {
            assert forall|n: u64|
                bytes_at(data@, pos as int, varint(n as nat)) implies n >= 0x80 && bytes_at(
                data@,
                pos + 1,
                varint((n as nat) / 0x80),
            ) && (n as nat) % 0x80 == low by {
                lemma_varint_len(n as nat);
                assert(data@.subrange(pos as int, pos + varint(n as nat).len())[0] == b);
                if n < 0x80 {
                    assert(varint(n as nat)[0] == n as u8);
                } else {
                    assert(varint(n as nat)[0] == (0x80 + (n as nat) % 0x80) as u8);
                    assert(varint(n as nat) =~= seq![(0x80 + (n as nat) % 0x80) as u8] + varint(
                        (n as nat) / 0x80,
                    ));
                    lemma_bytes_at_split(
                        data@,
                        pos as int,
                        seq![(0x80 + (n as nat) % 0x80) as u8],
                        varint((n as nat) / 0x80),
                    );
                }
            }
        }
        match rest {
            None => {
                proof {
                    assert forall|n: u64|
                        !bytes_at(data@, pos as int, #[trigger] varint(n as nat)) by {
                        if bytes_at(data@, pos as int, varint(n as nat)) {
                            assert(bytes_at(data@, pos + 1, varint((n / 0x80) as nat)));
                            assert((n / 0x80) as nat == (n as nat) / 0x80);
                        }
                    }
                }
                None
            },
            Some((m, end)) => {
                if m == 0 {
                    proof {
                        assert forall|n: u64|
                            !bytes_at(data@, pos as int, #[trigger] varint(n as nat)) by {
                            if bytes_at(data@, pos as int, varint(n as nat)) {
                                lemma_varint_at_unique(
                                    data@,
                                    pos + 1,
                                    (n as nat) / 0x80,
                                    m as nat,
                                );
                                assert((n as nat) / 0x80 >= 1);
                            }
                        }
                    }
                    None
                } else if m > (u64::MAX - low) / 0x80 {
                    proof {
                        assert forall|n: u64|
                            !bytes_at(data@, pos as int, #[trigger] varint(n as nat)) by {
                            if bytes_at(data@, pos as int, varint(n as nat)) {
                                lemma_varint_at_unique(
                                    data@,
                                    pos + 1,
                                    (n as nat) / 0x80,
                                    m as nat,
                                );
                                assert(n as nat == 0x80 * ((n as nat) / 0x80) + (n as nat)
                                    % 0x80) by (nonlinear_arith);
                                assert(0x80 * (m as nat) + (low as nat) > u64::MAX) by (nonlinear_arith)
                                    requires
                                        m > (u64::MAX - low) / 0x80,
                                        low < 0x80,
                                ;
                            }
                        }
                    }
                    None
                } else {
                    let value: u64 = low + 0x80 * m;
                    proof {
                        assert((value as nat) % 0x80 == low && (value as nat) / 0x80
                            == m as nat) by (nonlinear_arith)
                            requires
                                value == low + 0x80 * m,
                                low < 0x80,
                        ;
                        assert(varint(value as nat) =~= seq![b] + varint(m as nat));
                        lemma_bytes_at_split(data@, pos as int, seq![b], varint(m as nat));
                        assert(data@.subrange(pos as int, pos + 1) =~= seq![b]);
                    }
                    Some((value, end))
                }
            },
        }
    }
}

/// Decodes one tagged element at `pos`: its value and the position just past
/// it, or nothing when no well-formed element sits there.
fn decode_elem(data: &Vec<u8>, pos: usize) -> (r: Option<(Ghost<Val>, usize)>)
    requires
        pos <= data@.len(),
    ensures
        match r {
            Some((v, end)) => wf_val(v@) && elem_at(data@, pos as int, v@) && end == pos + enc(
                v@,
            ).len(),
            None => forall|v: Val| wf_val(v) ==> !bytes_at(data@, pos as int, #[trigger] enc(v)),
        },
    decreases data@.len() - pos, 0int,
{
    let dlen = data.len();
    if pos >= dlen {
        proof {
            assert forall|v: Val| wf_val(v) implies !bytes_at(
                data@,
                pos as int,
                #[trigger] enc(v),
            ) by {
                lemma_enc_shape(v);
            }
        }
        return None;
    }
    let tag = data[pos];
    proof {
        assert forall|v: Val|
            wf_val(v) && bytes_at(data@, pos as int, enc(v)) implies tag_of(v) == tag by {
            lemma_enc_shape(v);
            assert(data@.subrange(pos as int, pos + enc(v).len())[0] == enc(v)[0]);
        }
    }
    if tag == TAG_NIL {
        proof {
            assert(data@.subrange(pos as int, pos + 1) =~= seq![TAG_NIL]);
            assert(enc(Val::Nil) =~= seq![TAG_NIL]);
        }
        Some((Ghost(Val::Nil), pos + 1))
    } else if tag == TAG_INTEGER {
        match read_varint_untrusted(data, pos + 1) {
            None => {
                proof {
                    assert forall|v: Val| wf_val(v) implies !bytes_at(
                        data@,
                        pos as int,
                        #[trigger] enc(v),
                    ) by {
                        if bytes_at(data@, pos as int, enc(v)) {
                            assert(v is Int);
                            assert(enc(v) =~= seq![TAG_INTEGER] + varint(zigzag(v->Int_0) as nat));
                            lemma_bytes_at_split(
                                data@,
                                pos as int,
                                seq![TAG_INTEGER],
                                varint(zigzag(v->Int_0) as nat),
                            );
                        }
                    }
                }
                None
            },
            Some((u, end)) => {
                let value: i64 = if u % 2 == 0 {
                    (u / 2) as i64
                } else {
                    -((u / 2) as i64) - 1
                };
                proof {
                    assert(value == unzigzag(u));
                    assert(zigzag(unzigzag(u)) == u);
                    assert(enc(Val::Int(value)) =~= seq![TAG_INTEGER] + varint(u as nat));
                    lemma_bytes_at_split(data@, pos as int, seq![TAG_INTEGER], varint(u as nat));
                    assert(data@.subrange(pos as int, pos + 1) =~= seq![TAG_INTEGER]);
                }
                Some((Ghost(Val::Int(value)), end))
            },
        }
    } else if tag == TAG_FLOAT {
        if dlen - pos < 9 {
            proof {
                assert forall|v: Val| wf_val(v) implies !bytes_at(
                    data@,
                    pos as int,
                    #[trigger] enc(v),
                ) by {
                    if bytes_at(data@, pos as int, enc(v)) {
                        assert(v is Float && enc(v).len() == 9);
                    }
                }
            }
            return None;
        }
        let ghost payload = data@.subrange(pos + 1, pos + 9);
        proof {
            assert(enc(Val::Float(payload)) =~= seq![TAG_FLOAT] + payload);
            assert(data@.subrange(pos as int, pos + 9) =~= seq![TAG_FLOAT] + payload);
        }
        Some((Ghost(Val::Float(payload)), pos + 9))
    } else if tag == TAG_BOOL {
        if dlen - pos < 2 || data[pos + 1] > 1 {
            proof {
                assert forall|v: Val| wf_val(v) implies !bytes_at(
                    data@,
                    pos as int,
                    #[trigger] enc(v),
                ) by {
                    if bytes_at(data@, pos as int, enc(v)) {
                        assert(v is Bool && enc(v).len() == 2);
                        assert(data@.subrange(pos as int, pos + 2)[1] == enc(v)[1]);
                        assert(enc(v)[1] == 0 || enc(v)[1] == 1);
                    }
                }
            }
            return None;
        }
        let b = data[pos + 1] == 1;
        proof {
            assert(data@.subrange(pos as int, pos + 2) =~= seq![
                TAG_BOOL,
                if b {
                    1u8
                } else {
                    0u8
                },
            ]);
        }
        Some((Ghost(Val::Bool(b)), pos + 2))
    } else if tag == TAG_STRING || tag == TAG_SYMBOL {
        proof {
            assert forall|v: Val|
                wf_val(v) && bytes_at(data@, pos as int, enc(v)) implies bytes_at(
                data@,
                pos + 1,
                varint(
                    (if v is Str {
                        v->Str_0
                    } else {
                        v->Sym_0
                    }).len(),
                ),
            ) by {
                let payload: Seq<u8> = if v is Str {
                    v->Str_0
                } else {
                    v->Sym_0
                };
                assert(enc(v) =~= seq![tag_of(v)] + (varint(payload.len()) + payload));
                lemma_bytes_at_split(
                    data@,
                    pos as int,
                    seq![tag_of(v)],
                    varint(payload.len()) + payload,
                );
                lemma_bytes_at_split(data@, pos + 1, varint(payload.len()), payload);
            }
        }
        match read_varint_untrusted(data, pos + 1) {
            None => None,
            Some((len, vend)) => {
                let remaining = dlen - vend;
                if len > remaining as u64 {
                    proof {
                        assert forall|v: Val| wf_val(v) implies !bytes_at(
                            data@,
                            pos as int,
                            #[trigger] enc(v),
                        ) by {
                            if bytes_at(data@, pos as int, enc(v)) {
                                let payload: Seq<u8> = if v is Str {
                                    v->Str_0
                                } else {
                                    v->Sym_0
                                };
                                lemma_varint_at_unique(data@, pos + 1, payload.len(), len as nat);
                                assert(enc(v).len() == 1 + varint(payload.len()).len()
                                    + payload.len());
                            }
                        }
                    }
                    return None;
                }
                let end = vend + (len as usize);
                let ghost payload = data@.subrange(vend as int, end as int);
                let ghost v: Val = if tag == TAG_STRING {
                    Val::Str(payload)
                } else {
                    Val::Sym(payload)
                };
                proof {
                    assert(enc(v) =~= seq![tag] + varint(payload.len()) + payload);
                    assert(data@.subrange(pos as int, end as int) =~= enc(v)) by {
                        assert(data@.subrange(pos as int, pos + 1) =~= seq![tag]);
                        assert(seq![tag] + varint(payload.len()) + payload =~= seq![tag] + (varint(
                            payload.len(),
                        ) + payload));
                        lemma_bytes_at_split(
                            data@,
                            pos as int,
                            seq![tag],
                            varint(payload.len()) + payload,
                        );
                        lemma_bytes_at_split(data@, pos + 1, varint(payload.len()), payload);
                        assert(bytes_at(data@, pos + 1, varint(payload.len())));
                        assert(bytes_at(data@, vend as int, payload));
                    }
                }
                Some((Ghost(v), end))
            },
        }
    } else if tag == TAG_LIST {
        proof {
            assert forall|v: Val|
                wf_val(v) && bytes_at(data@, pos as int, enc(v)) implies bytes_at(
                data@,
                pos + 1,
                varint(v->List_0.len()),
            ) && bytes_at(
                data@,
                pos + 1 + varint(v->List_0.len()).len(),
                enc_seq(v->List_0),
            ) by {
                assert(enc(v) =~= seq![TAG_LIST] + (varint(v->List_0.len()) + enc_seq(
                    v->List_0,
                )));
                lemma_bytes_at_split(
                    data@,
                    pos as int,
                    seq![TAG_LIST],
                    varint(v->List_0.len()) + enc_seq(v->List_0),
                );
                lemma_bytes_at_split(
                    data@,
                    pos + 1,
                    varint(v->List_0.len()),
                    enc_seq(v->List_0),
                );
            }
        }
        match read_varint_untrusted(data, pos + 1) {
            None => None,
            Some((count, vend)) => {
                if count == 0 {
                    proof {
                        assert forall|v: Val| wf_val(v) implies !bytes_at(
                            data@,
                            pos as int,
                            #[trigger] enc(v),
                        ) by {
                            if bytes_at(data@, pos as int, enc(v)) {
                                lemma_varint_at_unique(
                                    data@,
                                    pos + 1,
                                    v->List_0.len(),
                                    count as nat,
                                );
                            }
                        }
                    }
                    return None;
                }
                let ghost gs: Seq<Val> = Seq::empty();
                let mut children: Ghost<Seq<Val>> = Ghost(gs);
                let mut cur = vend;
                let mut k: u64 = 0;
                proof {
                    assert(enc_seq(children@) =~= Seq::<u8>::empty());
                    assert(data@.subrange(vend as int, vend as int) =~= Seq::<u8>::empty());
                    assert(bytes_at(data@, vend as int, enc_seq(children@)));
                    assert forall|v: Val|
                        wf_val(v) && bytes_at(data@, pos as int, enc(v)) implies v is List
                        && v->List_0.len() == count && v->List_0.take(0) =~= children@ && bytes_at(
                        data@,
                        cur as int,
                        enc_seq(v->List_0.skip(0)),
                    ) by {
                        lemma_varint_at_unique(data@, pos + 1, v->List_0.len(), count as nat);
                        assert(v->List_0.skip(0) =~= v->List_0);
                    }
                }
                while k < count
                    invariant
                        0 <= k <= count,
                        vend <= cur <= data@.len(),
                        count >= 1,
                        children@.len() == k,
                        forall|i: int| 0 <= i < k ==> wf_val(#[trigger] children@[i]),
                        bytes_at(data@, vend as int, enc_seq(children@)),
                        cur == vend + enc_seq(children@).len(),
                        bytes_at(data@, pos + 1, varint(count as nat)),
                        vend == pos + 1 + varint(count as nat).len(),
                        pos < vend,
                        data@.subrange(pos as int, pos + 1) =~= seq![TAG_LIST],
                        forall|v: Val|
                            wf_val(v) && bytes_at(data@, pos as int, #[trigger] enc(v))
                                ==> v is List && v->List_0.len() == count && v->List_0.take(
                                k as int,
                            ) == children@ && bytes_at(
                                data@,
                                cur as int,
                                enc_seq(v->List_0.skip(k as int)),
                            ),
                    decreases count - k,
                {
                    let child = decode_elem(data, cur);
                    match child {
                        None => {
                            proof {
                                assert forall|v: Val| wf_val(v) implies !bytes_at(
                                    data@,
                                    pos as int,
                                    #[trigger] enc(v),
                                ) by {
                                    if bytes_at(data@, pos as int, enc(v)) {
                                        let es = v->List_0;
                                        crate::model::lemma_enc_seq_skip(es, k as int);
                                        lemma_bytes_at_split(
                                            data@,
                                            cur as int,
                                            enc(es[k as int]),
                                            enc_seq(es.skip(k as int + 1)),
                                        );
                                        assert(wf_val(es[k as int]));
                                        assert(bytes_at(data@, cur as int, enc(es[k as int])));
                                    }
                                }
                            }
                            return None;
                        },
                        Some((cv, cend)) => {
                            proof {
                                lemma_enc_seq_push(children@, cv@);
                                assert(bytes_at(data@, vend as int, enc_seq(children@.push(cv@))))
                                    by {
                                    lemma_bytes_at_split(
                                        data@,
                                        vend as int,
                                        enc_seq(children@),
                                        enc(cv@),
                                    );
                                }
                                assert forall|v: Val|
                                    wf_val(v) && bytes_at(
                                        data@,
                                        pos as int,
                                        #[trigger] enc(v),
                                    ) implies v->List_0.take(k + 1) == children@.push(cv@)
                                    && bytes_at(
                                    data@,
                                    cend as int,
                                    enc_seq(v->List_0.skip(k + 1)),
                                ) by {
                                    let es = v->List_0;
                                    crate::model::lemma_enc_seq_skip(es, k as int);
                                    lemma_bytes_at_split(
                                        data@,
                                        cur as int,
                                        enc(es[k as int]),
                                        enc_seq(es.skip(k as int + 1)),
                                    );
                                    lemma_elem_at_unique(data@, cur as int, es[k as int], cv@);
                                    assert(es.take(k + 1) =~= es.take(k as int).push(
                                        es[k as int],
                                    ));
                                }
                            }
                            children = Ghost(children@.push(cv@));
                            cur = cend;
                            k = k + 1;
                        },
                    }
                }
                let ghost v = Val::List(children@);
                proof {
                    assert(children@.len() == count);
                    assert(wf_val(v));
                    assert(enc(v) =~= seq![TAG_LIST] + (varint(count as nat) + enc_seq(
                        children@,
                    )));
                    lemma_bytes_at_split(
                        data@,
                        pos + 1,
                        varint(count as nat),
                        enc_seq(children@),
                    );
                    lemma_bytes_at_split(
                        data@,
                        pos as int,
                        seq![TAG_LIST],
                        varint(count as nat) + enc_seq(children@),
                    );
                }
                Some((Ghost(v), cur))
            },
        }
    } else {
        proof {
            assert forall|v: Val| wf_val(v) implies !bytes_at(
                data@,
                pos as int,
                #[trigger] enc(v),
            ) by {}
        }
        None
    }
}

impl Sexp {
    /// Rebuilds a value from its persisted buffer: succeeds exactly when the
    /// buffer is the version header followed by the complete encoding of one
    /// well-formed, canonical value (encodings are prefix-free, so that value
    /// is unique), and rejects everything else.
    pub fn from_bytes(data: &Vec<u8>) -> (r: Option<Sexp>)
        ensures
            match r {
                Some(s) => s.wf() && s.bytes() == data@,
                None => forall|v: Val|
                    wf_val(v) ==> data@ != seq![FORMAT_VERSION] + #[trigger] enc(v),
            },
    {
        let dlen = data.len();
        if dlen < 2 || data[0] != FORMAT_VERSION {
            proof {
                assert forall|v: Val|
                    wf_val(v) implies data@ != seq![FORMAT_VERSION] + #[trigger] enc(v) by {
                    lemma_enc_shape(v);
                    if data@ == seq![FORMAT_VERSION] + enc(v) {
                        assert(data@[0] == FORMAT_VERSION);
                        assert(data@.len() >= 2);
                    }
                }
            }
            return None;
        }
        match decode_elem(data, 1) {
            None => {
                proof {
                    assert forall|v: Val|
                        wf_val(v) implies data@ != seq![FORMAT_VERSION] + #[trigger] enc(v) by {
                        if data@ == seq![FORMAT_VERSION] + enc(v) {
                            assert(data@.subrange(1, 1 + enc(v).len() as int) =~= enc(v));
                            assert(bytes_at(data@, 1, enc(v)));
                        }
                    }
                }
                None
            },
            Some((v, end)) => {
                if end != dlen {
                    proof {
                        assert forall|vv: Val|
                            wf_val(vv) implies data@ != seq![FORMAT_VERSION] + #[trigger] enc(
                            vv,
                        ) by {
                            if data@ == seq![FORMAT_VERSION] + enc(vv) {
                                assert(data@.subrange(1, 1 + enc(vv).len() as int) =~= enc(vv));
                                assert(bytes_at(data@, 1, enc(vv)));
                                lemma_elem_at_unique(data@, 1, vv, v@);
                                assert(data@.len() == 1 + enc(vv).len());
                            }
                        }
                    }
                    None
                } else {
                    let buf = copy_range(data, 0, dlen);
                    proof {
                        assert(buf@ =~= seq![FORMAT_VERSION] + enc(v@)) by {
                            assert(data@.subrange(1, 1 + enc(v@).len() as int) == enc(v@));
                            assert(forall|i: int|
                                1 <= i < data@.len() ==> data@[i] == data@.subrange(
                                    1,
                                    1 + enc(v@).len() as int,
                                )[i - 1]);
                        }
                    }
                    Some(Sexp::from_parts(buf, Ghost(v@)))
                }
            },
        }
    }
}

} // verus!
