//! The encoded symbolic-expression value and its navigation engine:
//! classification, length, car/cdr/nth, equality, and structural containment,
//! all operating directly on the encoded byte buffer.

use vstd::prelude::*;
use crate::model::{
    Val, wf_val, enc, enc_seq, varint, zigzag, elem_at, bytes_at, tag_of, val_is_atom,
    val_length, val_car, val_cdr, val_nth, val_contains,
    FORMAT_VERSION, TAG_NIL, TAG_INTEGER, TAG_FLOAT, TAG_STRING, TAG_SYMBOL, TAG_LIST, TAG_BOOL,
    lemma_enc_shape, lemma_bytes_at_split, lemma_enc_seq_skip, lemma_enc_seq_min_len,
};

verus! {

/// An encoded symbolic-expression value: a one-byte format-version header
/// followed by one tagged element. The buffer is immutable and owned; every
/// navigation operation reads it and allocates an independent result.
pub struct Sexp {
    data: Vec<u8>,
    repr: Ghost<Val>,
}

/// The kind of a value, as told by its type tag.
#[derive(Clone, Copy, Debug, PartialEq, Eq, Structural)]
pub enum SexpType {
    Nil,
    Integer,
    Float,
    String,
    Symbol,
    List,
    Bool,
}

/// The kind of an abstract value.
pub open spec fn val_type(v: Val) -> SexpType {
    match v {
        Val::Nil => SexpType::Nil,
        Val::Int(_) => SexpType::Integer,
        Val::Float(_) => SexpType::Float,
        Val::Bool(_) => SexpType::Bool,
        Val::Str(_) => SexpType::String,
        Val::Sym(_) => SexpType::Symbol,
        Val::List(_) => SexpType::List,
    }
}

impl View for Sexp {
    type V = Val;

    closed spec fn view(&self) -> Val {
        self.repr@
    }
}

impl Sexp {
    /// The raw encoded buffer, version header included.
    pub closed spec fn bytes(&self) -> Seq<u8> {
        self.data@
    }

    /// Well-formedness: the buffer is exactly the version header followed by
    /// the encoding of a well-formed, canonical abstract value.
    pub open spec fn wf(&self) -> bool {
        &&& wf_val(self@)
        &&& self.bytes() == seq![FORMAT_VERSION] + enc(self@)
    }

    /// Builds a value around an already-encoded buffer (crate-internal).
    pub(crate) fn from_parts(data: Vec<u8>, Ghost(v): Ghost<Val>) -> (r: Sexp)
        requires
            wf_val(v),
            data@ == seq![FORMAT_VERSION] + enc(v),
        ensures
            r.wf(),
            r@ == v,
            r.bytes() == data@,
    {
        Sexp { data, repr: Ghost(v) }
    }

    /// The nil value (also the canonical empty list).
    pub fn nil() -> (r: Sexp)
        ensures
            r.wf(),
            r@ == Val::Nil,
    {
        let data: Vec<u8> = vec![FORMAT_VERSION, TAG_NIL];
        proof {
            assert(data@ =~= seq![FORMAT_VERSION] + enc(Val::Nil));
        }
        Sexp { data, repr: Ghost(Val::Nil) }
    }

    /// A copy of the encoded buffer, version header included: the persisted
    /// on-disk/on-wire representation of this value.
    pub fn as_bytes(&self) -> (r: Vec<u8>)
        ensures
            r@ == self.bytes(),
    {
        copy_range(&self.data, 0, self.data.len())
    }

    /// The size of the encoded buffer in bytes, version header included.
    pub fn byte_len(&self) -> (r: usize)
        ensures
            r == self.bytes().len(),
    {
        self.data.len()
    }

    /// The content bytes past the version header, over which equality and
    /// hashing are defined.
    pub fn content_bytes(&self) -> (r: Vec<u8>)
        requires
            self.wf(),
        ensures
            r@ == enc(self@),
    {
        proof {
            lemma_enc_shape(self@);
            assert(self.bytes().len() == 1 + enc(self@).len());
            assert(self.bytes().subrange(1, self.bytes().len() as int) =~= enc(self@));
        }
        copy_range(&self.data, 1, self.data.len())
    }

    /// The type tag byte of the encoded element.
    fn tag(&self) -> (r: u8)
        requires
            self.wf(),
        ensures
            r == tag_of(self@),
    {
        proof {
            lemma_enc_shape(self@);
            assert(self.bytes()[1] == enc(self@)[0]);
        }
        self.data[1]
    }

    /// The kind of this value.
    pub fn get_type(&self) -> (r: SexpType)
        requires
            self.wf(),
        ensures
            r == val_type(self@),
    {
        let t = self.tag();
        if t == TAG_NIL {
            SexpType::Nil
        } else if t == TAG_INTEGER {
            SexpType::Integer
        } else if t == TAG_FLOAT {
            SexpType::Float
        } else if t == TAG_STRING {
            SexpType::String
        } else if t == TAG_SYMBOL {
            SexpType::Symbol
        } else if t == TAG_LIST {
            SexpType::List
        } else {
            SexpType::Bool
        }
    }

    /// Whether this value is nil.
    pub fn is_nil(&self) -> (r: bool)
        requires
            self.wf(),
        ensures
            r == (self@ == Val::Nil),
    {
        let r = self.tag() == TAG_NIL;
        proof {
            if tag_of(self@) == TAG_NIL {
                assert(self@ is Nil);
            }
        }
        r
    }

    /// Whether this value is a list (nil counts as the empty list).
    pub fn is_list(&self) -> (r: bool)
        requires
            self.wf(),
        ensures
            r == (self@ is Nil || self@ is List),
    {
        let t = self.tag();
        t == TAG_NIL || t == TAG_LIST
    }

    /// Whether this value is an atom (neither nil nor a list).
    pub fn is_atom(&self) -> (r: bool)
        requires
            self.wf(),
        ensures
            r == val_is_atom(self@),
    {
        let t = self.tag();
        t == TAG_INTEGER || t == TAG_FLOAT || t == TAG_STRING || t == TAG_SYMBOL || t == TAG_BOOL
    }

    /// Whether this value is a symbol.
    pub fn is_symbol(&self) -> (r: bool)
        requires
            self.wf(),
        ensures
            r == (self@ is Sym),
    {
        self.tag() == TAG_SYMBOL
    }

    /// Whether this value is a string.
    pub fn is_string(&self) -> (r: bool)
        requires
            self.wf(),
        ensures
            r == (self@ is Str),
    {
        self.tag() == TAG_STRING
    }

    /// Whether this value is a number (integer or float).
    pub fn is_number(&self) -> (r: bool)
        requires
            self.wf(),
        ensures
            r == (self@ is Int || self@ is Float),
    {
        let t = self.tag();
        t == TAG_INTEGER || t == TAG_FLOAT
    }
}

impl Sexp {
    /// An independent copy of this value.
    pub fn duplicate(&self) -> (r: Sexp)
        requires
            self.wf(),
        ensures
            r.wf(),
            r@ == self@,
    {
        let data = copy_range(&self.data, 0, self.data.len());
        proof {
            assert(data@ =~= self.bytes());
        }
        Sexp { data, repr: Ghost(self.repr@) }
    }

    /// For a list, the offset just past the stored element count, together
    /// with the count itself; crate-internal cursor arithmetic.
    fn list_payload_start(&self) -> (r: (u64, usize))
        requires
            self.wf(),
            self@ is List,
        ensures
            r.0 == self@->List_0.len(),
            bytes_at(self.bytes(), r.1 as int, enc_seq(self@->List_0)),
            r.1 + enc_seq(self@->List_0).len() == self.bytes().len(),
    {
        let ghost es = self@->List_0;
        proof {
            assert(enc(self@) =~= seq![TAG_LIST] + (varint(es.len()) + enc_seq(es)));
            assert(self.bytes() =~= (seq![FORMAT_VERSION, TAG_LIST] + varint(es.len())) + enc_seq(
                es,
            ));
            assert(self.bytes().subrange(0, self.bytes().len() as int) =~= self.bytes());
            assert(bytes_at(self.bytes(), 0, self.bytes()));
            lemma_bytes_at_split(
                self.bytes(),
                0,
                seq![FORMAT_VERSION, TAG_LIST] + varint(es.len()),
                enc_seq(es),
            );
            lemma_bytes_at_split(self.bytes(), 0, seq![FORMAT_VERSION, TAG_LIST], varint(es.len()));
            assert(self.bytes().subrange(0, self.bytes().len() as int) =~= self.bytes());
        }
        let (count, vend) = crate::varint::read_varint(&self.data, 2, Ghost(es.len()));
        (count, vend)
    }

    /// List length: 0 for nil, 1 for any atom, the stored element count for a
    /// list (saturating at `i32::MAX`).
    pub fn length(&self) -> (r: i32)
        requires
            self.wf(),
        ensures
            r == if val_length(self@) <= i32::MAX {
                val_length(self@)
            } else {
                i32::MAX as int
            },
    {
        let t = self.tag();
        if t == TAG_NIL {
            assert(self@ is Nil);
            0
        } else if t == TAG_LIST {
            assert(self@ is List);
            let (count, _) = self.list_payload_start();
            if count > 0x7FFF_FFFF {
                i32::MAX
            } else {
                count as i32
            }
        } else {
            1
        }
    }

    /// The starting offset of child `n` of a list, found by skipping `n`
    /// elements of the payload.
    fn child_offset(&self, n: usize) -> (r: usize)
        requires
            self.wf(),
            self@ is List,
            n <= self@->List_0.len(),
        ensures
            bytes_at(self.bytes(), r as int, enc_seq(self@->List_0.skip(n as int))),
            r + enc_seq(self@->List_0.skip(n as int)).len() == self.bytes().len(),
        decreases self@,
    {
        let ghost es = self@->List_0;
        let (_, start) = self.list_payload_start();
        let mut cur = start;
        let mut k: usize = 0;
        proof {
            assert(es.skip(0) =~= es);
        }
        while k < n
            invariant
                0 <= k <= n <= es.len(),
                self.wf(),
                self@ is List,
                es == self@->List_0,
                bytes_at(self.bytes(), cur as int, enc_seq(es.skip(k as int))),
                cur + enc_seq(es.skip(k as int)).len() == self.bytes().len(),
            decreases n - k,
        {
            proof {
                lemma_enc_seq_skip(es, k as int);
                lemma_bytes_at_split(
                    self.bytes(),
                    cur as int,
                    enc(es[k as int]),
                    enc_seq(es.skip(k as int + 1)),
                );
            }
            let next = skip_element(&self.data, cur, Ghost(es[k as int]));
            cur = next;
            k = k + 1;
        }
        cur
    }

    /// Extracts child `n` of a list as a fresh encoded value: pure slicing of
    /// the child's byte range, prefixed with a version header.
    pub(crate) fn child(&self, n: usize) -> (r: Sexp)
        requires
            self.wf(),
            self@ is List,
            n < self@->List_0.len(),
        ensures
            r.wf(),
            r@ == self@->List_0[n as int],
    {
        let ghost es = self@->List_0;
        let start = self.child_offset(n);
        proof {
            lemma_enc_seq_skip(es, n as int);
            lemma_bytes_at_split(
                self.bytes(),
                start as int,
                enc(es[n as int]),
                enc_seq(es.skip(n as int + 1)),
            );
        }
        let end = skip_element(&self.data, start, Ghost(es[n as int]));
        let mut out: Vec<u8> = Vec::new();
        out.push(FORMAT_VERSION);
        let mut rest = copy_range(&self.data, start, end);
        out.append(&mut rest);
        proof {
            assert(out@ =~= seq![FORMAT_VERSION] + enc(es[n as int]));
        }
        Sexp { data: out, repr: Ghost(es[n as int]) }
    }

    /// The first element of a list; atoms and nil have none.
    pub fn car(&self) -> (r: Option<Sexp>)
        requires
            self.wf(),
        ensures
            match r {
                Some(c) => c.wf() && val_car(self@) == Some(c@),
                None => val_car(self@) is None,
            },
    {
        let t = self.tag();
        if t != TAG_LIST {
            None
        } else {
            assert(self@ is List);
            Some(self.child(0))
        }
    }

    /// The rest of a list after its first element: a new list built from the
    /// remaining elements' bytes copied verbatim, collapsing to nil at length
    /// one; atoms and nil have none.
    pub fn cdr(&self) -> (r: Option<Sexp>)
        requires
            self.wf(),
        ensures
            match r {
                Some(c) => c.wf() && val_cdr(self@) == Some(c@),
                None => val_cdr(self@) is None,
            },
    {
        let t = self.tag();
        if t != TAG_LIST {
            return None;
        }
        assert(self@ is List);
        let ghost es = self@->List_0;
        let (count, _) = self.list_payload_start();
        if count <= 1 {
            return Some(Sexp::nil());
        }
        let start = self.child_offset(1);
        let dlen = self.data.len();
        let mut out: Vec<u8> = Vec::new();
        out.push(FORMAT_VERSION);
        out.push(TAG_LIST);
        crate::varint::write_varint(&mut out, count - 1);
        let mut rest = copy_range(&self.data, start, dlen);
        out.append(&mut rest);
        let ghost tail = es.drop_first();
        proof {
            assert(tail =~= es.skip(1));
            assert(enc(Val::List(tail)) =~= seq![TAG_LIST] + varint(tail.len()) + enc_seq(tail));
            assert(self.bytes().subrange(start as int, dlen as int) == enc_seq(es.skip(1)));
            assert(out@ =~= seq![FORMAT_VERSION] + enc(Val::List(tail)));
            assert(wf_val(Val::List(tail)));
        }
        Some(Sexp { data: out, repr: Ghost(Val::List(tail)) })
    }

    /// The `n`-th element (0-indexed): lists index their elements, an atom is
    /// a one-element sequence holding itself, anything out of range is none.
    pub fn nth(&self, n: i32) -> (r: Option<Sexp>)
        requires
            self.wf(),
        ensures
            match r {
                Some(c) => c.wf() && val_nth(self@, n as int) == Some(c@),
                None => val_nth(self@, n as int) is None,
            },
    {
        if n < 0 {
            return None;
        }
        let t = self.tag();
        if t == TAG_NIL {
            return None;
        }
        if t != TAG_LIST {
            assert(val_is_atom(self@));
            if n == 0 {
                return Some(self.duplicate());
            }
            return None;
        }
        assert(self@ is List);
        let (count, _) = self.list_payload_start();
        if (n as u64) >= count {
            return None;
        }
        Some(self.child(n as usize))
    }

    /// Byte-for-byte equality of the content past the version header, which
    /// coincides with equality of the abstract values.
    pub fn equals(&self, other: &Sexp) -> (r: bool)
        requires
            self.wf(),
            other.wf(),
        ensures
            r == (self@ == other@),
    {
        let n = self.data.len();
        if n != other.data.len() {
            proof {
                assert(self.bytes().len() == 1 + enc(self@).len());
                assert(other.bytes().len() == 1 + enc(other@).len());
            }
            return false;
        }
        let mut i: usize = 1;
        while i < n
            invariant
                1 <= i <= n,
                n == self.bytes().len() == other.bytes().len(),
                self.wf(),
                other.wf(),
                forall|j: int| 1 <= j < i ==> self.bytes()[j] == other.bytes()[j],
            decreases n - i,
        {
            if self.data[i] != other.data[i] {
                proof {
                    assert(self.bytes()[i as int] == enc(self@)[i - 1]);
                    assert(other.bytes()[i as int] == enc(other@)[i - 1]);
                }
                return false;
            }
            i = i + 1;
        }
        proof {
            assert(enc(self@) =~= enc(other@)) by {
                assert(forall|j: int|
                    0 <= j < enc(self@).len() ==> enc(self@)[j] == self.bytes()[j + 1] && enc(
                        other@,
                    )[j] == other.bytes()[j + 1]);
            }
            crate::model::lemma_enc_injective(self@, other@);
        }
        true
    }

    /// Structural containment: true when the needle equals this value, or
    /// appears in some (possibly deeply nested) child of it; depth-first,
    /// short-circuiting on the first match.
    pub fn contains(&self, needle: &Sexp) -> (r: bool)
        requires
            self.wf(),
            needle.wf(),
        ensures
            r == val_contains(self@, needle@),
        decreases self@,
    {
        if self.equals(needle) {
            return true;
        }
        let t = self.tag();
        if t != TAG_LIST {
            return false;
        }
        assert(self@ is List);
        let ghost es = self@->List_0;
        let dlen = self.data.len();
        proof {
            lemma_enc_seq_min_len(es);
            crate::model::lemma_varint_len(es.len());
            assert(enc(self@).len() == 1 + varint(es.len()).len() + enc_seq(es).len());
            assert(es.len() <= dlen);
        }
        let (count, _) = self.list_payload_start();
        let mut k: u64 = 0;
        while k < count
            invariant
                0 <= k <= count,
                count == es.len(),
                count <= dlen <= usize::MAX,
                self.wf(),
                needle.wf(),
                self@ is List,
                es == self@->List_0,
                self@ != needle@,
                forall|i: int| 0 <= i < k ==> !val_contains(#[trigger] es[i], needle@),
            decreases count - k,
        {
            let c = self.child(k as usize);
            if c.contains(needle) {
                return true;
            }
            k = k + 1;
        }
        false
    }
}

impl Sexp {
    /// The element count of a list, as a cursor-sized number (each element
    /// takes at least one byte, so the count fits).
    pub(crate) fn child_count(&self) -> (r: usize)
        requires
            self.wf(),
            self@ is List,
        ensures
            r == self@->List_0.len(),
    {
        let ghost es = self@->List_0;
        let dlen = self.data.len();
        proof {
            lemma_enc_seq_min_len(es);
            crate::model::lemma_varint_len(es.len());
            assert(enc(self@).len() == 1 + varint(es.len()).len() + enc_seq(es).len());
            assert(es.len() <= dlen);
        }
        let (count, _) = self.list_payload_start();
        count as usize
    }

    /// The text payload of a string or symbol.
    pub fn text_bytes(&self) -> (r: Vec<u8>)
        requires
            self.wf(),
            self@ is Str || self@ is Sym,
        ensures
            r@ == if self@ is Str {
                self@->Str_0
            } else {
                self@->Sym_0
            },
    {
        let ghost s: Seq<u8> = if self@ is Str {
            self@->Str_0
        } else {
            self@->Sym_0
        };
        proof {
            assert(enc(self@) =~= seq![tag_of(self@)] + (varint(s.len()) + s));
            assert(self.bytes() =~= (seq![FORMAT_VERSION, tag_of(self@)] + varint(s.len())) + s);
            assert(self.bytes().subrange(0, self.bytes().len() as int) =~= self.bytes());
            assert(bytes_at(self.bytes(), 0, self.bytes()));
            lemma_bytes_at_split(
                self.bytes(),
                0,
                seq![FORMAT_VERSION, tag_of(self@)] + varint(s.len()),
                s,
            );
            lemma_bytes_at_split(self.bytes(), 0, seq![FORMAT_VERSION, tag_of(self@)], varint(s.len()));
        }
        let (len, vend) = crate::varint::read_varint(&self.data, 2, Ghost(s.len()));
        let dlen = self.data.len();
        assert(vend + s.len() <= dlen);
        let r = copy_range(&self.data, vend, vend + (len as usize));
        proof {
            assert(self.bytes().subrange(vend as int, vend + s.len()) == s);
        }
        r
    }

    /// The value of an integer.
    pub fn int_value(&self) -> (r: i64)
        requires
            self.wf(),
            self@ is Int,
        ensures
            r == self@->Int_0,
    {
        let ghost n = self@->Int_0;
        proof {
            assert(enc(self@) =~= seq![TAG_INTEGER] + varint(zigzag(n) as nat));
            assert(self.bytes() =~= seq![FORMAT_VERSION, TAG_INTEGER] + varint(zigzag(n) as nat));
            assert(self.bytes().subrange(0, self.bytes().len() as int) =~= self.bytes());
            assert(bytes_at(self.bytes(), 0, self.bytes()));
            lemma_bytes_at_split(
                self.bytes(),
                0,
                seq![FORMAT_VERSION, TAG_INTEGER],
                varint(zigzag(n) as nat),
            );
        }
        let (v, _) = crate::varint::read_signed_varint(&self.data, 2, Ghost(n));
        v
    }

    /// The 8 raw little-endian IEEE-754 bytes of a float.
    pub fn float_payload(&self) -> (r: Vec<u8>)
        requires
            self.wf(),
            self@ is Float,
        ensures
            r@ == self@->Float_0,
    {
        let ghost b = self@->Float_0;
        proof {
            assert(enc(self@) =~= seq![TAG_FLOAT] + b);
            assert(self.bytes() =~= seq![FORMAT_VERSION, TAG_FLOAT] + b);
            assert(self.bytes().subrange(2, 2 + b.len() as int) =~= b);
        }
        copy_range(&self.data, 2, 2 + 8)
    }

    /// The value of a boolean.
    pub fn bool_value(&self) -> (r: bool)
        requires
            self.wf(),
            self@ is Bool,
        ensures
            r == self@->Bool_0,
    {
        let ghost b = self@->Bool_0;
        proof {
            assert(self.bytes() =~= seq![FORMAT_VERSION] + enc(self@));
            assert(self.bytes()[2] == enc(self@)[1]);
            assert(enc(self@)[1] == (if b { 1u8 } else { 0u8 }));
        }
        self.data[2] != 0
    }
}

/// The name of a value's kind, as surface text.
pub fn sexp_typeof(sexp: &Sexp) -> (r: &'static str)
    requires
        sexp.wf(),
    ensures
        sexp@ is Nil ==> r@ == "nil"@,
        sexp@ is Int ==> r@ == "integer"@,
        sexp@ is Float ==> r@ == "float"@,
        sexp@ is Str ==> r@ == "string"@,
        sexp@ is Sym ==> r@ == "symbol"@,
        sexp@ is List ==> r@ == "list"@,
        sexp@ is Bool ==> r@ == "boolean"@,
{
    let t = sexp.get_type();
    if t == SexpType::Nil {
        "nil"
    } else if t == SexpType::Integer {
        "integer"
    } else if t == SexpType::Float {
        "float"
    } else if t == SexpType::String {
        "string"
    } else if t == SexpType::Symbol {
        "symbol"
    } else if t == SexpType::List {
        "list"
    } else {
        "boolean"
    }
}

/// Byte equality of two buffers.
pub(crate) fn bytes_eq(a: &Vec<u8>, b: &Vec<u8>) -> (r: bool)
    ensures
        r == (a@ == b@),
{
    let n = a.len();
    if n != b.len() {
        return false;
    }
    let mut i: usize = 0;
    while i < n
        invariant
            0 <= i <= n,
            n == a@.len() == b@.len(),
            forall|j: int| 0 <= j < i ==> a@[j] == b@[j],
        decreases n - i,
    {
        if a[i] != b[i] {
            return false;
        }
        i = i + 1;
    }
    proof {
        assert(a@ =~= b@);
    }
    true
}

/// Copies `data[start..end]` into a fresh buffer.
pub(crate) fn copy_range(data: &Vec<u8>, start: usize, end: usize) -> (r: Vec<u8>)
    requires
        start <= end <= data@.len(),
    ensures
        r@ == data@.subrange(start as int, end as int),
{
    let mut out: Vec<u8> = Vec::new();
    let mut i = start;
    while i < end
        invariant
            start <= i <= end <= data@.len(),
            out@ == data@.subrange(start as int, i as int),
        decreases end - i,
    {
        out.push(data[i]);
        proof {
            assert(out@ =~= data@.subrange(start as int, i + 1));
        }
        i = i + 1;
    }
    out
}

/// Advances a cursor past exactly one encoded element, recursing into list
/// payloads; the fundamental "how long is this value" primitive.
pub(crate) fn skip_element(data: &Vec<u8>, pos: usize, Ghost(v): Ghost<Val>) -> (r: usize)
    requires
        wf_val(v),
        elem_at(data@, pos as int, v),
    ensures
        r == pos + enc(v).len(),
    decreases v,
{
    proof {
        lemma_enc_shape(v);
    }
    let dlen = data.len();
    let tag = data[pos];
    assert(tag == enc(v)[0] && enc(v)[0] == tag_of(v)) by {
        assert(data@.subrange(pos as int, pos + enc(v).len())[0] == data@[pos as int]);
    }
    if tag == TAG_NIL {
        assert(v is Nil);
        pos + 1
    } else if tag == TAG_INTEGER {
        let ghost u = zigzag(v->Int_0) as nat;
        proof {
            assert(enc(v) =~= seq![TAG_INTEGER] + varint(u));
            lemma_bytes_at_split(data@, pos as int, seq![TAG_INTEGER], varint(u));
        }
        let (_, end) = crate::varint::read_varint(data, pos + 1, Ghost(u));
        end
    } else if tag == TAG_FLOAT {
        assert(v is Float && enc(v).len() == 9);
        pos + 9
    } else if tag == TAG_BOOL {
        assert(v is Bool && enc(v).len() == 2);
        pos + 2
    } else if tag == TAG_STRING || tag == TAG_SYMBOL {
        let ghost s: Seq<u8> = if v is Str {
            v->Str_0
        } else {
            v->Sym_0
        };
        proof {
            assert(enc(v) =~= seq![tag_of(v)] + (varint(s.len()) + s));
            lemma_bytes_at_split(data@, pos as int, seq![tag_of(v)], varint(s.len()) + s);
            lemma_bytes_at_split(data@, pos + 1, varint(s.len()), s);
        }
        let (len, vend) = crate::varint::read_varint(data, pos + 1, Ghost(s.len()));
        assert(vend + s.len() <= dlen);
        vend + (len as usize)
    } else {
        assert(tag == TAG_LIST && v is List);
        let ghost es = v->List_0;
        proof {
            assert(enc(v) =~= seq![TAG_LIST] + (varint(es.len()) + enc_seq(es)));
            lemma_bytes_at_split(data@, pos as int, seq![TAG_LIST], varint(es.len()) + enc_seq(es));
            lemma_bytes_at_split(data@, pos + 1, varint(es.len()), enc_seq(es));
        }
        let (count, vend) = crate::varint::read_varint(data, pos + 1, Ghost(es.len()));
        let ghost end_val: int = vend + enc_seq(es).len();
        let mut cur = vend;
        let mut k: u64 = 0;
        proof {
            assert(es.skip(0) =~= es);
        }
        while k < count
            invariant
                0 <= k <= count,
                count == es.len(),
                wf_val(v),
                v == Val::List(es),
                cur + enc_seq(es.skip(k as int)).len() == end_val,
                bytes_at(data@, cur as int, enc_seq(es.skip(k as int))),
                end_val <= data@.len(),
            decreases count - k,
        {
            proof {
                lemma_enc_seq_skip(es, k as int);
                lemma_bytes_at_split(
                    data@,
                    cur as int,
                    enc(es[k as int]),
                    enc_seq(es.skip(k as int + 1)),
                );
            }
            let next = skip_element(data, cur, Ghost(es[k as int]));
            cur = next;
            k = k + 1;
        }
        proof {
            assert(es.skip(count as int) =~= Seq::<Val>::empty());
            assert(enc_seq(es.skip(count as int)).len() == 0);
        }
        cur
    }
}

} // verus!
