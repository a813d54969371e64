//! Index-key extraction: a bounded, deduplicated set of 32-bit tagged hash
//! keys summarizing an encoded value's structure and content, for use by a
//! generalized inverted index, together with key-based containment testing.
//!
//! Keys are a sound but incomplete filter: a candidate that matches on keys
//! must still be rechecked with the true containment/match operations.

use vstd::prelude::*;
use vstd::set_lib::lemma_len_subset;
use crate::model::{Val, val_is_atom, val_contains};
use crate::hashing::{spec_hash64, le_bytes_of_i64, wrap_u64_to_i32};
use crate::sexp::{Sexp, SexpType};

verus! {

/// Key type marker for an atom (and the degenerate sentinel key).
pub const KEY_ATOM: u32 = 0x01000000;

/// Key type marker for a list head.
pub const KEY_LIST_HEAD: u32 = 0x02000000;

/// Key type marker for a symbol.
pub const KEY_SYMBOL: u32 = 0x03000000;

/// Key type marker for a string.
pub const KEY_STRING: u32 = 0x04000000;

/// Key type marker for an integer.
pub const KEY_INTEGER: u32 = 0x05000000;

/// Key type marker for a float.
pub const KEY_FLOAT: u32 = 0x06000000;

/// Key type marker for a symbol-headed key-value pair.
pub const KEY_PAIR: u32 = 0x07000000;

/// Keys are capped at this many per value.
pub const MAX_KEYS: usize = 1024;

/// The low 32 bits of a 64-bit hash.
pub open spec fn low32(h: u64) -> u32 {
    (h % 0x1_0000_0000) as u32
}

/// 32-bit content hash of a byte sequence.
pub open spec fn h_bytes(s: Seq<u8>) -> u32 {
    low32(spec_hash64(s))
}

/// 32-bit hash of a 64-bit signed value, through its little-endian bytes.
pub open spec fn h_i64(n: i64) -> u32 {
    low32(spec_hash64(le_bytes_of_i64(n)))
}

/// Wrapping 32-bit addition.
pub open spec fn wadd(a: u32, b: u32) -> u32 {
    ((a + b) % 0x1_0000_0000) as u32
}

/// Order-sensitive bit-mixing combiner for two 32-bit hashes.
pub open spec fn spec_hash_combine32(seed: u32, hash: u32) -> u32 {
    seed ^ wadd(wadd(wadd(hash, 0x9e3779b9), seed << 6), seed >> 2)
}

/// A tagged index key: the type marker folded into the content hash, with
/// the top bit forced to 1.
pub open spec fn spec_make_gin_key(marker: u32, value_hash: u32) -> i32 {
    wrap_u64_to_i32((((marker ^ value_hash) | 0x8000_0000) as u64))
}

/// The representative hash of a value: an atom's content hash, a list's
/// first child's representative hash (recursively), and a fixed sentinel for
/// the degenerate cases.
pub open spec fn rep_hash(v: Val) -> u32
    decreases v,
{
    match v {
        Val::Nil => h_i64(0),
        Val::Int(n) => h_i64(n),
        Val::Float(b) => h_bytes(b),
        Val::Str(s) => h_bytes(s),
        Val::Sym(s) => h_bytes(s),
        Val::Bool(_) => 0,
        Val::List(es) => if es.len() > 0 {
            rep_hash(es[0])
        } else {
            h_i64(0)
        },
    }
}

/// A two-element list whose first element is a symbol: treated as a
/// key-value pair by the extractor.
pub open spec fn is_pair(es: Seq<Val>) -> bool {
    es.len() == 2 && es[0] is Sym
}

/// The set of index keys a value yields. Atoms yield one key tagged by
/// their type; a key-value pair yields one pair key (suppressed in the
/// query mode selected by `skip_pairs`); any other non-empty list yields a
/// list-head key; recursion continues into every child either way.
pub open spec fn spec_keys(v: Val, skip_pairs: bool) -> Set<i32>
    decreases v, 1int,
{
    match v {
        Val::Nil => set![spec_make_gin_key(KEY_ATOM, h_i64(0))],
        Val::Int(n) => set![spec_make_gin_key(KEY_INTEGER, h_i64(n))],
        Val::Float(b) => set![spec_make_gin_key(KEY_FLOAT, h_bytes(b))],
        Val::Str(s) => set![spec_make_gin_key(KEY_STRING, h_bytes(s))],
        Val::Sym(s) => set![spec_make_gin_key(KEY_SYMBOL, h_bytes(s))],
        Val::Bool(_) => Set::empty(),
        Val::List(es) => if es.len() == 0 {
            Set::empty()
        } else {
            let own: Set<i32> = if is_pair(es) {
                if skip_pairs {
                    Set::empty()
                } else {
                    set![
                        spec_make_gin_key(
                            KEY_PAIR,
                            spec_hash_combine32(
                                spec_hash_combine32(KEY_PAIR, rep_hash(es[0])),
                                rep_hash(es[1]),
                            ),
                        ),
                    ]
                }
            } else {
                set![spec_make_gin_key(KEY_LIST_HEAD, rep_hash(es[0]))]
            };
            own + spec_keys_seq(es, skip_pairs)
        },
    }
}

/// The union of the key sets of a sequence of elements.
pub open spec fn spec_keys_seq(es: Seq<Val>, skip_pairs: bool) -> Set<i32>
    decreases es, 0int,
{
    if es.len() == 0 {
        Set::empty()
    } else {
        spec_keys(es.first(), skip_pairs) + spec_keys_seq(es.drop_first(), skip_pairs)
    }
}

/// What key extraction hands out: the value's key set, or the single
/// sentinel key when the value yields none.
pub open spec fn spec_extracted_keys(v: Val, skip_pairs: bool) -> Set<i32> {
    if spec_keys(v, skip_pairs) === Set::empty() {
        set![spec_make_gin_key(KEY_ATOM, 0)]
    } else {
        spec_keys(v, skip_pairs)
    }
}

/// Every key set is finite and holds at most one key per encoded byte, far
/// under any overflow; the bound actually used is just finiteness plus the
/// per-element decomposition.
pub proof fn lemma_spec_keys_finite(v: Val, skip_pairs: bool)
    ensures
        spec_keys(v, skip_pairs).finite(),
    decreases v, 1int,
{
    match v {
        Val::List(es) => {
            if es.len() > 0 {
                lemma_spec_keys_seq_finite(es, skip_pairs);
            }
        },
        _ => {},
    }
}

/// Sequence form of [`lemma_spec_keys_finite`].
pub proof fn lemma_spec_keys_seq_finite(es: Seq<Val>, skip_pairs: bool)
    ensures
        spec_keys_seq(es, skip_pairs).finite(),
    decreases es, 0int,
{
    if es.len() > 0 {
        lemma_spec_keys_finite(es.first(), skip_pairs);
        lemma_spec_keys_seq_finite(es.drop_first(), skip_pairs);
    }
}

/// Unfolding of [`spec_keys_seq`] at element `k`.
pub proof fn lemma_spec_keys_seq_skip(es: Seq<Val>, skip_pairs: bool, k: int)
    requires
        0 <= k < es.len(),
    ensures
        spec_keys_seq(es.skip(k), skip_pairs) == spec_keys(es[k], skip_pairs) + spec_keys_seq(
            es.skip(k + 1),
            skip_pairs,
        ),
{
    let t = es.skip(k);
    assert(t.first() == es[k]);
    assert(t.drop_first() =~= es.skip(k + 1));
}

/// Each element's keys are among the sequence's keys.
pub proof fn lemma_spec_keys_seq_element(es: Seq<Val>, skip_pairs: bool, i: int)
    requires
        0 <= i < es.len(),
    ensures
        spec_keys(es[i], skip_pairs).subset_of(spec_keys_seq(es, skip_pairs)),
    decreases es,
{
    if i == 0 {
        assert(es.first() == es[0]);
    } else {
        lemma_spec_keys_seq_element(es.drop_first(), skip_pairs, i - 1);
        assert(es.drop_first()[i - 1] == es[i]);
    }
}

/// Key extraction soundness: every key of a value contained anywhere inside
/// `x` (in particular, of every direct or indirect child of `x`) is also a
/// key of `x`, in the mode that does not suppress pair keys.
pub proof fn lemma_key_extraction_sound(x: Val, y: Val)
    requires
        val_contains(x, y),
    ensures
        spec_keys(y, false).subset_of(spec_keys(x, false)),
    decreases x,
{
    if x == y {
    } else {
        match x {
            Val::List(es) => {
                let i = choose|i: int| 0 <= i < es.len() && val_contains(#[trigger] es[i], y);
                lemma_key_extraction_sound(es[i], y);
                lemma_spec_keys_seq_element(es, false, i);
                assert(spec_keys_seq(es, false).subset_of(spec_keys(x, false)));
            },
            _ => {},
        }
    }
}

/// Pushing a fresh key extends the key set by that key and keeps the list
/// duplicate-free.
proof fn lemma_push_key(s: Seq<i32>, k: i32)
    ensures
        s.push(k).to_set() == s.to_set().insert(k),
        s.no_duplicates() && !s.contains(k) ==> s.push(k).no_duplicates(),
{
    assert(s.push(k).to_set() =~= s.to_set().insert(k)) by {
        assert forall|x: i32| s.push(k).to_set().contains(x) implies s.to_set().insert(k).contains(
            x,
        ) by {
            let i = choose|i: int| 0 <= i < s.push(k).len() && s.push(k)[i] == x;
            if i < s.len() {
                assert(s[i] == x);
            }
        }
        assert forall|x: i32| s.to_set().insert(k).contains(x) implies s.push(k).to_set().contains(
            x,
        ) by {
            if x == k {
                assert(s.push(k)[s.len() as int] == k);
            } else {
                let i = choose|i: int| 0 <= i < s.len() && s[i] == x;
                assert(s.push(k)[i] == x);
            }
        }
    }
    if s.no_duplicates() && !s.contains(k) {
        assert forall|i: int, j: int|
            0 <= i < s.push(k).len() && 0 <= j < s.push(k).len() && i != j implies s.push(k)[i]
            != s.push(k)[j] by {
            if i < s.len() && j < s.len() {
            } else if i < s.len() {
                assert(s[i] == s.push(k)[i]);
            } else if j < s.len() {
                assert(s[j] == s.push(k)[j]);
            }
        }
    }
}

/// A full, duplicate-free key list that stays inside a small enough target
/// set has already collected the whole target.
proof fn lemma_full_is_complete(s: Seq<i32>, target: Set<i32>)
    requires
        s.no_duplicates(),
        s.len() == MAX_KEYS,
        s.to_set().subset_of(target),
        target.finite(),
        target.len() <= MAX_KEYS,
    ensures
        s.to_set() == target,
{
    s.unique_seq_to_set();
    lemma_len_subset(s.to_set(), target);
    vstd::set_lib::lemma_subset_equality(s.to_set(), target);
}

/// Whether `k` already appears among the accumulated keys.
fn vec_contains_key(keys: &Vec<i32>, k: i32) -> (r: bool)
    ensures
        r == keys@.contains(k),
{
    let n = keys.len();
    let mut i: usize = 0;
    while i < n
        invariant
            0 <= i <= n,
            n == keys@.len(),
            forall|j: int| 0 <= j < i ==> keys@[j] != k,
        decreases n - i,
    {
        if keys[i] == k {
            return true;
        }
        i = i + 1;
    }
    false
}

/// Appends `k` unless it is already present (deduplicated accumulation).
fn add_key(keys: &mut Vec<i32>, k: i32)
    requires
        old(keys)@.no_duplicates(),
        old(keys)@.len() < MAX_KEYS,
    ensures
        final(keys)@.no_duplicates(),
        final(keys)@.to_set() == old(keys)@.to_set().insert(k),
        final(keys)@.len() <= old(keys)@.len() + 1,
        1 <= final(keys)@.len() <= MAX_KEYS,
        old(keys)@.len() <= final(keys)@.len(),
        forall|i: int| 0 <= i < old(keys)@.len() ==> final(keys)@[i] == old(keys)@[i],
    decreases 0int,
{
    if !vec_contains_key(keys, k) {
        proof {
            lemma_push_key(keys@, k);
        }
        keys.push(k);
    } else {
        proof {
            assert(keys@.to_set().contains(k));
            assert(keys@.to_set() =~= keys@.to_set().insert(k));
            assert(keys@.len() >= 1) by {
                let i = choose|i: int| 0 <= i < keys@.len() && keys@[i] == k;
            }
        }
    }
}

/// The low 32 bits of a 64-bit hash, as an unsigned value.
fn low32_of(h: u64) -> (r: u32)
    ensures
        r == low32(h),
{
    (h % 0x1_0000_0000) as u32
}

/// 32-bit hash of a byte buffer.
fn hash_bytes(data: &Vec<u8>) -> (r: u32)
    ensures
        r == h_bytes(data@),
{
    low32_of(crate::hashing::hash64_of(data))
}

/// 32-bit hash of a 64-bit signed value.
fn hash_i64(val: i64) -> (r: u32)
    ensures
        r == h_i64(val),
{
    let bits = crate::hashing::i64_bits(val);
    let bytes = crate::hashing::u64_le_bytes(bits);
    low32_of(crate::hashing::hash64_of(&bytes))
}

/// Wrapping 32-bit addition.
fn wadd32(a: u32, b: u32) -> (r: u32)
    ensures
        r == wadd(a, b),
{
    (((a as u64) + (b as u64)) % 0x1_0000_0000) as u32
}

/// Order-sensitive bit-mixing combiner for two 32-bit hashes.
pub fn hash_combine32(seed: u32, hash: u32) -> (r: u32)
    ensures
        r == spec_hash_combine32(seed, hash),
{
    seed ^ wadd32(wadd32(wadd32(hash, 0x9e3779b9), seed << 6), seed >> 2)
}

/// Builds a tagged index key from a type marker and a content hash, forcing
/// the top bit to 1.
pub fn make_gin_key(type_marker: u32, value_hash: u32) -> (r: i32)
    ensures
        r == spec_make_gin_key(type_marker, value_hash),
{
    let combined: u32 = (type_marker ^ value_hash) | 0x8000_0000;
    crate::hashing::low32_as_i32(combined as u64)
}

/// The representative hash of an encoded value (its own content hash for an
/// atom, the first child's representative hash for a list).
pub(crate) fn get_element_hash(v: &Sexp) -> (r: u32)
    requires
        v.wf(),
    ensures
        r == rep_hash(v@),
    decreases v@,
{
    let t = v.get_type();
    if t == SexpType::Nil {
        hash_i64(0)
    } else if t == SexpType::Integer {
        hash_i64(v.int_value())
    } else if t == SexpType::Float {
        let b = v.float_payload();
        hash_bytes(&b)
    } else if t == SexpType::String || t == SexpType::Symbol {
        let b = v.text_bytes();
        hash_bytes(&b)
    } else if t == SexpType::List {
        let c = v.child(0);
        get_element_hash(&c)
    } else {
        0
    }
}

/// Recursive key accumulation with deduplication and the size cap: the
/// accumulated list stays duplicate-free and within bounds, gains only keys
/// of `v`, and gains all of them whenever the combined target fits the cap.
fn extract_gin_keys(v: &Sexp, keys: &mut Vec<i32>, skip_pairs: bool)
    requires
        v.wf(),
        old(keys)@.no_duplicates(),
        old(keys)@.len() <= MAX_KEYS,
    ensures
        final(keys)@.no_duplicates(),
        final(keys)@.len() <= MAX_KEYS,
        old(keys)@.len() <= final(keys)@.len(),
        forall|i: int| 0 <= i < old(keys)@.len() ==> final(keys)@[i] == old(keys)@[i],
        final(keys)@.to_set().subset_of(old(keys)@.to_set() + spec_keys(v@, skip_pairs)),
        (old(keys)@.to_set() + spec_keys(v@, skip_pairs)).len() <= MAX_KEYS
            ==> final(keys)@.to_set() == old(keys)@.to_set() + spec_keys(v@, skip_pairs),
        old(keys)@.len() < MAX_KEYS && spec_keys(v@, skip_pairs) !== Set::empty()
            ==> final(keys)@.len() > 0,
    decreases v@,
{
    let ghost base = keys@;
    let ghost target = base.to_set() + spec_keys(v@, skip_pairs);
    proof {
        lemma_spec_keys_finite(v@, skip_pairs);
        vstd::seq_lib::seq_to_set_is_finite(base);
        assert(base.to_set().subset_of(target));
        assert(spec_keys(v@, skip_pairs).subset_of(target));
    }
    if keys.len() >= MAX_KEYS {
        proof {
            if target.len() <= MAX_KEYS {
                lemma_full_is_complete(base, target);
            }
        }
        return;
    }
    let t = v.get_type();
    if t == SexpType::Nil {
        add_key(keys, make_gin_key(KEY_ATOM, hash_i64(0)));
        proof {
            assert(keys@.to_set() =~= base.to_set() + spec_keys(v@, skip_pairs));
        }
    } else if t == SexpType::Integer {
        add_key(keys, make_gin_key(KEY_INTEGER, hash_i64(v.int_value())));
        proof {
            assert(keys@.to_set() =~= base.to_set() + spec_keys(v@, skip_pairs));
        }
    } else if t == SexpType::Float {
        let b = v.float_payload();
        add_key(keys, make_gin_key(KEY_FLOAT, hash_bytes(&b)));
        proof {
            assert(keys@.to_set() =~= base.to_set() + spec_keys(v@, skip_pairs));
        }
    } else if t == SexpType::String {
        let b = v.text_bytes();
        add_key(keys, make_gin_key(KEY_STRING, hash_bytes(&b)));
        proof {
            assert(keys@.to_set() =~= base.to_set() + spec_keys(v@, skip_pairs));
        }
    } else if t == SexpType::Symbol {
        let b = v.text_bytes();
        add_key(keys, make_gin_key(KEY_SYMBOL, hash_bytes(&b)));
        proof {
            assert(keys@.to_set() =~= base.to_set() + spec_keys(v@, skip_pairs));
        }
    } else if t == SexpType::List {
        let ghost es = v@->List_0;
        let count = v.child_count();
        let head = v.child(0);
        let head_hash = get_element_hash(&head);
        let pair = count == 2 && head.is_symbol();
        assert(pair == is_pair(es));
        if pair && !skip_pairs {
            let second = v.child(1);
            let second_hash = get_element_hash(&second);
            let pair_hash = hash_combine32(hash_combine32(KEY_PAIR, head_hash), second_hash);
            add_key(keys, make_gin_key(KEY_PAIR, pair_hash));
        } else if !pair {
            add_key(keys, make_gin_key(KEY_LIST_HEAD, head_hash));
        }
        let ghost own: Set<i32> = if is_pair(es) {
            if skip_pairs {
                Set::empty()
            } else {
                set![
                    spec_make_gin_key(
                        KEY_PAIR,
                        spec_hash_combine32(
                            spec_hash_combine32(KEY_PAIR, rep_hash(es[0])),
                            rep_hash(es[1]),
                        ),
                    ),
                ]
            }
        } else {
            set![spec_make_gin_key(KEY_LIST_HEAD, rep_hash(es[0]))]
        };
        proof {
            assert(spec_keys(v@, skip_pairs) == own + spec_keys_seq(es, skip_pairs));
            if is_pair(es) && skip_pairs {
                assert(keys@.to_set() =~= base.to_set() + own);
            }
            assert(keys@.to_set().subset_of(target));
            assert(es.skip(0) =~= es);
        }
        let ghost after_own = keys@;
        let mut k: usize = 0;
        while k < count
            invariant
                0 <= k <= count,
                count == es.len(),
                v.wf(),
                v@ is List,
                es == v@->List_0,
                target == base.to_set() + spec_keys(v@, skip_pairs),
                spec_keys(v@, skip_pairs) == own + spec_keys_seq(es, skip_pairs),
                target.finite(),
                keys@.no_duplicates(),
                keys@.len() <= MAX_KEYS,
                base.len() <= after_own.len() <= keys@.len(),
                forall|i: int| 0 <= i < after_own.len() ==> keys@[i] == after_own[i],
                forall|i: int| 0 <= i < base.len() ==> after_own[i] == base[i],
                !(is_pair(es) && skip_pairs) ==> after_own.len() >= 1,
                k > 0 && base.len() < MAX_KEYS ==> keys@.len() > 0,
                keys@.to_set().subset_of(target),
                target.len() <= MAX_KEYS ==> keys@.to_set() + spec_keys_seq(
                    es.skip(k as int),
                    skip_pairs,
                ) == target,
            decreases count - k,
        {
            let c = v.child(k);
            proof {
                lemma_spec_keys_seq_skip(es, skip_pairs, k as int);
                lemma_spec_keys_seq_element(es, skip_pairs, k as int);
                if target.len() <= MAX_KEYS {
                    assert((keys@.to_set() + spec_keys(es[k as int], skip_pairs)).subset_of(
                        target,
                    ));
                    lemma_len_subset(keys@.to_set() + spec_keys(es[k as int], skip_pairs), target);
                }
            }
            let ghost before = keys@;
            proof {
                if k == 0 && before.len() == 0 {
                    assert(is_pair(es) && skip_pairs);
                    assert(es[0] is Sym);
                    assert(spec_keys(es[0], skip_pairs) !== Set::empty()) by {
                        assert(spec_keys(es[0], skip_pairs).contains(
                            spec_make_gin_key(KEY_SYMBOL, h_bytes(es[0]->Sym_0)),
                        ));
                    }
                }
            }
            extract_gin_keys(&c, keys, skip_pairs);
            proof {
                if target.len() <= MAX_KEYS {
                    assert(keys@.to_set() =~= before.to_set() + spec_keys(
                        es[k as int],
                        skip_pairs,
                    ));
                    assert(keys@.to_set() + spec_keys_seq(es.skip(k as int + 1), skip_pairs)
                        =~= target);
                }
            }
            k = k + 1;
        }
        proof {
            assert(es.skip(count as int) =~= Seq::<Val>::empty());
            if target.len() <= MAX_KEYS {
                assert(keys@.to_set() =~= target);
            }
            if base.len() < MAX_KEYS {
                assert(count >= 1);
                assert(keys@.len() > 0);
            }
        }
    } else {
        // booleans yield no key of their own
        assert(v@ is Bool);
        assert(spec_keys(v@, skip_pairs) =~= Set::<i32>::empty());
        proof {
            assert(keys@.to_set() =~= base.to_set() + spec_keys(v@, skip_pairs));
        }
    }
}

/// Extracts the index keys of a stored value: a deduplicated, non-empty list
/// of at most [`MAX_KEYS`] keys, exactly the value's key set whenever that
/// set fits the cap (with a single sentinel key for a value that yields
/// none).
pub fn sexp_extract_keys(value: &Sexp) -> (r: Vec<i32>)
    requires
        value.wf(),
    ensures
        r@.no_duplicates(),
        1 <= r@.len() <= MAX_KEYS,
        r@.to_set().subset_of(spec_extracted_keys(value@, false)),
        spec_keys(value@, false).len() <= MAX_KEYS ==> r@.to_set() == spec_extracted_keys(
            value@,
            false,
        ),
{
    extract_keys_mode(value, false)
}

/// Extracts the index keys of a query value: as [`sexp_extract_keys`], but
/// the key-based-containment strategy (9) suppresses pair keys.
pub fn sexp_extract_query_keys(query: &Sexp, strategy: i32) -> (r: Vec<i32>)
    requires
        query.wf(),
    ensures
        r@.no_duplicates(),
        1 <= r@.len() <= MAX_KEYS,
        r@.to_set().subset_of(spec_extracted_keys(query@, strategy == 9)),
        spec_keys(query@, strategy == 9).len() <= MAX_KEYS ==> r@.to_set() == spec_extracted_keys(
            query@,
            strategy == 9,
        ),
{
    extract_keys_mode(query, strategy == 9)
}

/// Shared body of the two extraction entry points.
fn extract_keys_mode(value: &Sexp, skip_pairs: bool) -> (r: Vec<i32>)
    requires
        value.wf(),
    ensures
        r@.no_duplicates(),
        1 <= r@.len() <= MAX_KEYS,
        r@.to_set().subset_of(spec_extracted_keys(value@, skip_pairs)),
        spec_keys(value@, skip_pairs).len() <= MAX_KEYS ==> r@.to_set() == spec_extracted_keys(
            value@,
            skip_pairs,
        ),
{
    let mut keys: Vec<i32> = Vec::new();
    proof {
        assert(keys@.to_set() =~= Set::<i32>::empty());
        assert(keys@.to_set() + spec_keys(value@, skip_pairs) =~= spec_keys(value@, skip_pairs));
    }
    extract_gin_keys(value, &mut keys, skip_pairs);
    if keys.len() == 0 {
        proof {
            assert(spec_keys(value@, skip_pairs) === Set::empty()) by {
                if spec_keys(value@, skip_pairs) !== Set::empty() {
                    assert(keys@.len() > 0);
                }
            }
        }
        proof {
            lemma_push_key(keys@, spec_make_gin_key(KEY_ATOM, 0));
        }
        keys.push(make_gin_key(KEY_ATOM, 0));
        proof {
            assert(keys@.to_set() =~= set![spec_make_gin_key(KEY_ATOM, 0)]);
            assert(spec_keys(value@, skip_pairs).len() == 0);
        }
    } else {
        proof {
            assert(spec_keys(value@, skip_pairs) !== Set::empty()) by {
                assert(keys@.to_set().contains(keys@[0]));
            }
        }
    }
    keys
}

/// Key-based containment: an atomic needle falls back to structural
/// containment, nil always matches, a `(symbol value ...)` needle asks for a
/// list anywhere in the container headed by that symbol with a later element
/// that equals or contains the value (with any further needle elements each
/// key-matched against the same container), and any other list needle
/// requires every child to key-match.
pub open spec fn val_contains_key(container: Val, needle: Val) -> bool
    decreases needle, 1int,
{
    if val_is_atom(needle) {
        val_contains(container, needle)
    } else if needle is Nil {
        true
    } else {
        let es = needle->List_0;
        if es.len() >= 2 && es[0] is Sym {
            spec_find_kv(container, es[0]->Sym_0, es[1]) && val_contains_key_all(
                container,
                es.skip(2),
            )
        } else {
            val_contains_key_all(container, es)
        }
    }
}

/// Every element of `es` key-matches against the container.
pub open spec fn val_contains_key_all(container: Val, es: Seq<Val>) -> bool
    decreases es, 0int,
{
    es.len() == 0 || (val_contains_key(container, es.first()) && val_contains_key_all(
        container,
        es.drop_first(),
    ))
}

/// Some list anywhere inside the container is headed by the symbol `key` and
/// has, after that head, an element that structurally equals or contains
/// `value`.
pub open spec fn spec_find_kv(container: Val, key: Seq<u8>, value: Val) -> bool
    decreases container, 1int,
{
    match container {
        Val::List(es) => (es.len() >= 2 && es[0] == Val::Sym(key) && (exists|i: int|
            1 <= i < es.len() && val_contains(#[trigger] es[i], value))) || spec_find_kv_any(
            es,
            key,
            value,
        ),
        _ => false,
    }
}

/// Some element of `es` has a key-value hit for `key`/`value` inside it.
pub open spec fn spec_find_kv_any(es: Seq<Val>, key: Seq<u8>, value: Val) -> bool
    decreases es, 0int,
{
    es.len() > 0 && (spec_find_kv(es.first(), key, value) || spec_find_kv_any(
        es.drop_first(),
        key,
        value,
    ))
}

/// Searches the container for a list headed by the symbol `key_bytes` whose
/// later elements include one that equals or structurally contains `value`.
pub fn find_key_value_in_container(container: &Sexp, key_bytes: &Vec<u8>, value: &Sexp) -> (r:
    bool)
    requires
        container.wf(),
        value.wf(),
    ensures
        r == spec_find_kv(container@, key_bytes@, value@),
    decreases container@,
{
    if container.get_type() != SexpType::List {
        return false;
    }
    let ghost es = container@->List_0;
    let count = container.child_count();
    let head = container.child(0);
    if count >= 2 && head.is_symbol() {
        let name = head.text_bytes();
        if crate::sexp::bytes_eq(&name, key_bytes) {
            assert(es[0] == Val::Sym(key_bytes@));
            let mut i: usize = 1;
            while i < count
                invariant
                    1 <= i <= count,
                    count == es.len(),
                    container.wf(),
                    value.wf(),
                    container@ is List,
                    es == container@->List_0,
                    es.len() >= 2,
                    es[0] == Val::Sym(key_bytes@),
                    forall|j: int| 1 <= j < i ==> !val_contains(#[trigger] es[j], value@),
                decreases count - i,
            {
                let elem = container.child(i);
                if elem.equals(value) || elem.contains(value) {
                    proof {
                        assert(val_contains(es[i as int], value@));
                        assert(exists|j: int|
                            1 <= j < es.len() && val_contains(#[trigger] es[j], value@));
                        assert(spec_find_kv(container@, key_bytes@, value@));
                    }
                    return true;
                }
                i = i + 1;
            }
        }
    }
    let mut k: usize = 0;
    proof {
        assert(es.skip(0) =~= es);
    }
    while k < count
        invariant
            0 <= k <= count,
            count == es.len(),
            container.wf(),
            value.wf(),
            container@ is List,
            es == container@->List_0,
            !(es.len() >= 2 && es[0] == Val::Sym(key_bytes@) && (exists|i: int|
                1 <= i < es.len() && val_contains(#[trigger] es[i], value@))),
            spec_find_kv_any(es, key_bytes@, value@) == spec_find_kv_any(
                es.skip(k as int),
                key_bytes@,
                value@,
            ),
        decreases count - k,
    {
        let c = container.child(k);
        assert(es.skip(k as int).first() == es[k as int]);
        let hit = find_key_value_in_container(&c, key_bytes, value);
        proof {
            assert(es.skip(k as int).drop_first() =~= es.skip(k + 1));
        }
        if hit {
            return true;
        }
        k = k + 1;
    }
    assert(!spec_find_kv_any(es.skip(count as int), key_bytes@, value@));
    false
}

/// Key-based containment of `needle` in `container` (the asymmetric
/// "has a field named X whose value equals or contains V" relation).
pub fn sexp_contains_key(container: &Sexp, needle: &Sexp) -> (r: bool)
    requires
        container.wf(),
        needle.wf(),
    ensures
        r == val_contains_key(container@, needle@),
    decreases needle@,
{
    if needle.is_atom() {
        return container.contains(needle);
    }
    if needle.is_nil() {
        return true;
    }
    assert(needle@ is List);
    let ghost es = needle@->List_0;
    let count = needle.child_count();
    let first = needle.child(0);
    if count >= 2 && first.is_symbol() {
        let key = first.text_bytes();
        let value = needle.child(1);
        proof {
            assert(es[0] is Sym && es[0]->Sym_0 == key@ && es[1] == value@);
            assert(val_contains_key(container@, needle@) == (spec_find_kv(container@, key@, value@)
                && val_contains_key_all(container@, es.skip(2))));
        }
        if !find_key_value_in_container(container, &key, &value) {
            assert(!val_contains_key(container@, needle@));
            return false;
        }
        let mut i: usize = 2;
        proof {
            assert(es[0]->Sym_0 == key@);
            assert(es.skip(2) =~= es.skip(2));
        }
        while i < count
            invariant
                2 <= i <= count,
                count == es.len(),
                container.wf(),
                needle.wf(),
                needle@ is List,
                es == needle@->List_0,
                val_contains_key(container@, needle@) == val_contains_key_all(
                    container@,
                    es.skip(i as int),
                ),
            decreases count - i,
        {
            let elem = needle.child(i);
            assert(es.skip(i as int).first() == es[i as int]);
            let ok = sexp_contains_key(container, &elem);
            proof {
                assert(es.skip(i as int).drop_first() =~= es.skip(i + 1));
            }
            if !ok {
                assert(!val_contains_key_all(container@, es.skip(i as int)));
                return false;
            }
            i = i + 1;
        }
        assert(val_contains_key_all(container@, es.skip(count as int)));
        true
    } else {
        proof {
            assert(val_contains_key(container@, needle@) == val_contains_key_all(container@, es));
        }
        let mut i: usize = 0;
        proof {
            assert(es.skip(0) =~= es);
        }
        while i < count
            invariant
                0 <= i <= count,
                count == es.len(),
                container.wf(),
                needle.wf(),
                needle@ is List,
                es == needle@->List_0,
                val_contains_key(container@, needle@) == val_contains_key_all(
                    container@,
                    es.skip(i as int),
                ),
            decreases count - i,
        {
            let elem = needle.child(i);
            assert(es.skip(i as int).first() == es[i as int]);
            let ok = sexp_contains_key(container, &elem);
            proof {
                assert(es.skip(i as int).drop_first() =~= es.skip(i + 1));
            }
            if !ok {
                assert(!val_contains_key_all(container@, es.skip(i as int)));
                return false;
            }
            i = i + 1;
        }
        assert(val_contains_key_all(container@, es.skip(count as int)));
        true
    }
}

} // verus!
