//! Index-key extraction, key-based containment, hashing, and the index
//! consistency checks.

use sexp_engine::sexp::Sexp;
use sexp_engine::keys::{sexp_extract_keys, sexp_extract_query_keys, sexp_contains_key,
    find_key_value_in_container};
use sexp_engine::hashing::sexp_hash_extended;
use sexp_engine::gin::{sexp_gin_consistent, sexp_gin_triconsistent, GinTernary};
use sexp_engine::gin::GinTernary::{False, True, Maybe};

fn parse(text: &str) -> Sexp {
    let bytes: Vec<u8> = text.as_bytes().to_vec();
    let tokens = Sexp::atom_tokens(&bytes);
    let answers: Vec<Option<u64>> = tokens
        .iter()
        .map(|t| {
            std::str::from_utf8(t)
                .ok()
                .and_then(|s| s.parse::<f64>().ok())
                .map(|f| f.to_bits())
        })
        .collect();
    Sexp::input(&bytes, &answers).expect("parse failed")
}

#[test]
fn test_key_containment() {
    let container = parse("(user (id 100) (name \"John\") (age 30))");
    let needle = parse("(name \"John\")");
    assert!(sexp_contains_key(&container, &needle));
}

#[test]
fn test_key_containment_nested() {
    let container = parse("(data (user (id 100)))");
    let needle = parse("(id 100)");
    assert!(sexp_contains_key(&container, &needle));
}

#[test]
fn test_key_containment_misses() {
    let container = parse("(user (id 100) (name \"John\"))");
    assert!(!sexp_contains_key(&container, &parse("(id 101)")));
    assert!(!sexp_contains_key(&container, &parse("(email \"x\")")));
}

#[test]
fn test_key_containment_multi_field() {
    let container = parse("(user (id 100) (name \"John\") (age 30))");
    // further needle elements are independent sub-needles against the same
    // container
    assert!(sexp_contains_key(&container, &parse("(id 100 (age 30))")));
    assert!(!sexp_contains_key(&container, &parse("(id 100 (age 31))")));
}

#[test]
fn test_key_containment_value_contains() {
    // the field's value may structurally contain the asked value
    let container = parse("(cfg (opts (a 1 (deep 2))))");
    assert!(sexp_contains_key(&container, &parse("(opts (deep 2))")));
}

#[test]
fn test_key_containment_atom_and_nil() {
    let container = parse("(a b c)");
    assert!(sexp_contains_key(&container, &parse("b")));
    assert!(!sexp_contains_key(&container, &parse("z")));
    assert!(sexp_contains_key(&container, &parse("()")));
}

#[test]
fn test_key_containment_conjunctive_list() {
    // a needle list not headed by a symbol requires every child to match
    let container = parse("(user (id 100) (name \"John\"))");
    assert!(sexp_contains_key(&container, &parse("((id 100) (name \"John\"))")));
    assert!(!sexp_contains_key(&container, &parse("((id 100) (name \"Jane\"))")));
}

#[test]
fn test_find_key_value() {
    let container = parse("(a (k 1) (b (k 2)))");
    assert!(find_key_value_in_container(&container, &b"k".to_vec(), &parse("1")));
    assert!(find_key_value_in_container(&container, &b"k".to_vec(), &parse("2")));
    assert!(!find_key_value_in_container(&container, &b"k".to_vec(), &parse("3")));
    assert!(!find_key_value_in_container(&container, &b"q".to_vec(), &parse("1")));
}

#[test]
fn test_extract_keys_nonempty_and_deduplicated() {
    let keys = sexp_extract_keys(&parse("(a a a (a a))"));
    assert!(!keys.is_empty());
    assert!(keys.len() <= 1024);
    let mut sorted = keys.clone();
    sorted.sort();
    sorted.dedup();
    assert_eq!(sorted.len(), keys.len());
}

#[test]
fn test_extract_keys_soundness_for_children() {
    // every key of a subvalue appears among the keys of the whole
    let parent = parse("(user (id 100) (name \"John\") (tags (x y)))");
    let parent_keys = sexp_extract_keys(&parent);
    for child_text in ["(id 100)", "(name \"John\")", "(tags (x y))", "100", "y"] {
        let child_keys = sexp_extract_keys(&parse(child_text));
        for k in &child_keys {
            assert!(parent_keys.contains(k), "missing key of {}", child_text);
        }
    }
}

#[test]
fn test_extract_keys_stable() {
    let a = sexp_extract_keys(&parse("(user (id 100))"));
    let b = sexp_extract_keys(&parse("(user (id 100))"));
    assert_eq!(a, b);
}

#[test]
fn test_query_keys_suppress_pair_keys() {
    // strategy 9 (key-based containment) suppresses pair keys: the pair
    // (id 100) yields its pair key in value mode, only child keys in query
    // mode
    let v = parse("(id 100)");
    let value_keys = sexp_extract_keys(&v);
    let query_keys = sexp_extract_query_keys(&v, 9);
    assert!(value_keys.len() == 3);
    assert!(query_keys.len() == 2);
    for k in &query_keys {
        assert!(value_keys.contains(k));
    }
    // any other strategy extracts the same keys as value mode
    let other = sexp_extract_query_keys(&v, 7);
    assert_eq!(other, value_keys);
}

#[test]
fn test_extract_keys_atoms() {
    // atoms yield exactly one key each, and the key space has the top bit set
    for t in ["42", "\"s\"", "sym", "()"] {
        let keys = sexp_extract_keys(&parse(t));
        assert_eq!(keys.len(), 1);
        assert!(keys[0] < 0);
    }
}

#[test]
fn test_hash_stability() {
    let a = parse("(foo (bar 1))");
    let b = parse("(foo (bar 1))");
    assert!(a.equals(&b));
    assert_eq!(a.compute_hash(), b.compute_hash());
    assert_eq!(sexp_hash_extended(&a, 7), sexp_hash_extended(&b, 7));
}

#[test]
fn test_hash_extended_seed_matters_for_content() {
    let a = parse("x");
    // the same value and seed always give the same hash
    assert_eq!(sexp_hash_extended(&a, 123), sexp_hash_extended(&a, 123));
}

#[test]
fn test_gin_consistent() {
    let all = vec![true, true, true];
    let one_false = vec![true, false, true];
    assert_eq!(sexp_gin_consistent(&all, 7), (true, true));
    assert_eq!(sexp_gin_consistent(&one_false, 7), (false, true));
    assert_eq!(sexp_gin_consistent(&all, 9), (true, true));
    assert_eq!(sexp_gin_consistent(&one_false, 9), (false, true));
    // contained-by cannot be pre-filtered: always plausible, always recheck
    assert_eq!(sexp_gin_consistent(&one_false, 8), (true, true));
    assert_eq!(sexp_gin_consistent(&vec![], 7), (true, true));
}

#[test]
fn test_gin_triconsistent() {
    assert_eq!(sexp_gin_triconsistent(&vec![True], 7), True);
    assert_eq!(sexp_gin_triconsistent(&vec![True, True], 7), Maybe);
    assert_eq!(sexp_gin_triconsistent(&vec![True, Maybe], 7), Maybe);
    assert_eq!(sexp_gin_triconsistent(&vec![True, False, Maybe], 7), False);
    assert_eq!(sexp_gin_triconsistent(&vec![Maybe], 9), Maybe);
    assert_eq!(sexp_gin_triconsistent(&vec![False], 8), Maybe);
    assert_eq!(sexp_gin_triconsistent(&vec![True], 8), Maybe);
}
