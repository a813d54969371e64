//! Wildcard/capture pattern matching and the pre-order search.

use sexp_engine::sexp::Sexp;
use sexp_engine::matching::{sexp_match_fn, sexp_find, get_pattern_type, PatternType};

fn parse(text: &str) -> Sexp {
    let bytes: Vec<u8> = text.as_bytes().to_vec();
    let tokens = Sexp::atom_tokens(&bytes);
    let answers: Vec<Option<u64>> = tokens
        .iter()
        .map(|t| {
            std::str::from_utf8(t)
                .ok()
                .and_then(|s| s.parse::<f64>().ok())
                .map(|f| f.to_bits())
        })
        .collect();
    Sexp::input(&bytes, &answers).expect("parse failed")
}

fn render(s: &Sexp) -> String {
    String::from_utf8(s.to_string_repr()).expect("non-utf8 rendering")
}

#[test]
fn test_pattern_match_wildcard() {
    let expr = parse("(foo bar baz)");
    let pattern = parse("(foo _ baz)");
    assert!(sexp_match_fn(&expr, &pattern));
}

#[test]
fn test_pattern_match_rest() {
    let expr = parse("(foo a b c d)");
    let pattern = parse("(foo _*)");
    assert!(sexp_match_fn(&expr, &pattern));
}

#[test]
fn test_pattern_no_match() {
    let expr = parse("(foo bar)");
    let pattern = parse("(foo baz)");
    assert!(!sexp_match_fn(&expr, &pattern));
}

#[test]
fn test_pattern_capture() {
    assert!(sexp_match_fn(&parse("(add 1 2)"), &parse("(add ?x ?y)")));
    assert!(sexp_match_fn(&parse("(add (mul 2 3) 4)"), &parse("(add ?x 4)")));
}

#[test]
fn test_pattern_capture_rest() {
    assert!(sexp_match_fn(&parse("(f)"), &parse("(f ??rest)")));
    assert!(sexp_match_fn(&parse("(f 1 2 3)"), &parse("(f ??rest)")));
}

#[test]
fn test_rest_pattern_matches_zero_elements() {
    assert!(sexp_match_fn(&parse("(foo)"), &parse("(foo _*)")));
}

#[test]
fn test_rest_pattern_must_be_last() {
    // a rest pattern anywhere but the final position fails the whole match
    assert!(!sexp_match_fn(&parse("(f 1 2)"), &parse("(f _* 2)")));
    assert!(!sexp_match_fn(&parse("(f 1 2)"), &parse("(_* 1 2)")));
}

#[test]
fn test_arity_mismatch_fails() {
    assert!(!sexp_match_fn(&parse("(f 1 2 3)"), &parse("(f _ _)")));
    assert!(!sexp_match_fn(&parse("(f 1)"), &parse("(f _ _)")));
}

#[test]
fn test_top_level_wildcard() {
    assert!(sexp_match_fn(&parse("anything"), &parse("_")));
    assert!(sexp_match_fn(&parse("(a b)"), &parse("?x")));
    // a lone rest pattern is not a valid single-element pattern
    assert!(!sexp_match_fn(&parse("x"), &parse("_*")));
}

#[test]
fn test_literal_matching_is_exact() {
    assert!(sexp_match_fn(&parse("42"), &parse("42")));
    assert!(!sexp_match_fn(&parse("42"), &parse("43")));
    assert!(sexp_match_fn(&parse("\"s\""), &parse("\"s\"")));
    // a string never matches a symbol of the same text
    assert!(!sexp_match_fn(&parse("\"s\""), &parse("s")));
    assert!(sexp_match_fn(&parse("()"), &parse("()")));
}

#[test]
fn test_nested_patterns() {
    assert!(sexp_match_fn(&parse("(a (b 1) c)"), &parse("(a (b _) c)")));
    assert!(!sexp_match_fn(&parse("(a (b 1) c)"), &parse("(a (b 2) c)")));
}

#[test]
fn test_get_pattern_type() {
    assert_eq!(get_pattern_type(&b"_".to_vec()), PatternType::Wildcard);
    assert_eq!(get_pattern_type(&b"_*".to_vec()), PatternType::WildcardRest);
    assert_eq!(get_pattern_type(&b"?x".to_vec()), PatternType::Capture);
    assert_eq!(get_pattern_type(&b"??rest".to_vec()), PatternType::CaptureRest);
    assert_eq!(get_pattern_type(&b"foo".to_vec()), PatternType::Literal);
    assert_eq!(get_pattern_type(&b"_x".to_vec()), PatternType::Literal);
    assert_eq!(get_pattern_type(&b"?".to_vec()), PatternType::Capture);
    assert_eq!(get_pattern_type(&b"??".to_vec()), PatternType::CaptureRest);
}

#[test]
fn test_find_at_root() {
    let e = parse("(foo bar)");
    let found = sexp_find(&e, &parse("(foo _)")).unwrap();
    assert!(found.equals(&e));
}

#[test]
fn test_find_first_subexpression() {
    let e = parse("(a (b 1) (b 2))");
    let found = sexp_find(&e, &parse("(b _)")).unwrap();
    assert_eq!(render(&found), "(b 1)");
}

#[test]
fn test_find_deep() {
    let e = parse("(x (y (z 9)))");
    let found = sexp_find(&e, &parse("(z _)")).unwrap();
    assert_eq!(render(&found), "(z 9)");
}

#[test]
fn test_find_none() {
    let e = parse("(a b c)");
    assert!(sexp_find(&e, &parse("(q _)")).is_none());
}
