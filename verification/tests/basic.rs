//! Parsing, navigation and equality over encoded values.

use sexp_engine::sexp::{Sexp, SexpType, sexp_typeof};
use sexp_engine::parse::ParseError;

/// Parses surface text, answering float classification for every atom token
/// the way the host would: through the platform float parser.
fn parse(text: &str) -> Sexp {
    let bytes: Vec<u8> = text.as_bytes().to_vec();
    let tokens = Sexp::atom_tokens(&bytes);
    let answers: Vec<Option<u64>> = tokens
        .iter()
        .map(|t| {
            std::str::from_utf8(t)
                .ok()
                .and_then(|s| s.parse::<f64>().ok())
                .map(|f| f.to_bits())
        })
        .collect();
    Sexp::input(&bytes, &answers).expect("parse failed")
}

fn parse_err(text: &str) -> ParseError {
    let bytes: Vec<u8> = text.as_bytes().to_vec();
    let tokens = Sexp::atom_tokens(&bytes);
    let answers: Vec<Option<u64>> = tokens
        .iter()
        .map(|t| {
            std::str::from_utf8(t)
                .ok()
                .and_then(|s| s.parse::<f64>().ok())
                .map(|f| f.to_bits())
        })
        .collect();
    match Sexp::input(&bytes, &answers) {
        Ok(_) => panic!("parse unexpectedly succeeded"),
        Err(e) => e,
    }
}

fn render(s: &Sexp) -> String {
    String::from_utf8(s.to_string_repr()).expect("non-utf8 rendering")
}

#[test]
fn test_parse_symbol() {
    let s = parse("foo");
    assert_eq!(s.get_type(), SexpType::Symbol);
    assert!(s.is_symbol());
    assert_eq!(render(&s), "foo");
    assert_eq!(sexp_typeof(&s), "symbol");
}

#[test]
fn test_parse_integer() {
    let s = parse("42");
    assert_eq!(s.get_type(), SexpType::Integer);
    assert!(s.is_number());
    assert_eq!(s.int_value(), 42);
    assert_eq!(render(&s), "42");
    assert_eq!(sexp_typeof(&s), "integer");
}

#[test]
fn test_parse_negative() {
    let s = parse("-123");
    assert_eq!(s.get_type(), SexpType::Integer);
    assert_eq!(s.int_value(), -123);
    assert_eq!(render(&s), "-123");
}

#[test]
fn test_parse_float() {
    let s = parse("3.14");
    assert_eq!(s.get_type(), SexpType::Float);
    assert!(s.is_number());
    assert_eq!(s.float_payload(), 3.14f64.to_le_bytes().to_vec());
    assert_eq!(sexp_typeof(&s), "float");
}

#[test]
fn test_parse_nil() {
    let s = parse("()");
    assert!(s.is_nil());
    assert!(s.is_list());
    assert!(!s.is_atom());
    assert_eq!(render(&s), "()");
    assert_eq!(s.length(), 0);
}

#[test]
fn test_parse_list() {
    let s = parse("(foo bar baz)");
    assert_eq!(s.get_type(), SexpType::List);
    assert!(s.is_list());
    assert_eq!(s.length(), 3);
    assert_eq!(render(&s), "(foo bar baz)");
}

#[test]
fn test_car_cdr() {
    let s = parse("(a b c)");
    let car = s.car().unwrap();
    assert_eq!(render(&car), "a");
    let cdr = s.cdr().unwrap();
    assert_eq!(cdr.length(), 2);
    assert_eq!(render(&cdr), "(b c)");
}

#[test]
fn test_car_cdr_of_atom_and_nil() {
    assert!(parse("x").car().is_none());
    assert!(parse("x").cdr().is_none());
    assert!(parse("()").car().is_none());
    assert!(parse("()").cdr().is_none());
    let one = parse("(a)");
    assert!(one.cdr().unwrap().is_nil());
}

#[test]
fn test_nth() {
    let s = parse("(a b c d)");
    assert_eq!(render(&s.nth(0).unwrap()), "a");
    assert_eq!(render(&s.nth(1).unwrap()), "b");
    assert_eq!(render(&s.nth(2).unwrap()), "c");
    assert_eq!(render(&s.nth(3).unwrap()), "d");
    assert!(s.nth(4).is_none());
    assert!(s.nth(-1).is_none());
}

#[test]
fn test_nth_of_atom() {
    let a = parse("7");
    assert!(a.nth(0).unwrap().equals(&a));
    assert!(a.nth(1).is_none());
    assert_eq!(a.length(), 1);
}

#[test]
fn test_contains() {
    let container = parse("(a (b c) d)");
    let needle = parse("(b c)");
    let not_there = parse("(x y)");
    assert!(container.contains(&needle));
    assert!(!container.contains(&not_there));
}

#[test]
fn test_contains_self_and_deep() {
    let x = parse("(a (b (c 1)) d)");
    assert!(x.contains(&x));
    assert!(x.contains(&parse("1")));
    assert!(x.contains(&parse("(c 1)")));
    assert!(!x.contains(&parse("2")));
}

#[test]
fn test_equality() {
    let a = parse("(foo bar)");
    let b = parse("(foo bar)");
    let c = parse("(foo baz)");
    assert!(a.equals(&b));
    assert!(!a.equals(&c));
}

#[test]
fn test_string_values() {
    let s = parse("\"hello world\"");
    assert_eq!(s.get_type(), SexpType::String);
    assert!(s.is_string());
    assert_eq!(s.text_bytes(), b"hello world".to_vec());
    assert_eq!(render(&s), "\"hello world\"");
}

#[test]
fn test_string_escapes() {
    let s = parse("\"a\\n\\t\\r\\\\\\\"b\"");
    assert_eq!(s.text_bytes(), b"a\n\t\r\\\"b".to_vec());
    assert_eq!(render(&s), "\"a\\n\\t\\r\\\\\\\"b\"");
}

#[test]
fn test_comments_and_whitespace() {
    let s = parse("( a ; a comment\n  b )");
    assert_eq!(s.length(), 2);
    assert_eq!(render(&s), "(a b)");
}

#[test]
fn test_integer_bounds() {
    let max = parse("9223372036854775807");
    assert_eq!(max.int_value(), i64::MAX);
    let min = parse("-9223372036854775808");
    assert_eq!(min.int_value(), i64::MIN);
    // one past the range no longer reads as an integer; the float parser
    // accepts it, so it becomes a float
    let over = parse("9223372036854775808");
    assert_eq!(over.get_type(), SexpType::Float);
}

#[test]
fn test_parse_errors() {
    assert_eq!(parse_err("(a b"), ParseError::UnterminatedList);
    assert_eq!(parse_err("\"abc"), ParseError::UnterminatedString);
    assert_eq!(parse_err("\"abc\\"), ParseError::UnterminatedEscape);
}

#[test]
fn test_empty_input_is_nil() {
    assert!(parse("").is_nil());
    assert!(parse("   ").is_nil());
    assert!(parse("nil").is_nil());
    assert!(parse("; only a comment").is_nil());
}

#[test]
fn test_nested_lists() {
    let s = parse("(a (b (c (d))))");
    assert_eq!(s.length(), 2);
    let inner = s.nth(1).unwrap();
    assert_eq!(render(&inner), "(b (c (d)))");
}

#[test]
fn test_as_bytes_format() {
    let s = parse("()");
    // version header followed by the nil tag
    assert_eq!(s.as_bytes(), vec![1u8, 0u8]);
    let n = parse("5");
    // integer tag, zig-zag varint of 5
    assert_eq!(n.as_bytes(), vec![1u8, 1u8, 10u8]);
}

#[test]
fn test_duplicate_is_equal() {
    let s = parse("(a b)");
    let d = s.duplicate();
    assert!(s.equals(&d));
    assert_eq!(s.as_bytes(), d.as_bytes());
}
