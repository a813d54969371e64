//! Textual round trips, canonicalization, and navigation consistency.

use sexp_engine::sexp::Sexp;

fn parse(text: &str) -> Sexp {
    let bytes: Vec<u8> = text.as_bytes().to_vec();
    let tokens = Sexp::atom_tokens(&bytes);
    let answers: Vec<Option<u64>> = tokens
        .iter()
        .map(|t| {
            std::str::from_utf8(t)
                .ok()
                .and_then(|s| s.parse::<f64>().ok())
                .map(|f| f.to_bits())
        })
        .collect();
    Sexp::input(&bytes, &answers).expect("parse failed")
}

/// Renders with host-formatted float texts, as the surrounding layer would.
fn render_full(s: &Sexp) -> String {
    let texts: Vec<Vec<u8>> = s
        .float_payloads()
        .iter()
        .map(|p| {
            let mut b = [0u8; 8];
            b.copy_from_slice(p);
            format!("{}", f64::from_le_bytes(b)).into_bytes()
        })
        .collect();
    String::from_utf8(s.to_string_repr_with(&texts)).expect("non-utf8 rendering")
}

#[test]
fn test_round_trip_simple() {
    for t in ["foo", "42", "-7", "nil", "()", "\"hello\"", "(a)", "(a b c)"] {
        let v = parse(t);
        let v2 = parse(&render_full(&v));
        assert!(v.equals(&v2), "round trip failed for {}", t);
    }
}

#[test]
fn test_round_trip_nested() {
    let t = "(user (id 100) (name \"John Smith\") (tags (a b \"x\\\"y\\n\")))";
    let v = parse(t);
    let text = render_full(&v);
    let v2 = parse(&text);
    assert!(v.equals(&v2));
    // rendering is stable from the second trip on
    assert_eq!(text, render_full(&v2));
}

#[test]
fn test_round_trip_floats() {
    for t in ["3.14", "(x 2.5 -0.125)", "1e300"] {
        let v = parse(t);
        let v2 = parse(&render_full(&v));
        assert!(v.equals(&v2), "round trip failed for {}", t);
    }
}

#[test]
fn test_round_trip_integer_extremes() {
    for t in ["9223372036854775807", "-9223372036854775808", "0", "-1"] {
        let v = parse(t);
        let v2 = parse(&render_full(&v));
        assert!(v.equals(&v2));
    }
}

#[test]
fn test_canonicalization() {
    // the canonicalization property: these all produce buffers that are
    // byte-identical past the version header
    let a = parse("()");
    let b = parse("nil");
    let c = parse("(  )");
    assert_eq!(a.as_bytes(), b.as_bytes());
    assert_eq!(b.as_bytes(), c.as_bytes());
    assert!(a.equals(&b) && b.equals(&c));
}

#[test]
fn test_empty_list_collapses_everywhere() {
    // nested empty lists canonicalize to nil during encoding
    let v = parse("(a () b)");
    assert!(v.nth(1).unwrap().is_nil());
    assert_eq!(render_full(&v), "(a () b)");
}

#[test]
fn test_navigation_consistency() {
    // nth(L, 0) == car(L); length(cdr(L)) == n - 1; nth(L, i) equals the
    // i-th element obtained by repeated cdr+car
    let l = parse("(a (b c) 7 \"s\" last)");
    let n = l.length();
    assert!(n >= 1);
    assert!(l.nth(0).unwrap().equals(&l.car().unwrap()));
    assert_eq!(l.cdr().unwrap().length(), n - 1);
    let mut cursor = l.duplicate();
    for i in 0..n {
        let via_nth = l.nth(i).unwrap();
        let via_car = cursor.car().unwrap();
        assert!(via_nth.equals(&via_car), "mismatch at {}", i);
        cursor = cursor.cdr().unwrap();
    }
    assert!(cursor.is_nil());
}

#[test]
fn test_cdr_of_singleton_is_nil() {
    let l = parse("(only)");
    assert!(l.cdr().unwrap().equals(&parse("()")));
}

#[test]
fn test_bool_rendering() {
    // booleans exist in the wire format (rendered #t/#f) though the parser
    // never produces them; the tokens #t/#f read back as symbols
    let s = parse("#t");
    assert!(s.is_symbol());
}

#[test]
fn test_float_payload_listing() {
    let v = parse("(a 1.5 (b 2.5))");
    let payloads = v.float_payloads();
    assert_eq!(payloads.len(), 2);
    assert_eq!(payloads[0], 1.5f64.to_le_bytes().to_vec());
    assert_eq!(payloads[1], 2.5f64.to_le_bytes().to_vec());
}

#[test]
fn test_render_missing_float_text_falls_back() {
    let v = parse("2.5");
    // no texts supplied: the fallback form is used
    assert_eq!(v.to_string_repr(), b"0.0".to_vec());
}

#[test]
fn test_atom_tokens() {
    let bytes = b"(add 1 2.5 \"str\" sym)".to_vec();
    let tokens = Sexp::atom_tokens(&bytes);
    let texts: Vec<&[u8]> = tokens.iter().map(|t| t.as_slice()).collect();
    // strings are not atom tokens; everything else is, in reading order
    assert_eq!(texts, vec![b"add".as_slice(), b"1", b"2.5", b"sym"]);
}

#[test]
fn test_from_bytes_round_trip() {
    for t in ["foo", "42", "(a (b \"s\") 3.5)", "()", "(1 2 3)"] {
        let v = parse(t);
        let back = Sexp::from_bytes(&v.as_bytes()).expect("decoding an encoded value");
        assert!(v.equals(&back));
        assert_eq!(v.as_bytes(), back.as_bytes());
    }
}

#[test]
fn test_from_bytes_rejects_malformed() {
    // empty, bad version, bare header
    assert!(Sexp::from_bytes(&vec![]).is_none());
    assert!(Sexp::from_bytes(&vec![9u8, 0u8]).is_none());
    assert!(Sexp::from_bytes(&vec![1u8]).is_none());
    // unknown tag
    assert!(Sexp::from_bytes(&vec![1u8, 77u8]).is_none());
    // truncated payloads: integer with a dangling varint, short float
    assert!(Sexp::from_bytes(&vec![1u8, 1u8, 0x80]).is_none());
    assert!(Sexp::from_bytes(&vec![1u8, 2u8, 0, 0, 0]).is_none());
    // string longer than the buffer
    assert!(Sexp::from_bytes(&vec![1u8, 3u8, 5u8, 0x61]).is_none());
    // list with a missing element
    assert!(Sexp::from_bytes(&vec![1u8, 5u8, 2u8, 0u8]).is_none());
    // empty list is not canonical (it must be encoded as nil)
    assert!(Sexp::from_bytes(&vec![1u8, 5u8, 0u8]).is_none());
    // trailing bytes after a complete value
    assert!(Sexp::from_bytes(&vec![1u8, 0u8, 0u8]).is_none());
    // boolean payload out of range
    assert!(Sexp::from_bytes(&vec![1u8, 6u8, 2u8]).is_none());
    // non-minimal varint encoding
    assert!(Sexp::from_bytes(&vec![1u8, 1u8, 0x80, 0x00]).is_none());
}

#[test]
fn test_from_bytes_accepts_valid() {
    // hand-assembled: (x 1) with a one-byte symbol and the integer 1
    let buf = vec![1u8, 5u8, 2u8, 4u8, 1u8, 0x78, 1u8, 2u8];
    let v = Sexp::from_bytes(&buf).expect("valid buffer");
    assert_eq!(render_full(&v), "(x 1)");
    // booleans can only enter through the wire format
    let t = Sexp::from_bytes(&vec![1u8, 6u8, 1u8]).expect("true");
    assert_eq!(render_full(&t), "#t");
    let f = Sexp::from_bytes(&vec![1u8, 6u8, 0u8]).expect("false");
    assert_eq!(render_full(&f), "#f");
}
