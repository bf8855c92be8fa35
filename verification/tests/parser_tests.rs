use fabric_lang::error::Error;
use fabric_lang::scanner::Decimal;
use fabric_lang::sexp::{parse, ErrorKind, Literal, Sexp};

fn sexp_eq(a: &Sexp, b: &Sexp) -> bool {
    match (a, b) {
        (Sexp::List { terms: ta }, Sexp::List { terms: tb }) => {
            ta.len() == tb.len() && ta.iter().zip(tb.iter()).all(|(x, y)| sexp_eq(x, y))
        }
        (Sexp::Ident { name: na }, Sexp::Ident { name: nb }) => na == nb,
        (Sexp::Literal { value: va }, Sexp::Literal { value: vb }) => match (va, vb) {
            (Literal::Atom(x), Literal::Atom(y)) => x == y,
            (Literal::Str(x), Literal::Str(y)) => x == y,
            (Literal::Integer(x), Literal::Integer(y)) => x == y,
            (Literal::Float(x), Literal::Float(y)) => x == y,
            (Literal::Percent(x), Literal::Percent(y)) => x == y,
            _ => false,
        },
        _ => false,
    }
}

fn parsed(source: &str) -> Sexp {
    match parse(source) {
        Ok(s) => s,
        Err(_) => panic!("parse failed on {:?}", source),
    }
}

fn text_of(s: &Sexp) -> String {
    s.to_text().iter().collect()
}

#[test]
fn parses_nested_lists() {
    let s = parsed("(fabric (name \"X\") (scale 50%))");
    match &s {
        Sexp::List { terms } => {
            assert_eq!(terms.len(), 3);
            assert!(matches!(&terms[0], Sexp::Ident { name } if name == "fabric"));
            match &terms[2] {
                Sexp::List { terms: inner } => {
                    assert!(matches!(&inner[0], Sexp::Ident { name } if name == "scale"));
                    assert!(matches!(
                        &inner[1],
                        Sexp::Literal { value: Literal::Percent(Decimal { mantissa: 50, exponent: 0 }) }
                    ));
                }
                _ => panic!("expected inner list"),
            }
        }
        _ => panic!("expected list"),
    }
}

#[test]
fn unterminated_list_is_consume_failed() {
    let e = match parse("(fabric (name \"X\")") {
        Err(Error::SexpParseError(e)) => e,
        _ => panic!("expected a parse error"),
    };
    assert!(matches!(e.kind, ErrorKind::ConsumeFailed { expected: "right paren" }));
}

#[test]
fn lone_right_paren_is_match_exhausted() {
    let e = match parse(")") {
        Err(Error::SexpParseError(e)) => e,
        _ => panic!("expected a parse error"),
    };
    assert!(matches!(e.kind, ErrorKind::MatchExhausted));
}

#[test]
fn empty_input_is_match_exhausted() {
    assert!(matches!(
        parse(""),
        Err(Error::SexpParseError(e)) if matches!(e.kind, ErrorKind::MatchExhausted)
    ));
}

#[test]
fn scan_fault_comes_through_parse() {
    assert!(matches!(parse("(a @)"), Err(Error::ScanError(_))));
}

#[test]
fn printing_gives_canonical_text() {
    let s = parsed("(fabric   (name \"X\")\n  (scale 50%))");
    assert_eq!(text_of(&s), "(fabric (name \"X\") (scale 50%))");
}

#[test]
fn round_trip_of_a_nested_tree() {
    let src = "(fabric (name \"X\") (features (count 3) (label :ready)) (build (seed :left) (scale 10.5%) (grow :A (repeat 3) (twist :continue :switch))))";
    let s = parsed(src);
    let printed = text_of(&s);
    let again = parsed(&printed);
    assert!(sexp_eq(&s, &again));
    assert_eq!(printed, text_of(&again));
}

#[test]
fn round_trip_of_literals() {
    for src in ["42", "-42", ":atom", "\"text\"", "12.34", "-0.5", "3.5%", "100%", "name"] {
        let s = parsed(src);
        let again = parsed(&text_of(&s));
        assert!(sexp_eq(&s, &again), "round trip failed for {:?}", src);
    }
}

#[test]
fn round_trip_keeps_whole_floats_floats() {
    let s = parsed("12.");
    assert!(matches!(
        &s,
        Sexp::Literal { value: Literal::Float(Decimal { mantissa: 12, exponent: 0 }) }
    ));
    assert_eq!(text_of(&s), "12.");
    let again = parsed(&text_of(&s));
    assert!(sexp_eq(&s, &again));
}
