use fabric_lang::scanner::{scan, Decimal, ErrorKind, Token};

fn tokens_of(source: &str) -> Vec<Token> {
    match scan(source) {
        Ok(v) => v.into_iter().map(|st| st.tok).collect(),
        Err(e) => panic!("scan failed: {:?}", e),
    }
}

#[test]
fn integer_literal_scans_to_one_token() {
    let toks = tokens_of("42");
    assert_eq!(toks.len(), 2);
    assert!(matches!(toks[0], Token::Integer(42)));
    assert!(matches!(toks[1], Token::EOF));
}

#[test]
fn negative_integer_literal() {
    let toks = tokens_of("-7");
    assert!(matches!(toks[0], Token::Integer(-7)));
}

#[test]
fn extreme_integer_literals() {
    let toks = tokens_of("9223372036854775807");
    assert!(matches!(toks[0], Token::Integer(i64::MAX)));
    let toks = tokens_of("-9223372036854775808");
    assert!(matches!(toks[0], Token::Integer(i64::MIN)));
}

#[test]
fn integer_overflow_is_a_parse_failure() {
    let e = scan("9223372036854775808").unwrap_err();
    assert!(matches!(e.kind, ErrorKind::IntParseFailed));
}

#[test]
fn lone_minus_is_a_parse_failure() {
    let e = scan("-").unwrap_err();
    assert!(matches!(e.kind, ErrorKind::IntParseFailed));
}

#[test]
fn percent_of_integer_is_unscaled() {
    let toks = tokens_of("42%");
    assert!(matches!(toks[0], Token::Percent(Decimal { mantissa: 42, exponent: 0 })));
}

#[test]
fn percent_of_float_is_unscaled() {
    let toks = tokens_of("3.5%");
    assert!(matches!(toks[0], Token::Percent(Decimal { mantissa: 35, exponent: 1 })));
}

#[test]
fn float_literal_keeps_its_digits() {
    let toks = tokens_of("12.34");
    assert!(matches!(toks[0], Token::Number(Decimal { mantissa: 1234, exponent: 2 })));
    let toks = tokens_of("0.50");
    assert!(matches!(toks[0], Token::Number(Decimal { mantissa: 50, exponent: 2 })));
}

#[test]
fn negative_float_literal() {
    let toks = tokens_of("-3.5");
    assert!(matches!(toks[0], Token::Number(Decimal { mantissa: -35, exponent: 1 })));
}

#[test]
fn double_dot_number_fails_at_its_end() {
    let e = scan("12.34.56").unwrap_err();
    assert!(matches!(e.kind, ErrorKind::FloatParseFailed));
    assert_eq!(e.loc.line, 0);
    assert_eq!(e.loc.col, 8);
}

#[test]
fn illegal_character_is_reported_with_location() {
    let e = scan("@").unwrap_err();
    assert!(matches!(e.kind, ErrorKind::IllegalChar { ch: '@' }));
    assert_eq!(e.loc.line, 0);
    assert_eq!(e.loc.col, 0);
}

#[test]
fn identifiers_and_atoms() {
    let toks = tokens_of("fabric left-right :ready :left-right");
    assert!(matches!(&toks[0], Token::Ident(n) if n == "fabric"));
    assert!(matches!(&toks[1], Token::Ident(n) if n == "left-right"));
    assert!(matches!(&toks[2], Token::Atom(n) if n == "ready"));
    assert!(matches!(&toks[3], Token::Atom(n) if n == "left-right"));
}

#[test]
fn string_literal_and_parens() {
    let toks = tokens_of("(name \"X Y\")");
    assert!(matches!(toks[0], Token::Sym('(')));
    assert!(matches!(&toks[1], Token::Ident(n) if n == "name"));
    assert!(matches!(&toks[2], Token::StringLit(t) if t == "X Y"));
    assert!(matches!(toks[3], Token::Sym(')')));
    assert!(matches!(toks[4], Token::EOF));
}

#[test]
fn unterminated_string_is_illegal() {
    let e = scan("\"abc").unwrap_err();
    assert!(matches!(e.kind, ErrorKind::IllegalChar { ch: '"' }));
}

#[test]
fn newlines_advance_the_line_counter() {
    let v = scan("a\nb").unwrap();
    assert_eq!(v[0].loc.line, 0);
    assert_eq!(v[1].loc.line, 1);
    assert_eq!(v[1].loc.col, 1);
}

#[test]
fn division_by_one_hundred_shifts_the_exponent() {
    let d = Decimal { mantissa: 50, exponent: 0 };
    let r = d.div_100();
    assert_eq!(r, Decimal { mantissa: 50, exponent: 2 });
    // 50 / 10^2 is one half
    assert_eq!(r.mantissa as f64 / 10f64.powi(r.exponent as i32), 0.5);
}
