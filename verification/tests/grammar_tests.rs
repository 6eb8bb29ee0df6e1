use arithmetic_parser_smetaniuk::{MyParser, Rule};

#[test]
fn test_number() {
    let pair = MyParser::parse(Rule::number, "8")
        .unwrap()
        .next()
        .expect("no pair");
    assert_eq!(pair.as_str(), "8");
    assert_eq!(pair.as_span().start(), 0);
    assert_eq!(pair.as_span().end(), 1);

    let pair = MyParser::parse(Rule::number, "1234567890")
        .unwrap()
        .next()
        .expect("no pair");
    assert_eq!(pair.as_str(), "1234567890");
    assert_eq!(pair.as_span().start(), 0);
    assert_eq!(pair.as_span().end(), 10);

    let pair = MyParser::parse(Rule::number, "1.234")
        .unwrap()
        .next()
        .expect("no pair");
    assert_eq!(pair.as_str(), "1.234");
    assert_eq!(pair.as_span().start(), 0);
    assert_eq!(pair.as_span().end(), 5);

    let pair = MyParser::parse(Rule::number, "0.00000123")
        .unwrap()
        .next()
        .expect("no pair");
    assert_eq!(pair.as_str(), "0.00000123");
    assert_eq!(pair.as_span().start(), 0);
    assert_eq!(pair.as_span().end(), 10);

    let pair = MyParser::parse(Rule::number, "x");
    assert!(pair.is_err());

    let pair = MyParser::parse(Rule::number, "");
    assert!(pair.is_err());

}

#[test]
fn test_unary_minus() {
    let pair = MyParser::parse(Rule::unary_minus, "-")
        .unwrap()
        .next()
        .expect("no pair");
    assert_eq!(pair.as_str(), "-");
    assert_eq!(pair.as_span().start(), 0);
    assert_eq!(pair.as_span().end(), 1);

    let pair = MyParser::parse(Rule::unary_minus, "x");
    assert!(pair.is_err());

    let pair = MyParser::parse(Rule::unary_minus, "");
    assert!(pair.is_err());

}

#[test]
fn test_primary() {
    let pair = MyParser::parse(Rule::primary, "8")
        .unwrap()
        .next()
        .expect("no pair");
    assert_eq!(pair.as_str(), "8");
    assert_eq!(pair.as_span().start(), 0);
    assert_eq!(pair.as_span().end(), 1);

    let pair = MyParser::parse(Rule::primary, "1234567890")
        .unwrap()
        .next()
        .expect("no pair");
    assert_eq!(pair.as_str(), "1234567890");
    assert_eq!(pair.as_span().start(), 0);
    assert_eq!(pair.as_span().end(), 10);

    let pair = MyParser::parse(Rule::primary, "(1234567890)")
        .unwrap()
        .next()
        .expect("no pair");
    assert_eq!(pair.as_str(), "1234567890");
    assert_eq!(pair.as_span().start(), 1);
    assert_eq!(pair.as_span().end(), 11);

    let pair = MyParser::parse(Rule::primary, "(1.234)")
        .unwrap()
        .next()
        .expect("no pair");
    assert_eq!(pair.as_str(), "1.234");
    assert_eq!(pair.as_span().start(), 1);
    assert_eq!(pair.as_span().end(), 6);

    let pair = MyParser::parse(Rule::primary, "(0.00000123)")
        .unwrap()
        .next()
        .expect("no pair");
    assert_eq!(pair.as_str(), "0.00000123");
    assert_eq!(pair.as_span().start(), 1);
    assert_eq!(pair.as_span().end(), 11);

    let pair = MyParser::parse(Rule::primary, "0.00000123")
        .unwrap()
        .next()
        .expect("no pair");
    assert_eq!(pair.as_str(), "0.00000123");
    assert_eq!(pair.as_span().start(), 0);
    assert_eq!(pair.as_span().end(), 10);

    let pair = MyParser::parse(Rule::primary, "x");
    assert!(pair.is_err());

    let pair = MyParser::parse(Rule::primary, "");
    assert!(pair.is_err());

}

#[test]
fn test_atom() {
    let pair = MyParser::parse(Rule::atom, "8")
        .unwrap()
        .next()
        .expect("no pair");
    assert_eq!(pair.as_str(), "8");
    assert_eq!(pair.as_span().start(), 0);
    assert_eq!(pair.as_span().end(), 1);

    let pair = MyParser::parse(Rule::atom, "-1234567890")
        .unwrap()
        .next()
        .expect("no pair");
    assert_eq!(pair.as_str(), "-");
    assert_eq!(pair.as_span().start(), 0);
    assert_eq!(pair.as_span().end(), 1);

    let pair = MyParser::parse(Rule::atom, "1234567890")
        .unwrap()
        .next()
        .expect("no pair");
    assert_eq!(pair.as_str(), "1234567890");
    assert_eq!(pair.as_span().start(), 0);
    assert_eq!(pair.as_span().end(), 10);

    let pair = MyParser::parse(Rule::atom, "(1.234)")
        .unwrap()
        .next()
        .expect("no pair");
    assert_eq!(pair.as_str(), "1.234");
    assert_eq!(pair.as_span().start(), 1);
    assert_eq!(pair.as_span().end(), 6);

    let pair = MyParser::parse(Rule::atom, "-0.00000123")
        .unwrap()
        .next()
        .expect("no pair");
    assert_eq!(pair.as_str(), "-");
    assert_eq!(pair.as_span().start(), 0);
    assert_eq!(pair.as_span().end(), 1);

    let pair = MyParser::parse(Rule::atom, "0.00000123")
        .unwrap()
        .next()
        .expect("no pair");
    assert_eq!(pair.as_str(), "0.00000123");
    assert_eq!(pair.as_span().start(), 0);
    assert_eq!(pair.as_span().end(), 10);

    let pair = MyParser::parse(Rule::atom, "(0.00000123)")
        .unwrap()
        .next()
        .expect("no pair");
    assert_eq!(pair.as_str(), "0.00000123");
    assert_eq!(pair.as_span().start(), 1);
    assert_eq!(pair.as_span().end(), 11);

    let pair = MyParser::parse(Rule::atom, "x");
    assert!(pair.is_err());

    let pair = MyParser::parse(Rule::atom, "");
    assert!(pair.is_err());

}

#[test]
fn test_operations() {
    for s in "+-*/".chars() {
        let symb = s.to_string();
        let pair = MyParser::parse(Rule::bin_op, symb.as_str())
        .unwrap()
        .next()
        .expect("no pair");
        assert_eq!(pair.as_str(), symb.as_str());
        assert_eq!(pair.as_span().start(), 0);
        assert_eq!(pair.as_span().end(), 1);
    }

    let pair = MyParser::parse(Rule::bin_op, "/")
        .unwrap()
        .next()
        .expect("no pair");
    assert_eq!(pair.as_str(), "/");
    assert_eq!(pair.as_span().start(), 0);
    assert_eq!(pair.as_span().end(), 1);

    let pair = MyParser::parse(Rule::bin_op, "x");
    assert!(pair.is_err());

    let pair = MyParser::parse(Rule::bin_op, "%");
    assert!(pair.is_err());

    let pair = MyParser::parse(Rule::bin_op, "");
    assert!(pair.is_err());

}

#[test]
fn test_expresion() {
    let pair = MyParser::parse(Rule::expr, "8")
        .unwrap()
        .next()
        .expect("no pair");
    assert_eq!(pair.as_str(), "8");
    assert_eq!(pair.as_span().start(), 0);
    assert_eq!(pair.as_span().end(), 1);

    let pair = MyParser::parse(Rule::expr, "8 + 1")
        .unwrap()
        .next()
        .expect("no pair");
    assert_eq!(pair.as_str(), "8 + 1");
    assert_eq!(pair.as_span().start(), 0);
    assert_eq!(pair.as_span().end(), 5);

    let pair = MyParser::parse(Rule::expr, "8 + 1 - (0.5 / 33.7)")
        .unwrap()
        .next()
        .expect("no pair");
    assert_eq!(pair.as_str(), "8 + 1 - (0.5 / 33.7)");
    assert_eq!(pair.as_span().start(), 0);
    assert_eq!(pair.as_span().end(), 20);

    let pair = MyParser::parse(Rule::expr, "x");
    assert!(pair.is_err());

    let pair = MyParser::parse(Rule::expr, "");
    assert!(pair.is_err());

}

#[test]
fn test_equation() {
    let pair = MyParser::parse(Rule::equation, "8 + 1 - (0.5 / 33.7)")
        .unwrap()
        .next()
        .expect("no pair");
    assert_eq!(pair.as_str(), "8 + 1 - (0.5 / 33.7)");
    assert_eq!(pair.as_span().start(), 0);
    assert_eq!(pair.as_span().end(), 20);

    let pair = MyParser::parse(Rule::equation, "x");
    assert!(pair.is_err());

    let pair = MyParser::parse(Rule::equation, "x +");
    assert!(pair.is_err());

    let pair = MyParser::parse(Rule::equation, "x + (");
    assert!(pair.is_err());

    let pair = MyParser::parse(Rule::equation, "");
    assert!(pair.is_err());

}
