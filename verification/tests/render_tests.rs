use arithmetic_parser_smetaniuk::{
    eval_expr, eval_expr_from_string, parse_expr, Expr, MyParser, Op, Rule,
};

fn expression(text: &str) -> Expr {
    let mut pairs = MyParser::parse(Rule::equation, text).unwrap();
    parse_expr(pairs.next().unwrap().into_inner()).unwrap()
}

fn number(literal: &str) -> Expr {
    Expr::Number(literal.to_string())
}

fn binary(lhs: Expr, op: Op, rhs: Expr) -> Expr {
    Expr::BinOp { lhs: Box::new(lhs), op, rhs: Box::new(rhs) }
}

fn shown(expr: &Expr) -> String {
    format!("{:?}", expr)
}

#[test]
fn canonical_text_of_parsed_expressions() {
    let cases = [
        ("2 + 3 * 4", "2 + 3 * 4"),
        ("2+3*4", "2 + 3 * 4"),
        ("(1 + 2) * 3", "(1 + 2) * 3"),
        ("2 - (3 - 4)", "2 - (3 - 4)"),
        ("(2 - 3) - 4", "2 - 3 - 4"),
        ("2 * (3 * 4)", "2 * (3 * 4)"),
        ("2 + (3 * 4)", "2 + 3 * 4"),
        ("(2 * 3) + 4", "2 * 3 + 4"),
        ("-(-1)", "-(-1)"),
        ("-( 5 )", "-5"),
        ("1--1", "1 - -1"),
        ("((1))", "1"),
        ("-(1+2)*3", "-(1 + 2) * 3"),
        ("\t1.50 /\t( 2 )  ", "1.50 / 2"),
        ("8 + 1 - (0.5 / 33.7)", "8 + 1 - 0.5 / 33.7"),
    ];
    for (text, canonical) in cases {
        assert_eq!(expression(text).to_text(), canonical, "of {:?}", text);
    }
}

#[test]
fn canonical_text_of_built_expressions() {
    let sum = binary(number("1"), Op::Add, number("2"));
    let product = binary(sum, Op::Multiply, number("3"));
    assert_eq!(product.to_text(), "(1 + 2) * 3");
    let right = binary(number("1"), Op::Subtract, binary(number("2"), Op::Subtract, number("3")));
    assert_eq!(right.to_text(), "1 - (2 - 3)");
    let negated = Expr::UnaryMinus(Box::new(Expr::UnaryMinus(Box::new(number("7")))));
    assert_eq!(negated.to_text(), "-(-7)");
    let mixed = binary(
        Expr::UnaryMinus(Box::new(number("2"))),
        Op::Divide,
        Expr::UnaryMinus(Box::new(binary(number("4"), Op::Divide, number("8")))),
    );
    assert_eq!(mixed.to_text(), "-2 / -(4 / 8)");
}

#[test]
fn reading_the_canonical_text_gives_the_expression_back() {
    let texts = [
        "1",
        "-1",
        "2 + 3 * 4",
        "2 - 3 - 4",
        "-2 * 3",
        "(1 + 2) * 3",
        "1.234",
        "8 + 1 - (0.5 / 33.7)",
        "1 - (2 - (3 - (4 - 5)))",
        "((1 + 2) * (3 + 4)) / -(5 - -6)",
        "1 / 2 / 3 * 4 - 5 + 6 * -7",
        "-(-(-(1)))",
        "(((1)))",
    ];
    for text in texts {
        let first = expression(text);
        let canonical = first.to_text();
        let second = expression(&canonical);
        assert_eq!(shown(&first), shown(&second), "of {:?}", text);
        assert_eq!(second.to_text(), canonical);
        let steps = format!("{:?}", eval_expr(first).unwrap());
        assert_eq!(steps, format!("{:?}", eval_expr_from_string(&canonical).unwrap()));
    }
}

#[test]
fn reading_the_canonical_text_of_built_expressions() {
    let ops = [Op::Add, Op::Subtract, Op::Multiply, Op::Divide];
    let mut pool: Vec<Expr> = vec![number("1"), number("2.5")];
    for round in 0..2 {
        let mut next: Vec<Expr> = Vec::new();
        for a in &pool {
            next.push(Expr::UnaryMinus(Box::new(expression(&a.to_text()))));
            for b in &pool {
                for op in ops {
                    next.push(binary(
                        expression(&a.to_text()),
                        op,
                        expression(&b.to_text()),
                    ));
                }
            }
            if round == 1 && next.len() > 400 {
                break;
            }
        }
        pool.extend(next);
    }
    assert!(pool.len() > 300);
    for expr in &pool {
        let back = expression(&expr.to_text());
        assert_eq!(shown(expr), shown(&back), "of {:?}", expr.to_text());
    }
}

#[test]
fn a_long_chain_needs_no_parentheses() {
    let mut text = String::from("1");
    for _ in 0..300 {
        text.push_str(" - 1");
    }
    let expr = expression(&text);
    assert_eq!(expr.to_text(), text);
}

/// The expression of a run of atoms and operators, by the rule alone:
/// the last operator of the lowest level is applied last.
fn by_the_rule(atoms: &[(bool, String)], ops: &[Op]) -> Expr {
    if ops.is_empty() {
        let (negated, literal) = &atoms[0];
        let operand = number(literal);
        return if *negated { Expr::UnaryMinus(Box::new(operand)) } else { operand };
    }
    let level = |op: &Op| match op {
        Op::Add | Op::Subtract => 1,
        Op::Multiply | Op::Divide => 2,
    };
    let lowest = ops.iter().map(level).min().unwrap();
    let at = ops.iter().rposition(|op| level(op) == lowest).unwrap();
    binary(
        by_the_rule(&atoms[..=at], &ops[..at]),
        ops[at],
        by_the_rule(&atoms[at + 1..], &ops[at + 1..]),
    )
}

#[test]
fn builder_follows_the_rule_on_every_short_run() {
    let signs = [(Op::Add, "+"), (Op::Subtract, "-"), (Op::Multiply, "*"), (Op::Divide, "/")];
    let mut count = 0;
    for atoms in 1..=5usize {
        let ops = atoms - 1;
        for code in 0..4usize.pow(ops as u32) {
            for minus in 0..(1usize << atoms) {
                let mut text = String::new();
                let mut list = Vec::new();
                let mut chosen = Vec::new();
                for k in 0..atoms {
                    if k > 0 {
                        let (op, sign) = signs[(code >> (2 * (k - 1))) & 3];
                        text.push_str(sign);
                        chosen.push(op);
                    }
                    let negated = (minus >> k) & 1 == 1;
                    if negated {
                        text.push('-');
                    }
                    let literal = format!("{}", k + 1);
                    text.push_str(&literal);
                    list.push((negated, literal));
                }
                let expected = by_the_rule(&list, &chosen);
                assert_eq!(shown(&expression(&text)), shown(&expected), "of {:?}", text);
                count += 1;
            }
        }
    }
    assert_eq!(count, 2 + 16 + 128 + 1024 + 8192);
}
