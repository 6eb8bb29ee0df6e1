use arithmetic_parser_smetaniuk::{
    eval_expr, eval_expr_from_string, parse_expr, Expr, MyError, MyParser, Op, Rule, Step,
};

/// Runs a program on numbers of double precision.
fn run(steps: &[Step]) -> f64 {
    let mut stack: Vec<f64> = Vec::new();
    for step in steps {
        match step {
            Step::Push(literal) => stack.push(literal.parse::<f64>().unwrap()),
            Step::Negate => {
                let x = stack.pop().unwrap();
                stack.push(-x);
            }
            Step::Apply(op) => {
                let rhs = stack.pop().unwrap();
                let lhs = stack.pop().unwrap();
                stack.push(match op {
                    Op::Add => lhs + rhs,
                    Op::Subtract => lhs - rhs,
                    Op::Multiply => lhs * rhs,
                    Op::Divide => lhs / rhs,
                });
            }
        }
    }
    assert_eq!(stack.len(), 1);
    stack[0]
}

fn evaluate(text: &str) -> f64 {
    run(&eval_expr_from_string(text).unwrap())
}

fn expression(text: &str) -> Expr {
    let mut pairs = MyParser::parse(Rule::equation, text).unwrap();
    parse_expr(pairs.next().unwrap().into_inner()).unwrap()
}

#[test]
fn multiplication_binds_tighter_than_addition() {
    assert_eq!(evaluate("2 + 3 * 4"), 14.0);
    assert_eq!(evaluate("2 * 3 + 4"), 10.0);
}

#[test]
fn subtraction_groups_to_the_left() {
    assert_eq!(evaluate("2 - 3 - 4"), -5.0);
    assert_eq!(evaluate("8 / 4 * 2"), 4.0);
    assert_eq!(evaluate("8 / 4 / 2"), 1.0);
}

#[test]
fn unary_minus_binds_tightest() {
    assert_eq!(evaluate("-2 * 3"), -6.0);
    assert_eq!(evaluate("2 * -3"), -6.0);
    assert_eq!(evaluate("1 - -1"), 2.0);
    assert_eq!(evaluate("-(1 + 2)"), -3.0);
}

#[test]
fn parentheses_override_precedence() {
    assert_eq!(evaluate("(1 + 2) * 3"), 9.0);
    assert_eq!(evaluate("2 - (3 - 4)"), 3.0);
    assert_eq!(evaluate("((((7))))"), 7.0);
}

#[test]
fn number_literal_keeps_its_value() {
    match expression("1.234") {
        Expr::Number(literal) => {
            assert_eq!(literal, "1.234");
            assert_eq!(literal.parse::<f64>().unwrap(), 1.234);
        }
        other => panic!("no number: {:?}", other),
    }
    assert_eq!(evaluate("1.234"), 1.234);
    assert_eq!(evaluate("0.00000123"), 0.00000123);
    assert_eq!(evaluate("1234567890"), 1234567890.0);
}

#[test]
fn syntax_errors_are_reported() {
    for text in ["", "x", "1 +", "1 + (", "1 % 2"] {
        match eval_expr_from_string(text) {
            Err(MyError::ParseError(_)) => {}
            other => panic!("{:?} gave {:?}", text, other),
        }
    }
}

#[test]
fn syntax_error_positions() {
    let position = |text: &str| MyParser::parse(Rule::equation, text).err().unwrap().position;
    assert_eq!(position(""), 0);
    assert_eq!(position("x"), 0);
    assert_eq!(position("1 +"), 3);
    assert_eq!(position("1 + ("), 5);
    assert_eq!(position("1 % 2"), 2);
    assert_eq!(position("1 + \u{e9}"), 4);
    assert_eq!(position("(1 + 2"), 6);
}

#[test]
fn parse_error_message_shows_the_place() {
    match eval_expr_from_string("1 % 2") {
        Err(MyError::ParseError(message)) => assert_eq!(
            message,
            " --> 1:3\n  |\n1 | 1 % 2\n  |   ^---\n  |\n  = expected EOI, add, subtract, multiply, or divide"
        ),
        other => panic!("{:?}", other),
    }
    match eval_expr_from_string("1 +") {
        Err(MyError::ParseError(message)) => assert_eq!(
            message,
            " --> 1:4\n  |\n1 | 1 +\n  |    ^---\n  |\n  = expected number or unary_minus"
        ),
        other => panic!("{:?}", other),
    }
}

#[test]
fn describe_refuses_a_position_outside_the_text() {
    let error = MyParser::parse(Rule::equation, "1 + x").err().unwrap();
    assert_eq!(error.position, 4);
    assert!(error.describe("1 + x").is_some());
    assert!(error.describe("1").is_none());
    assert!(error.describe("1 +\u{e9}").is_none());
}

#[test]
fn expression_tree_shapes() {
    match expression("2 - 3 - 4") {
        Expr::BinOp { lhs, op: Op::Subtract, rhs } => {
            assert!(matches!(*rhs, Expr::Number(ref l) if l == "4"));
            match *lhs {
                Expr::BinOp { lhs, op: Op::Subtract, rhs } => {
                    assert!(matches!(*lhs, Expr::Number(ref l) if l == "2"));
                    assert!(matches!(*rhs, Expr::Number(ref l) if l == "3"));
                }
                other => panic!("{:?}", other),
            }
        }
        other => panic!("{:?}", other),
    }
    match expression("-2 * 3") {
        Expr::BinOp { lhs, op: Op::Multiply, rhs } => {
            assert!(matches!(*rhs, Expr::Number(ref l) if l == "3"));
            match *lhs {
                Expr::UnaryMinus(operand) => {
                    assert!(matches!(*operand, Expr::Number(ref l) if l == "2"))
                }
                other => panic!("{:?}", other),
            }
        }
        other => panic!("{:?}", other),
    }
}

#[test]
fn program_is_postfix() {
    let steps = eval_expr(expression("1 + 2 * -3")).unwrap();
    let shown: Vec<String> = steps.iter().map(|s| format!("{:?}", s)).collect();
    assert_eq!(
        shown,
        vec![
            "Push(\"1\")",
            "Push(\"2\")",
            "Push(\"3\")",
            "Negate",
            "Apply(Multiply)",
            "Apply(Add)"
        ]
    );
}

#[test]
fn division_by_zero_follows_the_machine() {
    assert_eq!(evaluate("1 / 0"), f64::INFINITY);
    assert_eq!(evaluate("-1 / 0"), f64::NEG_INFINITY);
    assert!(evaluate("0 / 0").is_nan());
}

#[test]
fn builder_refuses_pairs_that_are_no_expression() {
    let pairs = MyParser::parse(Rule::bin_op, "+").unwrap();
    assert!(matches!(parse_expr(pairs), Err(MyError::UnreachableError)));
    let pairs = MyParser::parse(Rule::equation, "1 + 2").unwrap();
    assert!(matches!(parse_expr(pairs), Err(MyError::UnreachableError)));
    let pairs = MyParser::parse(Rule::EOI, "").unwrap();
    assert!(matches!(parse_expr(pairs), Err(MyError::UnreachableError)));
    let pairs = MyParser::parse(Rule::atom, "-7").unwrap();
    assert!(matches!(parse_expr(pairs), Ok(Expr::UnaryMinus(_))));
}

#[test]
fn nesting_is_bounded() {
    let deep = |n: usize| format!("{}1{}", "(".repeat(n), ")".repeat(n));
    assert_eq!(evaluate(&deep(128)), 1.0);
    let error = MyParser::parse(Rule::equation, &deep(129)).err().unwrap();
    assert_eq!(error.position, 128);
}

#[test]
fn evaluation_is_repeatable() {
    let text = "8 + 1 - (0.5 / 33.7)";
    let first = format!("{:?}", expression(text));
    let second = format!("{:?}", expression(text));
    assert_eq!(first, second);
    assert_eq!(evaluate(text).to_bits(), evaluate(text).to_bits());
    assert_eq!(evaluate(text), 8.0 + 1.0 - (0.5 / 33.7));
}

#[test]
fn texts_that_are_no_equation_are_refused() {
    let refused = [
        "", " ", "\t", "x", "1 +", "1 + (", "1 % 2", "2 ^ 3", "1 2", "1.", ".5", "1..2", "(", ")",
        "(1", "1)", "((1)", "(1))", "()", "1 + 2 *", "* 2", "1 + + 2", "--1", "1 +\n2", "1e3",
        "1,5", "\u{e9}",
    ];
    for text in refused {
        assert!(
            matches!(eval_expr_from_string(text), Err(MyError::ParseError(_))),
            "{:?} was taken",
            text
        );
    }
    let taken = ["1", " 1 ", "\t1\t", "-1", "- 1", "1--1", "(1)", "( 1 )", "1.0", "0.5", "007"];
    for text in taken {
        assert!(eval_expr_from_string(text).is_ok(), "{:?} was refused", text);
    }
}
