use arithmetic_parser_smetaniuk::cli::{
    is_exit_command, output_path, report_line, select_mode, Mode,
};
use arithmetic_parser_smetaniuk::{Expected, MyError, MyParser, Rule};

#[test]
fn console_mode_is_selected() {
    assert!(matches!(select_mode(true, None), Ok(Mode::Console)));
}

#[test]
fn file_mode_is_selected() {
    match select_mode(false, Some("sums.txt".to_string())) {
        Ok(Mode::File(name)) => assert_eq!(name, "sums.txt"),
        other => panic!("{:?}", other),
    }
}

#[test]
fn console_and_file_together_are_refused() {
    match select_mode(true, Some("sums.txt".to_string())) {
        Err(MyError::CLIError(message)) => assert_eq!(
            message,
            "Cannot use console mode and file mode at the same time."
        ),
        other => panic!("{:?}", other),
    }
}

#[test]
fn neither_console_nor_file_is_refused() {
    match select_mode(false, None) {
        Err(MyError::CLIError(message)) => assert_eq!(message, "No file specified."),
        other => panic!("{:?}", other),
    }
}

#[test]
fn exit_command_is_found_anywhere_in_the_line() {
    assert!(is_exit_command(":q"));
    assert!(is_exit_command("1 + 2 :q"));
    assert!(is_exit_command(":quit"));
    assert!(is_exit_command("::q"));
    assert!(!is_exit_command(""));
    assert!(!is_exit_command(":"));
    assert!(!is_exit_command("q"));
    assert!(!is_exit_command("q:"));
    assert!(!is_exit_command(": q"));
    assert!(!is_exit_command("1 + 2"));
    assert!(is_exit_command("\u{e9}:q"));
}

#[test]
fn output_file_stands_beside_the_input_file() {
    assert_eq!(output_path("sums.txt"), "sums.txt.out");
    assert_eq!(output_path(""), ".out");
}

#[test]
fn report_joins_line_and_result() {
    assert_eq!(report_line("2 + 3 * 4", "14"), "2 + 3 * 4 = 14");
    assert_eq!(report_line("1 / 0", &f64::INFINITY.to_string()), "1 / 0 = inf");
}

#[test]
fn errors_say_their_kind() {
    assert_eq!(MyError::IOError("disk".to_string()).message(), "io error");
    assert_eq!(MyError::ParseError("x".to_string()).message(), "parse error");
    assert_eq!(MyError::Unknown.message(), "unknown error");
    assert_eq!(MyError::CLIError("x".to_string()).message(), "cli error");
    assert_eq!(MyError::UnreachableError.message(), "ureachale error");
}

#[test]
fn expected_rules_are_listed_in_order() {
    assert_eq!(Expected::One(Rule::expr).rules(), vec![Rule::expr]);
    assert_eq!(Expected::Atom.rules(), vec![Rule::number, Rule::unary_minus]);
    assert_eq!(
        Expected::Operator.rules(),
        vec![Rule::add, Rule::subtract, Rule::multiply, Rule::divide]
    );
    assert_eq!(
        Expected::OperatorOrEnd.rules(),
        vec![Rule::EOI, Rule::add, Rule::subtract, Rule::multiply, Rule::divide]
    );
}

#[test]
fn expected_rules_of_the_named_errors() {
    let expected = |text: &str| MyParser::parse(Rule::equation, text).err().unwrap().expected;
    assert_eq!(expected(""), Expected::One(Rule::expr));
    assert_eq!(expected("x"), Expected::One(Rule::expr));
    assert_eq!(expected("1 +"), Expected::Atom);
    assert_eq!(expected("1 + ("), Expected::One(Rule::expr));
    assert_eq!(expected("1 % 2"), Expected::OperatorOrEnd);
    assert_eq!(expected("(1 2)"), Expected::Operator);
    assert_eq!(expected("-x"), Expected::One(Rule::number));
}

#[test]
fn pairs_are_handed_out_from_the_front() {
    let mut pairs = MyParser::parse(Rule::equation, "-1 + 2").unwrap();
    assert_eq!(pairs.len(), 2);
    let expr = pairs.next().unwrap();
    assert_eq!(expr.as_rule(), Rule::expr);
    assert_eq!(pairs.len(), 1);
    let end = pairs.next().unwrap();
    assert_eq!(end.as_rule(), Rule::EOI);
    assert_eq!(end.as_str(), "");
    assert_eq!(end.as_span().start(), 6);
    assert!(pairs.next().is_none());
    assert!(pairs.next().is_none());
    let mut inner = expr.into_inner();
    let rules: Vec<Rule> = std::iter::from_fn(|| inner.next()).map(|p| p.as_rule()).collect();
    assert_eq!(rules, vec![Rule::unary_minus, Rule::number, Rule::add, Rule::number]);
}
