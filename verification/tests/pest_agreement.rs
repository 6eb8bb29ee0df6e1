use arithmetic_parser_smetaniuk::{MyParser, Pair, Rule};
use pest::error::{ErrorVariant, InputLocation};

const GRAMMAR: &str = r#"
WHITESPACE  = _{ " " | "\t" }
number      = @{ ASCII_DIGIT+ ~ ("." ~ ASCII_DIGIT+)? }
unary_minus =  { "-" }
primary     = _{ number | "(" ~ expr ~ ")" }
atom        = _{ unary_minus? ~ primary }
bin_op      = _{ add | subtract | multiply | divide }
add         =  { "+" }
subtract    =  { "-" }
multiply    =  { "*" }
divide      =  { "/" }
expr        =  { atom ~ (bin_op ~ atom)* }
equation    = _{ SOI ~ expr ~ EOI }
"#;

const RULES: [Rule; 12] = [
    Rule::EOI,
    Rule::equation,
    Rule::expr,
    Rule::atom,
    Rule::primary,
    Rule::number,
    Rule::unary_minus,
    Rule::bin_op,
    Rule::add,
    Rule::subtract,
    Rule::multiply,
    Rule::divide,
];

fn machine() -> pest_vm::Vm {
    let (_, rules) = pest_meta::parse_and_optimize(GRAMMAR).expect("the grammar is well formed");
    pest_vm::Vm::new(rules)
}

fn flatten_ours(pair: &Pair<'_>, depth: usize, out: &mut Vec<(String, usize, usize, usize)>) {
    out.push((
        format!("{:?}", pair.as_rule()),
        pair.as_span().start(),
        pair.as_span().end(),
        depth,
    ));
    for inner in pair.inner() {
        flatten_ours(inner, depth + 1, out);
    }
}

fn flatten_theirs(
    pair: pest::iterators::Pair<'_, &str>,
    depth: usize,
    out: &mut Vec<(String, usize, usize, usize)>,
) {
    out.push((
        pair.as_rule().to_string(),
        pair.as_span().start(),
        pair.as_span().end(),
        depth,
    ));
    for inner in pair.into_inner() {
        flatten_theirs(inner, depth + 1, out);
    }
}

type Outcome = Result<Vec<(String, usize, usize, usize)>, (usize, Vec<String>)>;

fn ours(rule: Rule, input: &str) -> Outcome {
    match MyParser::parse(rule, input) {
        Ok(mut pairs) => {
            let mut out = Vec::new();
            while let Some(pair) = pairs.next() {
                flatten_ours(&pair, 0, &mut out);
            }
            Ok(out)
        }
        Err(e) => {
            let mut names: Vec<String> =
                e.expected.rules().iter().map(|r| format!("{:?}", r)).collect();
            names.sort();
            Err((e.position, names))
        }
    }
}

fn theirs(vm: &pest_vm::Vm, rule: Rule, input: &str) -> Outcome {
    let name = format!("{:?}", rule);
    match vm.parse(&name, input) {
        Ok(pairs) => {
            let mut out = Vec::new();
            for pair in pairs {
                flatten_theirs(pair, 0, &mut out);
            }
            Ok(out)
        }
        Err(e) => {
            let position = match e.location {
                InputLocation::Pos(p) => p,
                InputLocation::Span((p, _)) => p,
            };
            let mut names: Vec<String> = match e.variant {
                ErrorVariant::ParsingError { positives, .. } => {
                    positives.iter().map(|r| r.to_string()).collect()
                }
                ErrorVariant::CustomError { .. } => Vec::new(),
            };
            names.sort();
            Err((position, names))
        }
    }
}

fn compare_all(vm: &pest_vm::Vm, input: &str) {
    for rule in RULES {
        assert_eq!(
            ours(rule, input),
            theirs(vm, rule, input),
            "rule {:?} on {:?}",
            rule,
            input
        );
    }
}

#[test]
fn agrees_with_pest_on_chosen_texts() {
    let vm = machine();
    let texts = [
        "",
        " ",
        "8",
        "8 ",
        " 8",
        "1.234",
        "1.",
        ".5",
        "1..2",
        "1.2.3",
        "1 .5",
        "x",
        "1 +",
        "1 + ",
        "1 + (",
        "1 % 2",
        "x +",
        "x + (",
        "2 + 3 * 4",
        "2 - 3 - 4",
        "-2 * 3",
        "(1 + 2) * 3",
        "8 + 1 - (0.5 / 33.7)",
        "--1",
        "- 1",
        "-(1)",
        "-(-1)",
        "1--1",
        "1 - -1",
        "1 - - 1",
        "()",
        "( )",
        "(1",
        "(1 ",
        "(1 2",
        "(1 + 2 3",
        "( 1 )",
        "( 1 ) ",
        "((1))",
        "(( 1 ) )",
        "1)",
        "1 2",
        "1 + 2 ",
        "1\t+\t2",
        "1\n",
        "1 + \u{e9}",
        "\u{e9}",
        "1\u{e9}",
        "(1 + 2) * (3 - -4) / 5",
        "1 + * 2",
        "1 * (2 + )",
        "1 * (2 + 3",
        "+",
        "-",
        "*",
        "/",
        "%",
        "-x",
        "- (x",
    ];
    for text in texts {
        compare_all(&vm, text);
    }
}

#[test]
fn agrees_with_pest_on_all_short_texts() {
    let vm = machine();
    let pieces = ["1", "2.5", " ", "+", "-", "*", "(", ")", ".", "x"];
    let mut texts: Vec<String> = vec![String::new()];
    let mut start = 0;
    for _ in 0..4 {
        let end = texts.len();
        for k in start..end {
            for piece in pieces {
                let mut text = texts[k].clone();
                text.push_str(piece);
                texts.push(text);
            }
        }
        start = end;
    }
    for text in &texts {
        let rule = Rule::equation;
        assert_eq!(ours(rule, text), theirs(&vm, rule, text), "on {:?}", text);
        let rule = Rule::expr;
        assert_eq!(ours(rule, text), theirs(&vm, rule, text), "on {:?}", text);
    }
}
