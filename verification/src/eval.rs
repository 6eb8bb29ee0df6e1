//! The evaluator. It lays an expression out as a program for a stack
//! machine: the order in which the literals are read and the operations
//! applied. The arithmetic itself is the caller's, who runs the program
//! on numbers of double precision. Division is the machine's division: the
//! program holds no test for a divisor of zero, which gives an infinity or
//! no number at all, as the standard for such numbers says.

use vstd::prelude::*;
use vstd::string::StringSliceAdditionalSpecFns;
use vstd::utf8::encode_utf8_valid_utf8;
use crate::ast::{ast_of, parse_expr, Ast, Expr, Op};
use crate::error::{error_text, MyError};
use crate::grammar::{equation_of, Failure, MAX_DEPTH};
use crate::parser::MyParser;
use crate::rule::Rule;
use crate::shape::{lemma_expr_shape, lemma_shaped_buildable};
use crate::text::{blanks_end, lemma_ascii_boundary, lemma_blanks_end};

verus! {

/// One step of a program.
#[derive(Debug)]
pub enum Step {
    /// Put the number that the literal writes on the stack.
    Push(String),
    /// Replace the number on top of the stack by its negative.
    Negate,
    /// Take the right operand, then the left one, off the stack and put
    /// the result of the operation there.
    Apply(Op),
}

/// A step as a value of mathematics.
pub ghost enum Instruction {
    Push(Seq<char>),
    Negate,
    Apply(Op),
}

impl View for Step {
    type V = Instruction;

    open spec fn view(&self) -> Instruction {
        match self {
            Step::Push(literal) => Instruction::Push(literal@),
            Step::Negate => Instruction::Negate,
            Step::Apply(op) => Instruction::Apply(*op),
        }
    }
}

/// The steps as values of mathematics.
pub open spec fn instructions(steps: Seq<Step>) -> Seq<Instruction> {
    Seq::new(steps.len(), |k: int| steps[k]@)
}

/// The program of an expression: both operands of an operation are
/// computed, the left one first, and then the operation is applied.
pub open spec fn program_of(ast: Ast) -> Seq<Instruction>
    decreases ast,
{
    match ast {
        Ast::Number(literal) => seq![Instruction::Push(literal)],
        Ast::UnaryMinus(operand) => program_of(*operand).push(Instruction::Negate),
        Ast::BinOp(lhs, op, rhs) => (program_of(*lhs) + program_of(*rhs)).push(
            Instruction::Apply(op),
        ),
    }
}

/// An arithmetic: what a literal is worth, and what the operations do.
#[verifier::reject_recursive_types(V)]
pub ghost struct Arithmetic<V> {
    pub number: spec_fn(Seq<char>) -> V,
    pub negate: spec_fn(V) -> V,
    pub apply: spec_fn(Op, V, V) -> V,
}

/// What an expression is worth in an arithmetic.
pub open spec fn value_of<V>(ast: Ast, arithmetic: Arithmetic<V>) -> V
    decreases ast,
{
    match ast {
        Ast::Number(literal) => (arithmetic.number)(literal),
        Ast::UnaryMinus(operand) => (arithmetic.negate)(value_of(*operand, arithmetic)),
        Ast::BinOp(lhs, op, rhs) => (arithmetic.apply)(
            op,
            value_of(*lhs, arithmetic),
            value_of(*rhs, arithmetic),
        ),
    }
}

/// The stack after one step. A step that finds too few numbers on the
/// stack leaves it as it is.
pub open spec fn step_on<V>(step: Instruction, stack: Seq<V>, arithmetic: Arithmetic<V>) -> Seq<V> {
    match step {
        Instruction::Push(literal) => stack.push((arithmetic.number)(literal)),
        Instruction::Negate => if stack.len() >= 1 {
            stack.drop_last().push((arithmetic.negate)(stack.last()))
        } else {
            stack
        },
        Instruction::Apply(op) => if stack.len() >= 2 {
            stack.drop_last().drop_last().push(
                (arithmetic.apply)(op, stack[stack.len() - 2], stack.last()),
            )
        } else {
            stack
        },
    }
}

/// The stack after the steps of a program, taken in their order.
pub open spec fn run<V>(program: Seq<Instruction>, stack: Seq<V>, arithmetic: Arithmetic<V>) -> Seq<V>
    decreases program.len(),
{
    if program.len() == 0 {
        stack
    } else {
        run(program.drop_first(), step_on(program[0], stack, arithmetic), arithmetic)
    }
}

/// A program of one step takes that step.
pub proof fn lemma_run_one<V>(step: Instruction, stack: Seq<V>, arithmetic: Arithmetic<V>)
    ensures
        run(seq![step], stack, arithmetic) == step_on(step, stack, arithmetic),
{
    reveal_with_fuel(run, 2);
    assert(seq![step].drop_first() =~= Seq::<Instruction>::empty());
}

/// Running one program after another is running the two in a row.
pub proof fn lemma_run_concat<V>(
    first: Seq<Instruction>,
    second: Seq<Instruction>,
    stack: Seq<V>,
    arithmetic: Arithmetic<V>,
)
    ensures
        run(first + second, stack, arithmetic) == run(
            second,
            run(first, stack, arithmetic),
            arithmetic,
        ),
    decreases first.len(),
{
    if first.len() == 0 {
        assert(first + second =~= second);
    } else {
        assert((first + second).drop_first() =~= first.drop_first() + second);
        lemma_run_concat(
            first.drop_first(),
            second,
            step_on(first[0], stack, arithmetic),
            arithmetic,
        );
    }
}

/// In every arithmetic, the program of an expression leaves the stack as
/// it found it and on top of it what the expression is worth: no step
/// finds too few numbers, and every operand has been computed before its
/// operation is applied.
pub proof fn lemma_program_computes_value<V>(ast: Ast, stack: Seq<V>, arithmetic: Arithmetic<V>)
    ensures
        run(program_of(ast), stack, arithmetic) == stack.push(value_of(ast, arithmetic)),
    decreases ast,
{
    match ast {
        Ast::Number(literal) => {
            lemma_run_one(Instruction::Push(literal), stack, arithmetic);
        },
        Ast::UnaryMinus(operand) => {
            let inner = program_of(*operand);
            let last = seq![Instruction::Negate];
            assert(program_of(ast) =~= inner + last);
            lemma_run_concat(inner, last, stack, arithmetic);
            lemma_program_computes_value(*operand, stack, arithmetic);
            let mid = stack.push(value_of(*operand, arithmetic));
            lemma_run_one(Instruction::Negate, mid, arithmetic);
            assert(mid.drop_last() =~= stack);
        },
        Ast::BinOp(lhs, op, rhs) => {
            let left = program_of(*lhs);
            let right = program_of(*rhs);
            let last = seq![Instruction::Apply(op)];
            assert(program_of(ast) =~= (left + right) + last);
            lemma_run_concat(left + right, last, stack, arithmetic);
            lemma_run_concat(left, right, stack, arithmetic);
            lemma_program_computes_value(*lhs, stack, arithmetic);
            let one = stack.push(value_of(*lhs, arithmetic));
            lemma_program_computes_value(*rhs, one, arithmetic);
            let two = one.push(value_of(*rhs, arithmetic));
            lemma_run_one(Instruction::Apply(op), two, arithmetic);
            assert(two.drop_last() =~= one);
            assert(one.drop_last() =~= stack);
        },
    }
}

/// Puts the steps of `expr` at the end of `steps`.
fn emit(expr: Expr, steps: &mut Vec<Step>)
    ensures
        instructions(final(steps)@) == instructions(old(steps)@) + program_of(expr@),
    decreases expr,
{
    let ghost before = instructions(steps@);
    match expr {
        Expr::Number(literal) => {
            steps.push(Step::Push(literal));
            assert(instructions(steps@) =~= before + program_of(expr@));
        },
        Expr::UnaryMinus(operand) => {
            let ghost inner = program_of(operand@);
            emit(*operand, steps);
            let ghost mid = steps@;
            steps.push(Step::Negate);
            assert(instructions(steps@) =~= instructions(mid).push(Instruction::Negate));
            assert(program_of(expr@) =~= inner.push(Instruction::Negate));
            assert(instructions(steps@) =~= before + program_of(expr@));
        },
        Expr::BinOp { lhs, op, rhs } => {
            let ghost left = program_of(lhs@);
            let ghost right = program_of(rhs@);
            emit(*lhs, steps);
            emit(*rhs, steps);
            let ghost mid = steps@;
            steps.push(Step::Apply(op));
            assert(instructions(steps@) =~= instructions(mid).push(Instruction::Apply(op)));
            assert(program_of(expr@) =~= (left + right).push(Instruction::Apply(op)));
            assert(instructions(steps@) =~= before + program_of(expr@));
        },
    }
}

/// Evaluate the given expression as far as this library goes: return the
/// program that computes it. There is no expression for which this fails.
pub fn eval_expr(expr: Expr) -> (r: Result<Vec<Step>, MyError>)
    ensures
        r matches Ok(steps) && instructions(steps@) == program_of(expr@),
{
    let mut steps: Vec<Step> = Vec::new();
    emit(expr, &mut steps);
    assert(instructions(steps@) =~= program_of(expr@));
    Ok(steps)
}

/// The expression that a line writes, or why it writes none.
pub open spec fn expression_of(s: Seq<u8>) -> Result<Ast, Failure> {
    match equation_of(s) {
        Ok(nodes) => Ok(ast_of(s, nodes[0].inner, 0, nodes[0].inner.len() as int)),
        Err(failure) => Err(failure),
    }
}

/// `r` is the answer to the line `s`: the program of the expression that
/// the line writes, or, where it writes none, the parse error with
/// pest's message for the grammar's failure.
pub open spec fn answers(s: &str, r: Result<Vec<Step>, MyError>) -> bool {
    match expression_of(s.spec_bytes()) {
        Ok(ast) => r matches Ok(steps) && instructions(steps@) == program_of(ast),
        Err(failure) => r matches Err(MyError::ParseError(message)) && message@ == error_text(
            s@,
            failure.position,
            failure.expected.spec_rules(),
        ),
    }
}

/// One line has one answer: two answers to the same text hold the same
/// program, step for step, or the same message. No answer depends on an
/// earlier one.
pub proof fn lemma_evaluation_is_deterministic(
    s: &str,
    t: &str,
    first: Result<Vec<Step>, MyError>,
    second: Result<Vec<Step>, MyError>,
)
    requires
        s@ == t@,
        answers(s, first),
        answers(t, second),
    ensures
        match (first, second) {
            (Ok(a), Ok(b)) => instructions(a@) == instructions(b@),
            (Err(MyError::ParseError(a)), Err(MyError::ParseError(b))) => a@ == b@,
            _ => false,
        },
{
}

/// Evaluate an expression from a string input: return the program that
/// computes it, or the parse error that says where the string stops
/// being an expression.
pub fn eval_expr_from_string(s: &str) -> (r: Result<Vec<Step>, MyError>)
    ensures
        answers(s, r),
{
    match MyParser::parse(Rule::equation, s) {
        Ok(mut pairs) => {
            proof {
                let bytes = s.spec_bytes();
                lemma_blanks_end(bytes, 0);
                lemma_expr_shape(bytes, blanks_end(bytes, 0), MAX_DEPTH as nat);
                lemma_shaped_buildable(bytes, pairs@[0].inner, MAX_DEPTH as nat);
            }
            match pairs.next() {
                Some(first) => match parse_expr(first.into_inner()) {
                    Ok(expr) => eval_expr(expr),
                    Err(e) => Err(e),
                },
                None => Err(MyError::UnreachableError),
            }
        },
        Err(e) => {
            proof {
                encode_utf8_valid_utf8(s@);
                lemma_ascii_boundary(s.spec_bytes(), e.position as int, e.position as int);
            }
            match e.describe(s) {
                Some(message) => Err(MyError::ParseError(message)),
                None => Err(MyError::Unknown),
            }
        },
    }
}

} // verus!
