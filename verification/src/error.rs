//! What can go wrong.

use vstd::prelude::*;
use vstd::string::{StringExecFns, StringSliceAdditionalSpecFns};
use vstd::utf8::is_char_boundary;
use crate::grammar::Failure;
use crate::rule::{Expected, Rule};

verus! {

/// The grammar engine's refusal of a text.
#[derive(Clone, Copy, Debug, PartialEq, Eq, Structural)]
pub struct SyntaxError {
    /// The byte offset at which nothing matched any more.
    pub position: usize,
    /// What would have matched there.
    pub expected: Expected,
}

impl View for SyntaxError {
    type V = Failure;

    open spec fn view(&self) -> Failure {
        Failure { position: self.position as int, expected: self.expected }
    }
}

/// The message that pest writes for a parsing error at `position` of
/// `text` at which the rules `expected` were looked for: the line and the
/// column, the line itself with a mark under the position, and the names
/// of the rules.
pub uninterp spec fn error_text(text: Seq<char>, position: int, expected: Seq<Rule>) -> Seq<char>;

/// `Error::new_from_pos` on a `ParsingError` with `expected` as its
/// positives, at the `Position` of `position` in `input`, written out by
/// the error's `Display`. No position is made off a character's boundary.
#[verifier::external_body]
fn pest_message(input: &str, position: usize, expected: Vec<Rule>) -> (message: String)
    requires
        is_char_boundary(input.spec_bytes(), position as int),
    ensures
        message@ == error_text(input@, position as int, expected@),
{
    let at = pest::Position::new(input, position).unwrap();
    let variant = pest::error::ErrorVariant::ParsingError {
        positives: expected,
        negatives: Vec::new(),
    };
    pest::error::Error::new_from_pos(variant, at).to_string()
}

impl SyntaxError {
    /// The error as a message over the text it was found in. There is none
    /// where the position is none of `input`'s: beyond its end, or inside
    /// one of its characters.
    pub fn describe(&self, input: &str) -> (message: Option<String>)
        ensures
            message is Some <==> is_char_boundary(input.spec_bytes(), self.position as int),
            message matches Some(text) ==> text@ == error_text(
                input@,
                self.position as int,
                self.expected.spec_rules(),
            ),
    {
        if input.is_char_boundary(self.position) {
            Some(pest_message(input, self.position, self.expected.rules()))
        } else {
            None
        }
    }
}

/// The errors of the calculator.
#[derive(Debug)]
pub enum MyError {
    /// Reading or writing failed; the message says how.
    IOError(String),
    /// The text is no expression; the message shows where it stops being one.
    ParseError(String),
    /// None of the others.
    Unknown,
    /// The command line asks for something that cannot be done.
    CLIError(String),
    /// Parse nodes came in a shape that the grammar does not produce.
    UnreachableError,
}

impl MyError {
    /// What the error says of itself.
    pub open spec fn spec_message(&self) -> Seq<char> {
        match self {
            MyError::IOError(_) => "io error"@,
            MyError::ParseError(_) => "parse error"@,
            MyError::Unknown => "unknown error"@,
            MyError::CLIError(_) => "cli error"@,
            MyError::UnreachableError => "ureachale error"@,
        }
    }

    /// What the error says of itself: its kind, without what it holds.
    pub fn message(&self) -> (text: String)
        ensures
            text@ == self.spec_message(),
    {
        match self {
            MyError::IOError(_) => String::from_str("io error"),
            MyError::ParseError(_) => String::from_str("parse error"),
            MyError::Unknown => String::from_str("unknown error"),
            MyError::CLIError(_) => String::from_str("cli error"),
            MyError::UnreachableError => String::from_str("ureachale error"),
        }
    }
}

} // verus!
