//! What the command line decides: which mode to run in, when the console
//! is left, and how an answer is written down. Reading and writing are the
//! program's.

use vstd::prelude::*;
use vstd::string::{StringExecFns, StringSliceAdditionalSpecFns};
use crate::error::MyError;

verus! {

/// How the program runs.
#[derive(Debug)]
pub enum Mode {
    /// Lines are read from the console and answered one by one.
    Console,
    /// The lines of the file are answered into a file beside it.
    File(String),
}

/// `:`
pub const COLON: u8 = 0x3a;

/// `q`
pub const LETTER_Q: u8 = 0x71;

/// The mode that the flags ask for. The console and a file cannot be had
/// together, and without the console a file must be named.
pub fn select_mode(console: bool, file: Option<String>) -> (r: Result<Mode, MyError>)
    ensures
        match r {
            Ok(Mode::Console) => console && file is None,
            Ok(Mode::File(name)) => !console && file == Some(name),
            Err(MyError::CLIError(message)) => {
                ||| console && file is Some && message@
                    == "Cannot use console mode and file mode at the same time."@
                ||| !console && file is None && message@ == "No file specified."@
            },
            Err(_) => false,
        },
{
    match file {
        Some(name) => {
            if console {
                Err(
                    MyError::CLIError(
                        String::from_str("Cannot use console mode and file mode at the same time."),
                    ),
                )
            } else {
                Ok(Mode::File(name))
            }
        },
        None => {
            if console {
                Ok(Mode::Console)
            } else {
                Err(MyError::CLIError(String::from_str("No file specified.")))
            }
        },
    }
}

/// The bytes hold a colon and the letter q after it.
pub open spec fn holds_exit(s: Seq<u8>) -> bool {
    exists|k: int| 0 <= k && k + 1 < s.len() && #[trigger] s[k] == COLON && s[k + 1] == LETTER_Q
}

/// Whether the line asks to leave the console: it does where `:q` stands
/// anywhere in it.
pub fn is_exit_command(line: &str) -> (yes: bool)
    ensures
        yes == holds_exit(line.spec_bytes()),
{
    let bytes: &[u8] = line.as_bytes();
    if bytes.len() < 2 {
        return false;
    }
    let mut k: usize = 0;
    while k < bytes.len() - 1
        invariant
            bytes@ == line.spec_bytes(),
            bytes@.len() >= 2,
            forall|j: int| 0 <= j < k ==> !(#[trigger] bytes@[j] == COLON && bytes@[j + 1] == LETTER_Q),
        decreases bytes@.len() - k,
    {
        if bytes[k] == COLON && bytes[k + 1] == LETTER_Q {
            return true;
        }
        k = k + 1;
    }
    false
}

/// The name of the file that the answers to the lines of `file` go to.
pub fn output_path(file: &str) -> (path: String)
    ensures
        path@ == file@ + ".out"@,
{
    String::from_str(file).concat(".out")
}

/// The answer to a line: the line, an equals sign between two spaces, and
/// the result.
pub fn report_line(line: &str, result: &str) -> (report: String)
    ensures
        report@ == line@ + " = "@ + result@,
{
    String::from_str(line).concat(" = ").concat(result)
}

} // verus!
