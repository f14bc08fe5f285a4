//! The evaluator's two contact points with the host: writing to standard
//! output and reading a line from standard input.

use vstd::prelude::*;
use std::io::Write;

verus! {

/// Writes text to standard output and flushes it.
///
/// Relies on `std::io::Stdout::write_all` and `flush`: the bytes are handed
/// to the host's output stream; nothing about the program's values depends on
/// whether the write succeeded.
#[verifier::external_body]
pub fn write_stdout(s: &str) {
    let mut out = std::io::stdout();
    let _ = out.write_all(s.as_bytes());
    let _ = out.flush();
}

/// Reads one line from standard input, including its newline when one was
/// typed.
///
/// Relies on `std::io::Stdin::read_line`: what comes back depends on the
/// environment, so nothing is promised of the text; `None` reports a read
/// failure.
#[verifier::external_body]
pub fn read_line_stdin() -> (r: Option<String>)
{
    let mut input = String::new();
    match std::io::stdin().read_line(&mut input) {
        Ok(_) => Some(input),
        Err(_) => None,
    }
}

} // verus!
