//! Logic of the command-line front ends that does not touch the terminal.
use vstd::prelude::*;
use vstd::string::StringExecFns;

use crate::loader::Error;
use crate::text::str_eq;

pub mod cargo_build;
pub mod opts;
pub mod profile;
pub mod workload;

verus! {

/// Decimal notation of `n`.
pub open spec fn decimal(n: nat) -> Seq<char>
    decreases n,
{
    if n < 10 {
        seq![digit_char(n)]
    } else {
        decimal(n / 10) + seq![digit_char(n % 10)]
    }
}

pub open spec fn digit_char(d: nat) -> char {
    (48 + d) as char
}

/// The one-character string of the digit `d`.
fn digit_str(d: u64) -> (r: &'static str)
    requires
        d < 10,
    ensures
        r@ == seq![digit_char(d as nat)],
{
    proof {
        reveal_strlit("0");
        reveal_strlit("1");
        reveal_strlit("2");
        reveal_strlit("3");
        reveal_strlit("4");
        reveal_strlit("5");
        reveal_strlit("6");
        reveal_strlit("7");
        reveal_strlit("8");
        reveal_strlit("9");
    }
    if d == 0 {
        "0"
    } else if d == 1 {
        "1"
    } else if d == 2 {
        "2"
    } else if d == 3 {
        "3"
    } else if d == 4 {
        "4"
    } else if d == 5 {
        "5"
    } else if d == 6 {
        "6"
    } else if d == 7 {
        "7"
    } else if d == 8 {
        "8"
    } else {
        "9"
    }
}

/// `n` in decimal notation.
pub(crate) fn decimal_string(n: u64) -> (r: String)
    ensures
        r@ == decimal(n as nat),
    decreases n,
{
    if n < 10 {
        String::from_str(digit_str(n))
    } else {
        let mut s = decimal_string(n / 10);
        s.append(digit_str(n % 10));
        s
    }
}

/// The message a front end reports for a load error on `file` (`-` being
/// standard input).
pub open spec fn loader_message(e: Error, file: Seq<char>) -> Seq<char> {
    match e {
        Error::Io(_) => if file == "-"@ {
            "flameview: unable to read stdin"@
        } else {
            "flameview: unable to read "@ + file
        },
        Error::BadLine(line) => "flameview: parse error on line "@ + decimal(line as nat),
        Error::TooLarge(line) => "flameview: input too large at line "@ + decimal(line as nat),
    }
}

pub fn map_loader_err(e: &Error, file: &str) -> (r: String)
    ensures
        r@ == loader_message(*e, file@),
{
    match e {
        Error::Io(_) => {
            if str_eq(file, "-") {
                String::from_str("flameview: unable to read stdin")
            } else {
                let mut s = String::from_str("flameview: unable to read ");
                s.append(file);
                s
            }
        },
        Error::BadLine(line) => {
            let s = String::from_str("flameview: parse error on line ");
            let n = decimal_string(*line as u64);
            s.concat(n.as_str())
        },
        Error::TooLarge(line) => {
            let s = String::from_str("flameview: input too large at line ");
            let n = decimal_string(*line as u64);
            s.concat(n.as_str())
        },
    }
}

/// The message for a tool that could not be started: one that is missing
/// gets its own message, any other failure is passed on.
pub open spec fn exec_failure_message(tool: Seq<char>, not_found: bool, detail: Seq<char>) -> Seq<char> {
    if not_found {
        "failed to execute `"@ + tool + "`: not found in PATH"@
    } else {
        "failed to execute `"@ + tool + "`: "@ + detail
    }
}

pub fn exec_failure(tool: &str, not_found: bool, detail: &str) -> (r: String)
    ensures
        r@ == exec_failure_message(tool@, not_found, detail@),
{
    let mut s = String::from_str("failed to execute `");
    s.append(tool);
    if not_found {
        s.append("`: not found in PATH");
    } else {
        s.append("`: ");
        s.append(detail);
    }
    s
}

} // verus!
