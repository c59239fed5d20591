//! The lines that the scanner prints.

use crate::decimal::{decimal_text, format_u16};
use vstd::prelude::*;
use vstd::string::*;

verus! {

/// How the scanner is called.
pub const USAGE: &'static str = "Usage: port-sniff -j [Number of threads] [ip_address]";

/// The lines to print for the command line error `error`: the error
/// itself, unless it is the plain request for help, and then the usage.
pub open spec fn complaint(error: Seq<char>) -> Seq<Seq<char>> {
    if error == "help"@ {
        seq![USAGE@]
    } else {
        seq![error, USAGE@]
    }
}

/// Composes the lines to print after a command line was refused with
/// `error`.
pub fn usage_lines(error: &'static str) -> (lines: Vec<&'static str>)
    ensures
        lines.deep_view() == complaint(error@),
{
    let mut lines: Vec<&'static str> = Vec::new();
    if String::from_str(error) != String::from_str("help") {
        lines.push(error);
    }
    lines.push(USAGE);
    assert(lines.deep_view() =~= complaint(error@));
    lines
}

/// The line that announces `port` as open: the port in decimal notation,
/// then the words "is open".
pub open spec fn announcement(port: u16) -> Seq<char> {
    decimal_text(port as nat) + " is open"@
}

/// Composes the line that announces `port` as open.
pub fn report_line(port: u16) -> (line: String)
    ensures
        line@ == announcement(port),
{
    let mut line = format_u16(port);
    line.append(" is open");
    line
}

} // verus!
