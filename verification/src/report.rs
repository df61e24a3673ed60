//! The report of a syntax error, as a text to show.

use crate::lexis::{run_end, Run, NEWLINE};
use crate::number::{decimal_text, push_decimal};
use crate::parser::SyntaxError;
use crate::text::{slice, text};
use vstd::prelude::*;
use vstd::string::*;

verus! {

/// The report of `error` in the source `src`: the message with the line
/// of the error; the source from the start of the error to the end of the
/// line on which the error ends; and a mark below it.
///
/// ```text
/// Syntax error at line 3: Expect ';' or '{'.
///    |
/// 3  | size 8080
///    | ^
///
/// ```
pub open spec fn report(src: Seq<u8>, error: SyntaxError) -> Seq<char> {
    let line = decimal_text(error.line as nat);
    let stop = run_end(src, error.end as int, Run::Line);
    "Syntax error at line "@ + line + ": "@ + error.message@ + "\n"@ + "   |\n"@ + line + "  | "@
        + text(src, error.start as int, error.end as int) + text(src, error.end as int, stop)
        + "\n"@ + "   | ^\n\n"@
}

/// The report of `error`, an error in `source`.
pub fn render(source: &str, error: &SyntaxError) -> (r: String)
    requires
        error.reportable(source.spec_bytes()),
    ensures
        r@ == report(source.spec_bytes(), *error),
{
    let ghost src = source.spec_bytes();
    let bytes = source.as_bytes();
    let mut stop = error.end;
    while stop < bytes.len() && bytes[stop] != NEWLINE
        invariant
            bytes@ == src,
            error.end <= stop <= src.len(),
            run_end(src, error.end as int, Run::Line) == run_end(src, stop as int, Run::Line),
        decreases src.len() - stop,
    {
        stop = stop + 1;
    }
    let mut out = String::new();
    out.append("Syntax error at line ");
    push_decimal(&mut out, error.line as u64);
    out.append(": ");
    out.append(error.message);
    out.append("\n");
    out.append("   |\n");
    push_decimal(&mut out, error.line as u64);
    out.append("  | ");
    out.append(slice(source, error.start, error.end));
    out.append(slice(source, error.end, stop));
    out.append("\n");
    out.append("   | ^\n\n");
    out
}

} // verus!
