//! What a scan tells the user: that it starts, and how many meshes it found.

use vstd::prelude::*;

verus! {

/// The line that announces a scan.
pub const SCAN_BANNER: &'static str = "\nScanning for meshes to webify...";

/// The decimal digits of `n`, without sign, padding or leading zeros.
pub open spec fn decimal(n: nat) -> Seq<char>
    decreases n,
{
    if n < 10 {
        seq!["0123456789"@[n as int]]
    } else {
        decimal(n / 10).push("0123456789"@[(n % 10) as int])
    }
}

/// `text` between the escape sequences that make a terminal show it blue and bold, and
/// the one that resets the terminal after it.
pub open spec fn blue_bold(text: Seq<char>) -> Seq<char> {
    "\x1b[34m\x1b[1m"@ + text + "\x1b[0m"@
}

/// The line that reports a count of meshes, where `count` is the count as it is to be shown.
pub open spec fn found_text(count: Seq<char>) -> Seq<char> {
    "Meshes found: "@ + count + "\n"@
}

/// The count `count` in bold and blue: the text that `to_string` gives for console's
/// `style(count).bold().blue()`.
///
/// The contract is taken on trust. It says of console that it shows the value as a
/// `usize` is displayed, by its decimal digits; that it puts the escape sequence for a
/// blue foreground and the one for bold before the digits, and the one that resets both
/// after them, where it has colours switched on for the standard output; and that it
/// adds nothing where it has them switched off. Which of the two holds is for console to
/// say: it goes by the terminal and the environment of the process.
#[verifier::external_body]
fn styled_count(count: usize) -> (text: String)
    ensures
        text@ == decimal(count as nat) || text@ == blue_bold(decimal(count as nat)),
{
    console::style(count).bold().blue().to_string()
}

/// The line that reports a count of meshes which is shown as `count`.
pub fn found_line_with(count: &str) -> (line: String)
    ensures
        line@ == found_text(count@),
{
    let mut line = String::from_str("Meshes found: ");
    line.append(count);
    line.append("\n");
    line
}

/// The line that reports that `count` meshes were found. It shows the count in decimal,
/// in blue and bold where colours are switched on.
pub fn found_line(count: usize) -> (line: String)
    ensures
        line@ == found_text(decimal(count as nat)) || line@ == found_text(
            blue_bold(decimal(count as nat)),
        ),
{
    let shown = styled_count(count);
    found_line_with(shown.as_str())
}

} // verus!
