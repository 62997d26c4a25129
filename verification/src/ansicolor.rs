//! ANSI terminal coloring: wrap a piece of text in the escape sequences
//! that turn the foreground color on and back off again.

use vstd::prelude::*;

verus! {

/// Wraps `text` in the ANSI escape sequences for green foreground text.
pub fn green(text: &str) -> (r: String)
    ensures
        r@ == "\u{1b}[32m"@ + text@ + "\u{1b}[39m"@,
{
    let mut colored = "\u{1b}[32m".to_owned();
    colored.append(text);
    colored.append("\u{1b}[39m");
    colored
}

/// Wraps `text` in the ANSI escape sequences for red foreground text.
pub fn red(text: &str) -> (r: String)
    ensures
        r@ == "\u{1b}[31m"@ + text@ + "\u{1b}[39m"@,
{
    let mut colored = "\u{1b}[31m".to_owned();
    colored.append(text);
    colored.append("\u{1b}[39m");
    colored
}

} // verus!
