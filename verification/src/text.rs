//! Terminal text decoration.

use vstd::prelude::*;
use vstd::string::StringExecFns;

verus! {

/// What `text` looks like struck through on an ANSI terminal: the escape
/// sequence that switches strikethrough on, the text itself, and the
/// sequence that resets every attribute.
pub open spec fn strikethrough_spec(text: Seq<char>) -> Seq<char> {
    "\x1b[9m"@ + text + "\x1b[0m"@
}

/// Wraps `text` in the ANSI escape sequences that strike it through.
pub fn text_to_strikethrough(text: &str) -> (decorated: String)
    ensures
        decorated@ == strikethrough_spec(text@),
{
    let mut decorated = String::from_str("\x1b[9m");
    decorated.append(text);
    decorated.append("\x1b[0m");
    decorated
}

} // verus!
