//! The greeting sent back to the front end as a connectivity check.

use vstd::prelude::*;
use vstd::string::*;

verus! {

/// The greeting for `name`: a fixed opening, the name as given, and a fixed
/// closing. Nothing is trimmed, escaped or validated.
pub open spec fn greeting(name: Seq<char>) -> Seq<char> {
    "Hello, "@ + name + "! You've been greeted from Rust!"@
}

/// Formats the greeting for `name`. Every name is accepted, the empty one too.
pub fn greet(name: &str) -> (text: String)
    ensures
        text@ == greeting(name@),
{
    let mut text = String::from_str("Hello, ");
    text.append(name);
    text.append("! You've been greeted from Rust!");
    text
}

} // verus!
