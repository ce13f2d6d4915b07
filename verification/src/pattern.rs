//! The grammar written down as one regular expression, for callers that
//! hand it to a regular expression engine.

use vstd::prelude::*;

verus! {

/// The seven categories as one alternation, in the order in which they are
/// tried.
pub const ANSI_REGEX_PATTERN: &'static str =
    "(?:\\x1B\\][^\\x07\\x1B\\x9C]*?(?:\\x07|\\x1B\\\\|\\x9C))|(?:\\x1B\\[[\\[\\]()#;?]*(?:[0-9]{1,4}(?:[;:][0-9]{0,4})*)?[0-9A-PR-TZcf-nq-uy=><~])|(?:\\x9B[\\[\\]()#;?]*(?:[0-9]{1,4}(?:[;:][0-9]{0,4})*)?[0-9A-PR-TZcf-nq-uy=><~])|(?:\\x1B[ABCDHIKJSTZ=><sum78EMcNO])|(?:\\x1B[()][AB012])|(?:\\x1B#[34568])|(?:\\x1B[0-9]+n)";

/// The text of the pattern.
pub open spec fn pattern_text() -> Seq<char> {
    ANSI_REGEX_PATTERN@
}

/// The pattern as a string.
pub fn pattern() -> (r: &'static str)
    ensures
        r@ == pattern_text(),
{
    ANSI_REGEX_PATTERN
}

} // verus!
