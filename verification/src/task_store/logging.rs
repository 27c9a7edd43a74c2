//! Texts in the log lines of the store.

use crate::text;
use crate::text::clip;
use vstd::prelude::*;

verus! {

/// The first characters of a text, marked where there are more.
pub fn summarize_text_for_log(input: &str, max_chars: usize) -> (r: String)
    ensures
        r@ == text::clipped(input@, max_chars as int),
{
    clip(input, max_chars)
}

} // verus!
