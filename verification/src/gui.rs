//! What the entry fields of a window hold, and how their text is kept
//! numeric.

use vstd::prelude::*;
use vstd::string::{StrSliceExecFns, StringExecFns};
use crate::parse::is_digit;
use crate::text::chars_of;

pub mod state;

verus! {

/// Whether `c` may stand in a number that is being typed: a digit or a
/// point.
pub open spec fn is_numeric(c: char) -> bool {
    is_digit(c) || c == '.'
}

/// How many characters at the front of `text` may stand in a number.
pub open spec fn numeric_prefix(text: Seq<char>) -> nat
    decreases text.len(),
{
    if text.len() > 0 && is_numeric(text[0]) {
        1 + numeric_prefix(text.skip(1))
    } else {
        0
    }
}

/// Cuts `input` off before its first character that is neither a digit nor
/// a point.
pub fn fix_numeric_str(input: &mut String)
    ensures
        final(input)@ == old(input)@.take(numeric_prefix(old(input)@) as int),
{
    let chars: Vec<char> = chars_of(input.as_str());
    let n: usize = chars.len();
    let mut idx: usize = 0;
    assert(chars@.skip(0) =~= chars@);
    while idx < n && (('0' <= chars[idx] && chars[idx] <= '9') || chars[idx] == '.')
        invariant
            n == chars.len(),
            idx <= n,
            numeric_prefix(chars@) == idx + numeric_prefix(chars@.skip(idx as int)),
        decreases n - idx,
    {
        assert(chars@.skip(idx as int).skip(1) =~= chars@.skip(idx + 1));
        idx = idx + 1;
    }
    if idx < n {
        let kept: String = String::from_str(input.as_str().substring_char(0, idx));
        *input = kept;
    }
}

} // verus!
