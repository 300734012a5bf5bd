use vstd::prelude::*;

use crate::text::chars_of;

verus! {

/// The points for a word of `len` letters in the solver's fixed table.
pub open spec fn points_for_letters(len: nat) -> nat {
    if len <= 2 {
        0
    } else if len <= 4 {
        1
    } else if len == 5 {
        2
    } else if len == 6 {
        3
    } else if len == 7 {
        5
    } else {
        11
    }
}

/// The points for `word` by its number of letters: nothing up to 2, then 1, 1, 2, 3, 5,
/// and 11 from 8 on.
pub fn score_word(word: &str) -> (r: usize)
    ensures
        r == points_for_letters(word@.len()),
{
    let len = chars_of(word).len();
    if len <= 2 {
        0
    } else if len <= 4 {
        1
    } else if len == 5 {
        2
    } else if len == 6 {
        3
    } else if len == 7 {
        5
    } else {
        11
    }
}

} // verus!
