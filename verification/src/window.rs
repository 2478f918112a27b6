//! A short text that shows the touched levels of a stack, for a progress
//! line.

use vstd::prelude::*;
use crate::level::LevelState;

verus! {

/// The most levels that a window shows.
pub const WINDOW_LIMIT: usize = 255;

/// The lowest untouched level at or above `i`, or the height of the stack
/// if there is none.
pub open spec fn first_untouched(levels: Seq<LevelState>, i: int) -> int
    decreases levels.len() - i,
{
    if i < 0 || i >= levels.len() {
        levels.len() as int
    } else if levels[i] is Empty {
        i
    } else {
        first_untouched(levels, i + 1)
    }
}

/// How many levels the window of a stack shows: the touched levels at the
/// bottom of the stack, up to the limit.
pub open spec fn extent(levels: Seq<LevelState>) -> int {
    if first_untouched(levels, 0) <= WINDOW_LIMIT {
        first_untouched(levels, 0)
    } else {
        WINDOW_LIMIT as int
    }
}

/// The window of a stack: one character for each level that it shows,
/// level 0 first.
pub open spec fn window(levels: Seq<LevelState>) -> Seq<char> {
    Seq::new(extent(levels) as nat, |k: int| levels[k].glyph())
}

/// The lowest untouched level at or above `i` lies between `i` and the
/// height of the stack.
pub proof fn lemma_first_untouched_bounds(levels: Seq<LevelState>, i: int)
    requires
        0 <= i <= levels.len(),
    ensures
        i <= first_untouched(levels, i) <= levels.len(),
    decreases levels.len() - i,
{
    if i < levels.len() && !(levels[i] is Empty) {
        lemma_first_untouched_bounds(levels, i + 1);
    }
}

/// `String::push` of std: the string afterwards is the string before with
/// the character added at its end.
#[verifier::external_body]
fn push_char(text: &mut String, c: char)
    ensures
        final(text)@ == old(text)@.push(c),
{
    text.push(c);
}

/// Counts the levels that the window of the stack shows.
pub fn window_extent(buffer: &Vec<LevelState>) -> (r: usize)
    ensures
        r == extent(buffer@),
        r <= buffer@.len(),
        r <= WINDOW_LIMIT,
{
    let mut shown: usize = 0;
    while shown < buffer.len() && shown < WINDOW_LIMIT && !buffer[shown].is_untouched()
        invariant
            shown <= buffer@.len(),
            shown <= WINDOW_LIMIT,
            first_untouched(buffer@, 0) == first_untouched(buffer@, shown as int),
        decreases buffer@.len() - shown,
    {
        shown += 1;
    }
    proof {
        lemma_first_untouched_bounds(buffer@, shown as int);
    }
    shown
}

/// Renders the window of the stack: for each touched level at the bottom of
/// the stack, up to the limit, the character of its state.
pub fn buffer_string(buffer: &Vec<LevelState>) -> (result: String)
    ensures
        result@ == window(buffer@),
{
    let shown = window_extent(buffer);
    let mut result = String::new();
    let mut k: usize = 0;
    while k < shown
        invariant
            k <= shown <= buffer@.len(),
            shown == extent(buffer@),
            result@ == window(buffer@).take(k as int),
        decreases shown - k,
    {
        push_char(&mut result, buffer[k].to_char());
        proof {
            assert(result@ =~= window(buffer@).take(k as int + 1));
        }
        k += 1;
    }
    proof {
        assert(result@ =~= window(buffer@));
    }
    result
}

} // verus!
