//! The cascade over the stack of levels: one consultation of a level, which
//! may consult the levels above it in turn.

use vstd::prelude::*;
use crate::level::{LevelState, Symbol};

verus! {

/// What can go wrong around the generator.
#[derive(Clone, Copy, Debug, PartialEq, Eq, Structural)]
pub enum KolakoskiError {
    /// The term count given on the command line is no integer.
    ConfigurationError,
    /// A consultation would have to reach above the topmost level.
    CapacityExceeded,
}

/// The lowest level at or above `i` that can answer without asking further
/// up, or the height of the stack if every level from `i` on is pending.
pub open spec fn frontier(levels: Seq<LevelState>, i: int) -> int
    decreases levels.len() - i,
{
    if i < 0 || i >= levels.len() {
        levels.len() as int
    } else if levels[i].is_pending() {
        frontier(levels, i + 1)
    } else {
        i
    }
}

/// The stack after a consultation of level `i` that stayed within the stack.
/// The frontier level completes its run; each pending level from `i` up to
/// it starts a run whose length is the term that the level above hands out;
/// every other level is untouched.
pub open spec fn advanced(levels: Seq<LevelState>, i: int) -> Seq<LevelState> {
    Seq::new(
        levels.len(),
        |k: int|
            if i <= k < frontier(levels, i) {
                levels[k].begun(levels[k + 1].emits())
            } else if i <= k == frontier(levels, i) {
                levels[k].settled()
            } else {
                levels[k]
            },
    )
}

/// The frontier lies at or above the level asked for and within the stack's
/// height, every level below it is pending, and the frontier level itself,
/// if there is one, is not.
pub proof fn lemma_frontier(levels: Seq<LevelState>, i: int)
    requires
        0 <= i <= levels.len(),
    ensures
        i <= frontier(levels, i) <= levels.len(),
        forall|k: int| i <= k < frontier(levels, i) ==> (#[trigger] levels[k]).is_pending(),
        frontier(levels, i) < levels.len() ==> !levels[frontier(levels, i)].is_pending(),
    decreases levels.len() - i,
{
    if i < levels.len() && levels[i].is_pending() {
        lemma_frontier(levels, i + 1);
    }
}

/// Consults level `i` of the stack: hands out the level's next term and
/// moves the level, and every level above it that had to be asked, one term
/// on. Fails, and leaves the stack as it was, exactly when every level from
/// `i` upwards is pending, so that the answer lies above the stack.
pub fn kolakoski_increment(buffer: &mut Vec<LevelState>, i: usize) -> (r: Result<
    Symbol,
    KolakoskiError,
>)
    ensures
        r is Ok <==> frontier(old(buffer)@, i as int) < old(buffer)@.len(),
        match r {
            Ok(term) => {
                &&& term == old(buffer)@[i as int].emits()
                &&& final(buffer)@ == advanced(old(buffer)@, i as int)
                &&& final(buffer)@[i as int].carries(term)
            },
            Err(e) => {
                &&& e == KolakoskiError::CapacityExceeded
                &&& final(buffer)@ == old(buffer)@
            },
        },
    decreases old(buffer)@.len() - i,
{
    if i >= buffer.len() {
        return Err(KolakoskiError::CapacityExceeded);
    }
    let ghost before = buffer@;
    let current: LevelState = buffer[i];
    if current.pending() {
        match kolakoski_increment(buffer, i + 1) {
            Err(e) => Err(e),
            Ok(derived) => {
                let next: LevelState = current.begin_run(derived);
                buffer.set(i, next);
                proof {
                    lemma_frontier(before, i as int + 1);
                    assert(buffer@ =~= advanced(before, i as int));
                }
                Ok(current.next_term())
            },
        }
    } else {
        let next: LevelState = current.settle();
        buffer.set(i, next);
        proof {
            assert(buffer@ =~= advanced(before, i as int));
        }
        Ok(current.next_term())
    }
}

} // verus!
