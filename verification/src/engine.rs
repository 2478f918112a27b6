//! The generator: a stack of levels of fixed height, owned by one engine.

use vstd::prelude::*;
use crate::cascade::{advanced, frontier, kolakoski_increment, lemma_frontier, KolakoskiError};
use crate::level::{LevelState, Symbol};

verus! {

/// Whether the levels that were ever consulted form the bottom of the stack:
/// above an untouched level every level is untouched.
pub open spec fn touched_below(levels: Seq<LevelState>) -> bool {
    forall|j: int, k: int|
        #![trigger levels[j], levels[k]]
        0 <= j <= k < levels.len() && levels[j] is Empty ==> levels[k] is Empty
}

/// A stack of the given height on which no level was consulted yet.
pub open spec fn untouched(height: nat) -> Seq<LevelState> {
    Seq::new(height, |k: int| LevelState::Empty)
}

/// A stack with its touched levels at the bottom stays so when level 0 is
/// consulted.
pub proof fn lemma_advanced_touched_below(levels: Seq<LevelState>)
    requires
        touched_below(levels),
        frontier(levels, 0) < levels.len(),
    ensures
        touched_below(advanced(levels, 0)),
{
    lemma_frontier(levels, 0);
    let after = advanced(levels, 0);
    assert forall|j: int, k: int|
        #![trigger after[j], after[k]]
        0 <= j <= k < after.len() && after[j] is Empty implies after[k] is Empty by {
        assert(j > frontier(levels, 0));
        assert(levels[j] is Empty);
        assert(levels[k] is Empty);
    }
}

/// The generator of the sequence from its third term on. The first two
/// terms, `One` and `Two`, are known to the caller beforehand.
pub struct SequenceEngine {
    levels: Vec<LevelState>,
}

impl View for SequenceEngine {
    type V = Seq<LevelState>;

    /// The stack of levels, level 0 first.
    closed spec fn view(&self) -> Seq<LevelState> {
        self.levels@
    }
}

impl SequenceEngine {
    /// The engine's invariant: the touched levels form the bottom of the stack.
    pub open spec fn wf(&self) -> bool {
        touched_below(self@)
    }

    /// The height of the stack, fixed when the engine was made.
    pub fn max_levels(&self) -> (r: usize)
        ensures
            r == self@.len(),
    {
        self.levels.len()
    }

    /// The stack of levels, level 0 first.
    pub fn levels(&self) -> (r: &Vec<LevelState>)
        ensures
            r@ == self@,
    {
        &self.levels
    }

    /// Hands out the next term of the sequence and moves the engine one
    /// term on. The term is the one that level 0 was about to hand out, and
    /// level 0 afterwards belongs to a run of it. Fails with
    /// `CapacityExceeded`, and leaves the engine as it was, exactly when
    /// every level of the stack is pending.
    pub fn produce_next_digit(&mut self) -> (r: Result<Symbol, KolakoskiError>)
        requires
            old(self).wf(),
        ensures
            final(self).wf(),
            r is Ok <==> frontier(old(self)@, 0) < old(self)@.len(),
            match r {
                Ok(term) => {
                    &&& term == old(self)@[0].emits()
                    &&& final(self)@ == advanced(old(self)@, 0)
                    &&& final(self)@[0].carries(term)
                },
                Err(e) => {
                    &&& e == KolakoskiError::CapacityExceeded
                    &&& final(self)@ == old(self)@
                },
            },
    {
        let r = kolakoski_increment(&mut self.levels, 0);
        proof {
            if r is Ok {
                lemma_advanced_touched_below(old(self)@);
            }
        }
        r
    }
}

/// Makes an engine with a stack of `max_levels` levels, none of them
/// consulted yet.
pub fn new_engine(max_levels: usize) -> (engine: SequenceEngine)
    ensures
        engine.wf(),
        engine@ == untouched(max_levels as nat),
{
    let mut levels: Vec<LevelState> = Vec::with_capacity(max_levels);
    let mut k: usize = 0;
    while k < max_levels
        invariant
            k <= max_levels,
            levels@ == untouched(k as nat),
        decreases max_levels - k,
    {
        levels.push(LevelState::Empty);
        k += 1;
        proof {
            assert(levels@ =~= untouched(k as nat));
        }
    }
    SequenceEngine { levels }
}

} // verus!
