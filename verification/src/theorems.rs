//! What holds of every generated prefix: runs of at most two, prefixes that
//! only grow, the same outcome for the same request, and independence of
//! the stack's height where it suffices.

use vstd::prelude::*;
use crate::cascade::{advanced, frontier, lemma_frontier, KolakoskiError};
use crate::engine::untouched;
use crate::level::{LevelState, Symbol};
use crate::sequence::{
    engine_terms, is_generated, prefix, produced, reachable, state_after, sustains,
};

verus! {

/// Runs alternate: a level whose run of `s` is complete starts a run of the
/// other symbol, and the term from the level above is that run's length. A
/// run of one is complete at once; a run of two is complete after its second
/// term, which needs no answer from above.
pub proof fn lemma_runs_alternate(s: Symbol, derived: Symbol)
    ensures
        LevelState::Pending(s).emits() == s.flipped(),
        LevelState::Pending(s).begun(derived).carries(s.flipped()),
        derived == Symbol::One ==> LevelState::Pending(s).begun(derived) == LevelState::Pending(
            s.flipped(),
        ),
        derived == Symbol::Two ==> LevelState::Pending(s).begun(derived) == LevelState::Committed(
            s.flipped(),
        ),
        LevelState::Committed(s.flipped()).emits() == s.flipped(),
        LevelState::Committed(s.flipped()).settled() == LevelState::Pending(s.flipped()),
{
}

/// After a consultation of level 0 within the stack, level 0 belongs to a run
/// of the term that it handed out.
pub proof fn lemma_level_zero_carries(levels: Seq<LevelState>)
    requires
        frontier(levels, 0) < levels.len(),
    ensures
        advanced(levels, 0)[0].carries(levels[0].emits()),
        advanced(levels, 0).len() == levels.len(),
{
    lemma_frontier(levels, 0);
}

/// Of three terms that level 0 hands out one after another, whatever the
/// stack it starts from, not all are the same: a run has one or two terms,
/// and the run after it is of the other symbol.
pub proof fn lemma_no_triple(levels: Seq<LevelState>, k: nat)
    requires
        sustains(levels, k + 3),
    ensures
        !(produced(levels, k + 3)[k as int] == produced(levels, k + 3)[k as int + 1]
            && produced(levels, k + 3)[k as int + 1] == produced(levels, k + 3)[k as int + 2]),
{
    let s0 = state_after(levels, k);
    let s1 = state_after(levels, k + 1);
    let s2 = state_after(levels, k + 2);
    assert(s1 == advanced(s0, 0));
    assert(s2 == advanced(s1, 0));
    assert(frontier(s0, 0) < s0.len());
    assert(frontier(s1, 0) < s1.len());
    lemma_level_zero_carries(s0);
    lemma_frontier(s1, 0);
    if s1[0] is Committed {
        assert(frontier(s1, 0) == 0);
        assert(s2[0] == s1[0].settled());
    }
}

/// No three consecutive terms of a generated prefix are the same.
pub proof fn lemma_runs_at_most_two(height: nat, n: nat, i: int)
    requires
        reachable(height, n),
        0 <= i,
        i + 2 < n,
    ensures
        !(prefix(height, n)[i] == prefix(height, n)[i + 1] && prefix(height, n)[i + 1] == prefix(
            height,
            n,
        )[i + 2]),
{
    let fresh = untouched(height);
    let terms = prefix(height, n);
    if i == 1 {
        assert(terms[1] == Symbol::Two);
        assert(terms[2] == state_after(fresh, 0)[0].emits());
        assert(frontier(state_after(fresh, 0), 0) < fresh.len());
        assert(terms[2] == Symbol::Two);
        assert(terms[3] == state_after(fresh, 1)[0].emits());
        assert(state_after(fresh, 1) == advanced(state_after(fresh, 0), 0));
        assert(state_after(fresh, 1)[0] == LevelState::Pending(Symbol::Two));
    } else if i >= 2 {
        let k = (i - 2) as nat;
        let m = engine_terms(n);
        assert forall|j: nat| j < k + 3 implies frontier(#[trigger] state_after(fresh, j), 0)
            < state_after(fresh, j).len() by {
            assert(j < m);
        }
        lemma_no_triple(fresh, k);
        assert(terms[i] == produced(fresh, k + 3)[k as int]);
        assert(terms[i + 1] == produced(fresh, k + 3)[k as int + 1]);
        assert(terms[i + 2] == produced(fresh, k + 3)[k as int + 2]);
    }
}

/// Generation is deterministic: two runs for the same number of terms with
/// the same stack height end alike, with the same terms or the same error.
pub proof fn lemma_generation_deterministic(
    height: nat,
    n: nat,
    first: Result<Vec<Symbol>, KolakoskiError>,
    second: Result<Vec<Symbol>, KolakoskiError>,
)
    requires
        is_generated(height, n, first),
        is_generated(height, n, second),
    ensures
        first is Ok <==> second is Ok,
        first is Ok ==> first->Ok_0@ == second->Ok_0@,
        first is Err ==> first->Err_0 == second->Err_0,
{
}

/// A prefix is the beginning of every longer one generated with the same
/// stack height, and a height that is enough for the longer one is enough
/// for the shorter.
pub proof fn lemma_prefix_extends(height: nat, k: nat, n: nat, m: nat)
    requires
        k <= n <= m,
    ensures
        prefix(height, n).len() == n,
        prefix(height, m).take(n as int) == prefix(height, n),
        prefix(height, m).take(k as int) == prefix(height, n).take(k as int),
        reachable(height, m) ==> reachable(height, n),
{
    assert(prefix(height, m).take(n as int) =~= prefix(height, n));
    assert(prefix(height, m).take(n as int).take(k as int) =~= prefix(height, m).take(k as int));
}

/// The frontier of a stack does not move when untouched levels are put on
/// top of it, as long as it lies within the stack.
pub proof fn lemma_frontier_under_extension(levels: Seq<LevelState>, extra: nat, i: int)
    requires
        0 <= i <= levels.len(),
        frontier(levels, i) < levels.len(),
    ensures
        frontier(levels + untouched(extra), i) == frontier(levels, i),
    decreases levels.len() - i,
{
    let taller = levels + untouched(extra);
    assert(taller[i] == levels[i]);
    if levels[i].is_pending() {
        lemma_frontier_under_extension(levels, extra, i + 1);
    }
}

/// A consultation within the stack does the same to the stack with
/// untouched levels on top, and leaves those untouched.
pub proof fn lemma_advanced_under_extension(levels: Seq<LevelState>, extra: nat)
    requires
        frontier(levels, 0) < levels.len(),
    ensures
        advanced(levels + untouched(extra), 0) == advanced(levels, 0) + untouched(extra),
{
    lemma_frontier(levels, 0);
    lemma_frontier_under_extension(levels, extra, 0);
    assert(advanced(levels + untouched(extra), 0) =~= advanced(levels, 0) + untouched(extra));
}

/// As long as the lower of two stacks suffices, the higher one goes through
/// the same states below and stays untouched above.
pub proof fn lemma_states_under_extension(height: nat, extra: nat, n: nat)
    requires
        sustains(untouched(height), n),
    ensures
        state_after(untouched(height + extra), n) == state_after(untouched(height), n) + untouched(
            extra,
        ),
        state_after(untouched(height), n).len() == height,
        sustains(untouched(height + extra), n),
    decreases n,
{
    let low = untouched(height);
    let high = untouched(height + extra);
    if n == 0 {
        assert(high =~= low + untouched(extra));
    } else {
        let before = (n - 1) as nat;
        assert forall|j: nat| j < before implies frontier(#[trigger] state_after(low, j), 0)
            < state_after(low, j).len() by {
            assert(j < n);
        }
        lemma_states_under_extension(height, extra, before);
        assert(frontier(state_after(low, before), 0) < state_after(low, before).len());
        lemma_advanced_under_extension(state_after(low, before), extra);
        lemma_frontier_under_extension(state_after(low, before), extra, 0);
        assert forall|j: nat| j < n implies frontier(#[trigger] state_after(high, j), 0)
            < state_after(high, j).len() by {
            if j < before {
            } else {
                assert(j == before);
            }
        }
    }
}

/// A stack that is high enough for a prefix can be made higher without any
/// change to the prefix: the terms do not depend on the stack's height.
pub proof fn lemma_prefix_height_independent(low: nat, high: nat, n: nat)
    requires
        low <= high,
        reachable(low, n),
    ensures
        reachable(high, n),
        prefix(high, n) == prefix(low, n),
{
    let extra = (high - low) as nat;
    let m = engine_terms(n);
    lemma_states_under_extension(low, extra, m);
    assert forall|j: nat| j < m implies (#[trigger] state_after(untouched(high), j))[0].emits()
        == state_after(untouched(low), j)[0].emits() by {
        assert forall|i: nat| i < j implies frontier(#[trigger] state_after(untouched(low), i), 0)
            < state_after(untouched(low), i).len() by {
            assert(i < m);
        }
        lemma_states_under_extension(low, extra, j);
        assert(frontier(state_after(untouched(low), j), 0) < state_after(untouched(low), j).len());
    }
    assert(produced(untouched(high), m) =~= produced(untouched(low), m));
}

} // verus!
