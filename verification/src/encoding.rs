//! The generated sequence describes itself: read as a list of run lengths,
//! a prefix unfolds into a sequence that begins with that prefix.

use vstd::prelude::*;
use crate::cascade::{advanced, frontier, lemma_frontier};
use crate::engine::untouched;
use crate::level::{LevelState, Symbol};
use crate::sequence::{engine_terms, prefix, produced, reachable, seeds, state_after, sustains};

verus! {

/// A run of `s` with the given length.
pub open spec fn run_of(s: Symbol, length: Symbol) -> Seq<Symbol> {
    match length {
        Symbol::One => seq![s],
        Symbol::Two => seq![s, s],
    }
}

/// The sequence whose runs have the given lengths, in this order. The first
/// run is of `One`, and each run after it is of the other symbol than the
/// run before.
pub open spec fn unfold(lengths: Seq<Symbol>) -> Seq<Symbol>
    decreases lengths.len(),
{
    if lengths.len() == 0 {
        Seq::empty()
    } else {
        let before = unfold(lengths.drop_last());
        let s = if before.len() == 0 {
            Symbol::One
        } else {
            before.last().flipped()
        };
        before + run_of(s, lengths.last())
    }
}

/// Whether `whole` begins with `part`.
pub open spec fn begins_with(whole: Seq<Symbol>, part: Seq<Symbol>) -> bool {
    part.len() <= whole.len() && forall|i: int|
        #![trigger part[i]]
        0 <= i < part.len() ==> part[i] == whole[i]
}

/// The terms that level `k` hands out in the course of the first `n`
/// consultations of level 0.
pub open spec fn emitted_by(levels: Seq<LevelState>, n: nat, k: int) -> Seq<Symbol>
    decreases n,
{
    if n == 0 {
        Seq::empty()
    } else {
        let before = state_after(levels, (n - 1) as nat);
        let earlier = emitted_by(levels, (n - 1) as nat, k);
        if 0 <= k <= frontier(before, 0) && k < before.len() {
            earlier.push(before[k].emits())
        } else {
            earlier
        }
    }
}

/// The sequence as level `k` of a stack of the given height has handed it
/// out after `n` consultations of level 0, the two seeded terms first.
pub open spec fn known_to(height: nat, n: nat, k: int) -> Seq<Symbol> {
    seeds() + emitted_by(untouched(height), n, k)
}

/// Whether a level is in step with the level above it: what the level above
/// has handed out unfolds into what the level itself has handed out,
/// together with the second term of a run of two where that is still due.
pub open spec fn in_step(state: LevelState, own: Seq<Symbol>, above: Seq<Symbol>) -> bool {
    if state.is_pending() {
        own == unfold(above) && own.len() > 0 && own.last().flipped() == state.emits()
    } else {
        own.push(state.emits()) == unfold(above)
    }
}

/// A sequence that begins with a list begins with the list's beginning.
pub proof fn lemma_begins_with_chain(whole: Seq<Symbol>, middle: Seq<Symbol>, part: Seq<Symbol>)
    requires
        begins_with(whole, middle),
        begins_with(middle, part),
    ensures
        begins_with(whole, part),
{
}

/// A sequence begins with itself, and with itself less its last term.
pub proof fn lemma_begins_with_own(whole: Seq<Symbol>, part: Seq<Symbol>, last: Symbol)
    ensures
        begins_with(whole, whole),
        part.push(last) == whole ==> begins_with(whole, part),
{
    if part.push(last) == whole {
        assert forall|i: int| 0 <= i < part.len() implies #[trigger] part[i] == whole[i] by {
            assert(part.push(last)[i] == part[i]);
        }
    }
}

/// One more run length unfolds into one more run, of the other symbol than
/// the run before it.
pub proof fn lemma_unfold_push(lengths: Seq<Symbol>, d: Symbol)
    ensures
        unfold(lengths.push(d)) == unfold(lengths) + run_of(
            if unfold(lengths).len() == 0 {
                Symbol::One
            } else {
                unfold(lengths).last().flipped()
            },
            d,
        ),
{
    assert(lengths.push(d).drop_last() =~= lengths);
}

/// The two seeded terms unfold into themselves and one more `Two`.
pub proof fn lemma_unfold_seeds()
    ensures
        unfold(Seq::empty()) == Seq::<Symbol>::empty(),
        unfold(seq![Symbol::One]) == seq![Symbol::One],
        unfold(seeds()) == seq![Symbol::One, Symbol::Two, Symbol::Two],
        unfold(seeds()) == seeds().push(Symbol::Two),
{
    let none = Seq::<Symbol>::empty();
    lemma_unfold_push(none, Symbol::One);
    assert(none.push(Symbol::One) =~= seq![Symbol::One]);
    assert(unfold(seq![Symbol::One]) =~= seq![Symbol::One]);
    lemma_unfold_push(seq![Symbol::One], Symbol::Two);
    assert(seq![Symbol::One].push(Symbol::Two) =~= seeds());
    assert(unfold(seeds()) =~= seq![Symbol::One, Symbol::Two, Symbol::Two]);
    assert(unfold(seeds()) =~= seeds().push(Symbol::Two));
}

/// What a list of run lengths unfolds into is at least as long as the list,
/// and longer where the list begins like the sequence.
pub proof fn lemma_unfold_len(lengths: Seq<Symbol>)
    ensures
        unfold(lengths).len() >= lengths.len(),
        lengths.len() >= 2 && lengths[1] == Symbol::Two ==> unfold(lengths).len() > lengths.len(),
    decreases lengths.len(),
{
    if lengths.len() > 0 {
        lemma_unfold_len(lengths.drop_last());
    }
}

/// A longer list of run lengths unfolds into a longer sequence with the
/// same beginning.
pub proof fn lemma_unfold_monotone(short: Seq<Symbol>, long: Seq<Symbol>)
    requires
        begins_with(long, short),
    ensures
        begins_with(unfold(long), unfold(short)),
    decreases long.len(),
{
    if short.len() == long.len() {
        assert(short =~= long);
    } else {
        assert(begins_with(long.drop_last(), short));
        lemma_unfold_monotone(short, long.drop_last());
    }
}

/// The stack keeps its height, and a level that is still untouched, or that
/// lies above the stack, has handed out nothing.
pub proof fn lemma_untouched_silent(levels: Seq<LevelState>, n: nat, k: int)
    requires
        sustains(levels, n),
    ensures
        state_after(levels, n).len() == levels.len(),
        0 <= k < levels.len() && state_after(levels, n)[k] is Empty ==> emitted_by(levels, n, k)
            == Seq::<Symbol>::empty(),
        k >= levels.len() ==> emitted_by(levels, n, k) == Seq::<Symbol>::empty(),
    decreases n,
{
    if n > 0 {
        let m = (n - 1) as nat;
        assert forall|j: nat| j < m implies frontier(#[trigger] state_after(levels, j), 0)
            < state_after(levels, j).len() by {
            assert(j < n);
        }
        lemma_untouched_silent(levels, m, k);
        let before = state_after(levels, m);
        assert(frontier(before, 0) < before.len());
        lemma_frontier(before, 0);
    }
}

/// What level 0 hands out is the engine's output.
pub proof fn lemma_level_zero_output(levels: Seq<LevelState>, n: nat)
    requires
        sustains(levels, n),
    ensures
        emitted_by(levels, n, 0) == produced(levels, n),
    decreases n,
{
    if n > 0 {
        let m = (n - 1) as nat;
        assert forall|j: nat| j < m implies frontier(#[trigger] state_after(levels, j), 0)
            < state_after(levels, j).len() by {
            assert(j < n);
        }
        lemma_level_zero_output(levels, m);
        let before = state_after(levels, m);
        assert(frontier(before, 0) < before.len());
        lemma_frontier(before, 0);
        assert(produced(levels, n) =~= produced(levels, m).push(before[0].emits()));
    } else {
        assert(produced(levels, 0) =~= Seq::<Symbol>::empty());
    }
}

/// Every level of a stack that started untouched is in step with the level
/// above it.
pub proof fn lemma_levels_in_step(height: nat, n: nat, k: int)
    requires
        sustains(untouched(height), n),
        0 <= k < height,
    ensures
        state_after(untouched(height), n).len() == height,
        in_step(
            state_after(untouched(height), n)[k],
            known_to(height, n, k),
            known_to(height, n, k + 1),
        ),
    decreases n,
{
    let fresh = untouched(height);
    lemma_unfold_seeds();
    if n == 0 {
        assert(known_to(height, 0, k) =~= seeds());
        assert(known_to(height, 0, k + 1) =~= seeds());
    } else {
        let m = (n - 1) as nat;
        assert forall|j: nat| j < m implies frontier(#[trigger] state_after(fresh, j), 0)
            < state_after(fresh, j).len() by {
            assert(j < n);
        }
        lemma_levels_in_step(height, m, k);
        lemma_untouched_silent(fresh, m, k + 1);
        let before = state_after(fresh, m);
        let after = state_after(fresh, n);
        assert(after == advanced(before, 0));
        assert(frontier(before, 0) < before.len());
        lemma_frontier(before, 0);
        let f = frontier(before, 0);
        let own = known_to(height, m, k);
        let above = known_to(height, m, k + 1);
        if k > f {
            assert(known_to(height, n, k) =~= own);
            assert(known_to(height, n, k + 1) =~= above);
        } else if k == f {
            assert(known_to(height, n, k) =~= own.push(before[k].emits()));
            assert(known_to(height, n, k + 1) =~= above);
        } else {
            let d = before[k + 1].emits();
            let s = before[k].emits();
            assert(before[k].is_pending());
            assert(known_to(height, n, k) =~= own.push(s));
            assert(known_to(height, n, k + 1) =~= above.push(d));
            lemma_unfold_push(above, d);
            assert(unfold(above.push(d)) =~= own + run_of(s, d));
            match d {
                Symbol::One => {
                    assert(own + run_of(s, d) =~= own.push(s));
                },
                Symbol::Two => {
                    assert(own + run_of(s, d) =~= own.push(s).push(s));
                },
            }
        }
    }
}

/// What a level has handed out begins with what the level above it has
/// handed out: all levels hand out the same sequence.
pub proof fn lemma_level_chain(height: nat, n: nat, k: int)
    requires
        sustains(untouched(height), n),
        0 <= k,
    ensures
        begins_with(known_to(height, n, k), known_to(height, n, k + 1)),
        begins_with(known_to(height, n, k), seeds()),
        known_to(height, n, k)[1] == Symbol::Two,
    decreases height - k,
{
    let own = known_to(height, n, k);
    let above = known_to(height, n, k + 1);
    lemma_untouched_silent(untouched(height), n, k + 1);
    if k + 1 >= height {
        assert(above =~= seeds());
    } else {
        lemma_level_chain(height, n, k + 1);
        let higher = known_to(height, n, k + 2);
        let states = state_after(untouched(height), n);
        lemma_levels_in_step(height, n, k);
        lemma_levels_in_step(height, n, k + 1);
        lemma_unfold_monotone(higher, above);
        lemma_unfold_len(above);
        lemma_begins_with_own(unfold(higher), above, states[k + 1].emits());
        lemma_begins_with_chain(unfold(above), unfold(higher), above);
        if states[k].is_pending() {
        } else {
            let due = states[k].emits();
            assert(own.len() + 1 == unfold(above).len());
            assert forall|i: int| 0 <= i < above.len() implies #[trigger] above[i] == own[i] by {
                assert(own.push(due)[i] == own[i]);
            }
        }
        lemma_begins_with_chain(own, above, seeds());
    }
}

/// Read as a list of run lengths, a generated prefix unfolds into a
/// sequence that begins with the prefix itself: the generated sequence is
/// its own run-length encoding.
pub proof fn lemma_self_describing(height: nat, n: nat)
    requires
        reachable(height, n),
    ensures
        begins_with(unfold(prefix(height, n)), prefix(height, n)),
{
    lemma_unfold_seeds();
    let terms = prefix(height, n);
    if n == 0 {
    } else if n == 1 {
        assert(terms =~= seq![Symbol::One]);
    } else if n == 2 {
        assert(terms =~= seeds());
    } else {
        let m = engine_terms(n);
        let fresh = untouched(height);
        assert(frontier(state_after(fresh, 0), 0) < state_after(fresh, 0).len());
        lemma_level_zero_output(fresh, m);
        assert(terms == known_to(height, m, 0));
        let above = known_to(height, m, 1);
        lemma_level_chain(height, m, 0);
        lemma_levels_in_step(height, m, 0);
        lemma_unfold_monotone(above, terms);
        lemma_begins_with_own(unfold(above), terms, state_after(fresh, m)[0].emits());
        lemma_begins_with_chain(unfold(terms), unfold(above), terms);
    }
}

/// There is one self-describing sequence of each length: two sequences of
/// the same length that each begin their own unfolding are the same.
pub proof fn lemma_self_describing_unique(a: Seq<Symbol>, b: Seq<Symbol>)
    requires
        a.len() == b.len(),
        begins_with(unfold(a), a),
        begins_with(unfold(b), b),
    ensures
        a == b,
    decreases a.len(),
{
    if a.len() > 0 {
        let shorter_a = a.drop_last();
        let shorter_b = b.drop_last();
        lemma_unfold_len(shorter_a);
        lemma_unfold_len(shorter_b);
        assert(begins_with(unfold(shorter_a), shorter_a)) by {
            assert forall|i: int| 0 <= i < shorter_a.len() implies #[trigger] shorter_a[i]
                == unfold(shorter_a)[i] by {
                assert(shorter_a[i] == a[i]);
            }
        }
        assert(begins_with(unfold(shorter_b), shorter_b)) by {
            assert forall|i: int| 0 <= i < shorter_b.len() implies #[trigger] shorter_b[i]
                == unfold(shorter_b)[i] by {
                assert(shorter_b[i] == b[i]);
            }
        }
        lemma_self_describing_unique(shorter_a, shorter_b);
        let last = a.len() - 1;
        assert(a[last] == unfold(a)[last]);
        assert(b[last] == unfold(b)[last]);
        assert(a =~= b);
    } else {
        assert(a =~= b);
    }
}

} // verus!
