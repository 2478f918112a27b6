//! Prefixes of the sequence: the two seeded terms, then what an engine
//! hands out, term by term; and the count of each symbol in a prefix.

use vstd::prelude::*;
use crate::cascade::{advanced, frontier, KolakoskiError};
use crate::engine::{new_engine, untouched, SequenceEngine};
use crate::level::{LevelState, Symbol};

verus! {

/// The stack after `n` consultations of level 0, each within the stack.
pub open spec fn state_after(levels: Seq<LevelState>, n: nat) -> Seq<LevelState>
    decreases n,
{
    if n == 0 {
        levels
    } else {
        advanced(state_after(levels, (n - 1) as nat), 0)
    }
}

/// Whether the first `n` consultations of level 0 all stay within the stack.
pub open spec fn sustains(levels: Seq<LevelState>, n: nat) -> bool {
    forall|k: nat|
        k < n ==> frontier(#[trigger] state_after(levels, k), 0) < state_after(levels, k).len()
}

/// The first `n` terms that level 0 hands out.
pub open spec fn produced(levels: Seq<LevelState>, n: nat) -> Seq<Symbol> {
    Seq::new(n, |k: int| state_after(levels, k as nat)[0].emits())
}

/// The two terms that every prefix starts with and no engine hands out.
pub open spec fn seeds() -> Seq<Symbol> {
    seq![Symbol::One, Symbol::Two]
}

/// How many terms of a prefix of length `n` come from the engine.
pub open spec fn engine_terms(n: nat) -> nat {
    if n <= 2 {
        0
    } else {
        (n - 2) as nat
    }
}

/// The first `n` terms of the sequence, as generated with a stack of the
/// given height.
pub open spec fn prefix(height: nat, n: nat) -> Seq<Symbol> {
    if n <= 2 {
        seeds().take(n as int)
    } else {
        seeds() + produced(untouched(height), engine_terms(n))
    }
}

/// Whether a stack of the given height is enough for the first `n` terms.
pub open spec fn reachable(height: nat, n: nat) -> bool {
    sustains(untouched(height), engine_terms(n))
}

/// How often `s` occurs among `terms`.
pub open spec fn count_of(terms: Seq<Symbol>, s: Symbol) -> nat
    decreases terms.len(),
{
    if terms.len() == 0 {
        0
    } else {
        count_of(terms.drop_last(), s) + if terms.last() == s {
            1nat
        } else {
            0nat
        }
    }
}

/// A term added at the end counts once for its own symbol and not at all
/// for the other.
pub proof fn lemma_count_push(terms: Seq<Symbol>, t: Symbol, s: Symbol)
    ensures
        count_of(terms.push(t), s) == count_of(terms, s) + if t == s {
            1nat
        } else {
            0nat
        },
{
    assert(terms.push(t).drop_last() =~= terms);
}

/// The two symbols' counts add up to the number of terms.
pub proof fn lemma_counts_total(terms: Seq<Symbol>)
    ensures
        count_of(terms, Symbol::One) + count_of(terms, Symbol::Two) == terms.len(),
    decreases terms.len(),
{
    if terms.len() > 0 {
        lemma_counts_total(terms.drop_last());
    }
}

/// A prefix of two terms or more grows by the term that level 0 is about to
/// hand out.
pub proof fn lemma_prefix_push(height: nat, n: nat)
    requires
        n >= 2,
    ensures
        prefix(height, n + 1) == prefix(height, n).push(
            state_after(untouched(height), (n - 2) as nat)[0].emits(),
        ),
{
    assert(seeds().take(2) =~= seeds());
    assert(prefix(height, n + 1) =~= prefix(height, n).push(
        state_after(untouched(height), (n - 2) as nat)[0].emits(),
    ));
}

/// The counts of the two symbols among the terms seen so far.
#[derive(Clone, Copy, Debug, PartialEq, Eq, Structural)]
pub struct Tally {
    pub ones: u64,
    pub twos: u64,
}

impl Tally {
    /// Whether the tally holds the counts of the two symbols among `terms`.
    pub open spec fn counts(self, terms: Seq<Symbol>) -> bool {
        self.ones == count_of(terms, Symbol::One) && self.twos == count_of(terms, Symbol::Two)
    }

    /// The tally of no terms.
    pub fn new() -> (r: Tally)
        ensures
            r.ones == 0,
            r.twos == 0,
            r.counts(Seq::empty()),
    {
        Tally { ones: 0, twos: 0 }
    }

    /// Counts one more term.
    pub fn record(&mut self, term: Symbol)
        requires
            old(self).ones + old(self).twos < u64::MAX,
        ensures
            final(self).ones == old(self).ones + if term == Symbol::One {
                1nat
            } else {
                0nat
            },
            final(self).twos == old(self).twos + if term == Symbol::Two {
                1nat
            } else {
                0nat
            },
            forall|terms: Seq<Symbol>|
                old(self).counts(terms) ==> #[trigger] final(self).counts(terms.push(term)),
    {
        match term {
            Symbol::One => {
                self.ones = self.ones + 1;
            },
            Symbol::Two => {
                self.twos = self.twos + 1;
            },
        }
        proof {
            assert forall|terms: Seq<Symbol>| old(self).counts(terms) implies #[trigger] self.counts(
                terms.push(term),
            ) by {
                lemma_count_push(terms, term, Symbol::One);
                lemma_count_push(terms, term, Symbol::Two);
            }
        }
    }
}

/// Generates the first `length` terms of the sequence with a stack of
/// `max_levels` levels and counts the two symbols among them. Fails with
/// `CapacityExceeded` exactly when the stack is too low for that many terms.
pub fn tally_prefix(length: u64, max_levels: usize) -> (r: Result<Tally, KolakoskiError>)
    ensures
        r is Ok <==> reachable(max_levels as nat, length as nat),
        match r {
            Ok(tally) => tally.counts(prefix(max_levels as nat, length as nat)),
            Err(e) => e == KolakoskiError::CapacityExceeded,
        },
{
    let mut tally = Tally::new();
    let ghost height = max_levels as nat;
    if length >= 1 {
        tally.record(Symbol::One);
    }
    if length >= 2 {
        tally.record(Symbol::Two);
    }
    proof {
        assert(seeds().take(0) =~= Seq::empty());
        assert(seeds().take(1) =~= Seq::empty().push(Symbol::One));
        assert(seeds().take(2) =~= Seq::empty().push(Symbol::One).push(Symbol::Two));
    }
    if length <= 2 {
        return Ok(tally);
    }
    let mut engine = new_engine(max_levels);
    let mut n: u64 = 2;
    while n < length
        invariant
            2 <= n <= length,
            height == max_levels as nat,
            engine.wf(),
            engine@ == state_after(untouched(height), (n - 2) as nat),
            sustains(untouched(height), (n - 2) as nat),
            tally.counts(prefix(height, n as nat)),
        decreases length - n,
    {
        proof {
            lemma_counts_total(prefix(height, n as nat));
            lemma_prefix_push(height, n as nat);
        }
        match engine.produce_next_digit() {
            Err(e) => {
                proof {
                    let stuck = state_after(untouched(height), (n - 2) as nat);
                    assert(frontier(stuck, 0) >= stuck.len());
                }
                return Err(e);
            },
            Ok(term) => {
                tally.record(term);
            },
        }
        n += 1;
    }
    Ok(tally)
}

/// What generating `n` terms with a stack of the given height comes to: the
/// prefix where the stack suffices, `CapacityExceeded` where it does not.
pub open spec fn is_generated(height: nat, n: nat, r: Result<Vec<Symbol>, KolakoskiError>) -> bool {
    &&& r is Ok <==> reachable(height, n)
    &&& match r {
        Ok(terms) => terms@ == prefix(height, n),
        Err(e) => e == KolakoskiError::CapacityExceeded,
    }
}

/// Generates the first `length` terms of the sequence with a stack of
/// `max_levels` levels. Fails with `CapacityExceeded` exactly when the stack
/// is too low for that many terms.
pub fn kolakoski_terms(length: usize, max_levels: usize) -> (r: Result<
    Vec<Symbol>,
    KolakoskiError,
>)
    ensures
        is_generated(max_levels as nat, length as nat, r),
{
    let mut terms: Vec<Symbol> = Vec::new();
    let ghost height = max_levels as nat;
    if length >= 1 {
        terms.push(Symbol::One);
    }
    if length >= 2 {
        terms.push(Symbol::Two);
    }
    proof {
        assert(terms@ =~= prefix(height, if length <= 2 { length as nat } else { 2 }));
    }
    if length <= 2 {
        return Ok(terms);
    }
    let mut engine = new_engine(max_levels);
    let mut n: usize = 2;
    while n < length
        invariant
            2 <= n <= length,
            height == max_levels as nat,
            engine.wf(),
            engine@ == state_after(untouched(height), (n - 2) as nat),
            sustains(untouched(height), (n - 2) as nat),
            terms@ == prefix(height, n as nat),
        decreases length - n,
    {
        proof {
            lemma_prefix_push(height, n as nat);
        }
        match engine.produce_next_digit() {
            Err(e) => {
                proof {
                    let stuck = state_after(untouched(height), (n - 2) as nat);
                    assert(frontier(stuck, 0) >= stuck.len());
                }
                return Err(e);
            },
            Ok(term) => {
                terms.push(term);
            },
        }
        n += 1;
    }
    Ok(terms)
}

} // verus!
