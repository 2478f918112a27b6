//! The alphabet of the sequence and the state that one derivation level keeps.

use vstd::prelude::*;

verus! {

/// One term of the sequence.
#[derive(Clone, Copy, Debug, PartialEq, Eq, Structural)]
pub enum Symbol {
    One,
    Two,
}

impl Symbol {
    /// The other letter of the alphabet.
    pub open spec fn flipped(self) -> Symbol {
        match self {
            Symbol::One => Symbol::Two,
            Symbol::Two => Symbol::One,
        }
    }

    /// The number that the symbol stands for.
    pub open spec fn value(self) -> nat {
        match self {
            Symbol::One => 1,
            Symbol::Two => 2,
        }
    }

    /// The other letter of the alphabet.
    pub fn other(self) -> (r: Symbol)
        ensures
            r == self.flipped(),
    {
        match self {
            Symbol::One => Symbol::Two,
            Symbol::Two => Symbol::One,
        }
    }

    /// The number that the symbol stands for, 1 or 2.
    pub fn digit(self) -> (r: u8)
        ensures
            r == self.value(),
    {
        match self {
            Symbol::One => 1,
            Symbol::Two => 2,
        }
    }
}

/// What one derivation level remembers between two consultations.
#[derive(Clone, Copy, Debug, PartialEq, Eq, Structural)]
pub enum LevelState {
    /// The level was never consulted.
    Empty,
    /// The level's current run of the symbol is complete: the next
    /// consultation has to ask the level above how long the following run is.
    Pending(Symbol),
    /// The level has handed out the first term of a run of two of the symbol;
    /// the second is due at the next consultation.
    Committed(Symbol),
}

impl LevelState {
    /// Whether the level has to consult the level above before it can answer.
    pub open spec fn is_pending(self) -> bool {
        self is Pending
    }

    /// Whether the state belongs to a run of `s`.
    pub open spec fn carries(self, s: Symbol) -> bool {
        self == LevelState::Pending(s) || self == LevelState::Committed(s)
    }

    /// The term that the level hands out at its next consultation. An
    /// untouched level starts with `Two`; a committed level repeats its
    /// symbol; a pending level starts a run of the other symbol.
    pub open spec fn emits(self) -> Symbol {
        match self {
            LevelState::Empty => Symbol::Two,
            LevelState::Committed(s) => s,
            LevelState::Pending(s) => s.flipped(),
        }
    }

    /// The state after a consultation that needs no answer from above:
    /// the run in progress is complete.
    pub open spec fn settled(self) -> LevelState {
        LevelState::Pending(self.emits())
    }

    /// The state after a consultation of a pending level, given the term
    /// that the level above handed out: that term is the length of the run
    /// which starts now.
    pub open spec fn begun(self, derived: Symbol) -> LevelState {
        match derived {
            Symbol::One => LevelState::Pending(self.emits()),
            Symbol::Two => LevelState::Committed(self.emits()),
        }
    }

    /// Whether the level has to consult the level above before it can answer.
    pub fn pending(self) -> (r: bool)
        ensures
            r == self.is_pending(),
    {
        match self {
            LevelState::Pending(_) => true,
            _ => false,
        }
    }

    /// The term that the level hands out at its next consultation.
    pub fn next_term(self) -> (r: Symbol)
        ensures
            r == self.emits(),
    {
        match self {
            LevelState::Empty => Symbol::Two,
            LevelState::Committed(s) => s,
            LevelState::Pending(s) => s.other(),
        }
    }

    /// Completes the run in progress without asking the level above.
    pub fn settle(self) -> (r: LevelState)
        ensures
            r == self.settled(),
    {
        LevelState::Pending(self.next_term())
    }

    /// Starts the next run, whose length is the term `derived` that the level
    /// above handed out.
    pub fn begin_run(self, derived: Symbol) -> (r: LevelState)
        ensures
            r == self.begun(derived),
    {
        match derived {
            Symbol::One => LevelState::Pending(self.next_term()),
            Symbol::Two => LevelState::Committed(self.next_term()),
        }
    }

    /// The character that stands for the state in a rendered window. A
    /// window holds touched levels only, so `'0'` never shows in one.
    pub open spec fn glyph(self) -> char {
        match self {
            LevelState::Empty => '0',
            LevelState::Pending(Symbol::One) => '1',
            LevelState::Pending(Symbol::Two) => '2',
            LevelState::Committed(Symbol::One) => '3',
            LevelState::Committed(Symbol::Two) => '4',
        }
    }

    /// Whether the level was never consulted.
    pub fn is_untouched(self) -> (r: bool)
        ensures
            r == (self is Empty),
    {
        match self {
            LevelState::Empty => true,
            _ => false,
        }
    }

    /// The character that stands for the state in a rendered window.
    pub fn to_char(self) -> (r: char)
        ensures
            r == self.glyph(),
    {
        match self {
            LevelState::Empty => '0',
            LevelState::Pending(Symbol::One) => '1',
            LevelState::Pending(Symbol::Two) => '2',
            LevelState::Committed(Symbol::One) => '3',
            LevelState::Committed(Symbol::Two) => '4',
        }
    }
}

} // verus!
