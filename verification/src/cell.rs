use vstd::prelude::*;
use std::ops::RangeInclusive;

verus! {

/// The state of one square of the board.
#[derive(Clone, Copy, Debug, PartialEq, Eq, Structural)]
pub enum Cell {
    /// A square whose mine status is still open: `None` while nothing is
    /// committed, `Some(b)` once it is tentatively a mine (`true`) or safe.
    Quantum(Option<bool>),
    /// A revealed safe square, with its clue once that has been computed.
    Discovered(Option<u8>),
    /// A square whose mine status was fixed when the board was made.
    Concrete(bool),
}

impl Default for Cell {
    fn default() -> (c: Cell)
        ensures
            c == Cell::Quantum(None),
    {
        Cell::Quantum(None)
    }
}

impl Cell {
    /// The least number of mines this square can stand for: 1 for a
    /// committed or fixed mine, 0 for anything else.
    pub open spec fn low(self) -> int {
        match self {
            Cell::Quantum(Some(b)) | Cell::Concrete(b) => if b { 1 } else { 0 },
            Cell::Quantum(None) | Cell::Discovered(_) => 0,
        }
    }

    /// The greatest number of mines this square can stand for: 1 for a mine
    /// and for a square that is still open, 0 for a safe or revealed one.
    pub open spec fn high(self) -> int {
        match self {
            Cell::Quantum(None) => 1,
            Cell::Quantum(Some(b)) | Cell::Concrete(b) => if b { 1 } else { 0 },
            Cell::Discovered(_) => 0,
        }
    }

    /// Whether the square is a committed or fixed mine.
    pub open spec fn is_mine(self) -> bool {
        self == Cell::Quantum(Some(true)) || self == Cell::Concrete(true)
    }

    /// Whether the square is open with nothing committed.
    pub open spec fn is_open(self) -> bool {
        self == Cell::Quantum(None)
    }

    /// Whether the square has to be treated as a mine: it is one, or it is
    /// still open.
    pub open spec fn spec_is_bomb(self) -> bool {
        self.is_mine() || self.is_open()
    }

    /// The pair `(low, high)` as machine integers.
    pub fn bomb_bounds(&self) -> (r: (u8, u8))
        ensures
            r.0 == self.low(),
            r.1 == self.high(),
    {
        match self {
            Cell::Quantum(None) => (0, 1),
            Cell::Quantum(Some(b)) | Cell::Concrete(b) => if *b {
                (1, 1)
            } else {
                (0, 0)
            },
            Cell::Discovered(_) => (0, 0),
        }
    }

    /// The inclusive range of the number of mines this square can stand for.
    #[must_use]
    pub fn bomb_count(&self) -> (r: RangeInclusive<u8>)
        ensures
            r@.start == self.low(),
            r@.end == self.high(),
            !r@.exhausted,
    {
        let (lo, hi) = self.bomb_bounds();
        RangeInclusive::new(lo, hi)
    }

    /// Whether the square has to be treated as a mine.
    #[must_use]
    pub fn is_bomb(&self) -> (r: bool)
        ensures
            r == self.spec_is_bomb(),
    {
        match self {
            Cell::Quantum(Some(b)) | Cell::Concrete(b) => *b,
            Cell::Quantum(None) => true,
            _ => false,
        }
    }
}

/// Every square stands for at most one mine, and its range is not empty.
pub proof fn lemma_cell_range(c: Cell)
    ensures
        0 <= c.low() <= c.high() <= 1,
        c.is_mine() <==> c.low() == 1,
        c.is_open() <==> c.low() < c.high(),
{
}

} // verus!
