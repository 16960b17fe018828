//! Strains, bids and calls

use vstd::prelude::*;

verus! {

/// Denomination of a contract, in ascending rank
#[derive(Clone, Copy, Debug, PartialEq, Eq, Hash, PartialOrd, Ord, Structural)]
pub enum Strain {
    /// ♣
    Clubs,
    /// ♦
    Diamonds,
    /// ♥
    Hearts,
    /// ♠
    Spades,
    /// No trumps
    Notrump,
}

impl Strain {
    /// Rank of the strain: clubs 0 up to notrump 4
    pub open spec fn rank(self) -> int {
        match self {
            Strain::Clubs => 0,
            Strain::Diamonds => 1,
            Strain::Hearts => 2,
            Strain::Spades => 3,
            Strain::Notrump => 4,
        }
    }

    /// The strain of a rank in `0..5`
    pub open spec fn of_rank(rank: int) -> Strain
        recommends
            0 <= rank < 5,
    {
        if rank == 0 {
            Strain::Clubs
        } else if rank == 1 {
            Strain::Diamonds
        } else if rank == 2 {
            Strain::Hearts
        } else if rank == 3 {
            Strain::Spades
        } else {
            Strain::Notrump
        }
    }

    /// Rank of the strain as an index
    pub fn index(self) -> (r: usize)
        ensures
            r == self.rank(),
            r < 5,
    {
        match self {
            Strain::Clubs => 0,
            Strain::Diamonds => 1,
            Strain::Hearts => 2,
            Strain::Spades => 3,
            Strain::Notrump => 4,
        }
    }

    /// The strain of a given rank
    pub fn from_rank(rank: usize) -> (r: Strain)
        requires
            rank < 5,
        ensures
            r == Strain::of_rank(rank as int),
            r.rank() == rank,
    {
        if rank == 0 {
            Strain::Clubs
        } else if rank == 1 {
            Strain::Diamonds
        } else if rank == 2 {
            Strain::Hearts
        } else if rank == 3 {
            Strain::Spades
        } else {
            Strain::Notrump
        }
    }
}

/// Penalty of a contract: undoubled, doubled or redoubled
#[derive(Clone, Copy, Debug, PartialEq, Eq, Hash, Structural)]
pub enum Penalty {
    /// Undoubled
    Passed,
    /// Doubled
    Doubled,
    /// Redoubled
    Redoubled,
}

/// A bid: a level and a strain
#[derive(Clone, Copy, Debug, PartialEq, Eq, Hash, PartialOrd, Ord, Structural)]
pub struct Bid {
    /// The number of tricks above six that the bid names
    pub level: u8,
    /// The strain that the bid names
    pub strain: Strain,
}

/// Total order of bids: by level, then by strain
pub open spec fn bid_lt(a: Bid, b: Bid) -> bool {
    a.level < b.level || (a.level == b.level && a.strain.rank() < b.strain.rank())
}

impl Bid {
    /// Construct a bid
    pub fn new(level: u8, strain: Strain) -> (r: Bid)
        ensures
            r.level == level,
            r.strain == strain,
    {
        Bid { level, strain }
    }

    /// Whether this bid is strictly below `other` in the order of bids
    pub fn is_below(&self, other: &Bid) -> (r: bool)
        ensures
            r == bid_lt(*self, *other),
    {
        self.level < other.level || (self.level == other.level && self.strain.index()
            < other.strain.index())
    }
}

/// A call in an auction
#[derive(Clone, Copy, Debug, PartialEq, Eq, Hash, Structural)]
pub enum Call {
    /// Pass
    Pass,
    /// Double the last bid of the opponents
    Double,
    /// Redouble the double of the opponents
    Redouble,
    /// A bid
    Bid(Bid),
}

} // verus!
