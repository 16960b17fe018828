//! Tricks that each seat takes in each strain, as double dummy analysis
//! finds them

use vstd::prelude::*;
use crate::contract::Strain;
use crate::deal::{Deal, Seat};

verus! {

/// Four 4-bit fields, north in the lowest bits, then east, south and west
pub open spec fn pack(n: u8, e: u8, s: u8, w: u8) -> u16 {
    (n as u16) | ((e as u16) << 4u16) | ((s as u16) << 8u16) | ((w as u16) << 12u16)
}

/// The number of tricks that each seat takes in a strain
#[derive(Clone, Copy, Debug, PartialEq, Eq, Hash, Structural)]
pub struct TricksPerStrain(u16);

impl TricksPerStrain {
    /// The packed fields
    pub closed spec fn raw(self) -> u16 {
        self.0
    }

    /// The field of a seat
    pub open spec fn tricks(self, seat: Seat) -> u8 {
        ((self.raw() >> (4 * seat.order()) as u16) & 0xFu16) as u8
    }

    /// Pack the tricks of north, east, south and west
    ///
    /// A count takes four bits: counts up to 15 read back as given.
    pub fn new(n: u8, e: u8, s: u8, w: u8) -> (r: TricksPerStrain)
        ensures
            r.raw() == pack(n, e, s, w),
            n < 16 && e < 16 && s < 16 && w < 16 ==> {
                &&& r.tricks(Seat::North) == n
                &&& r.tricks(Seat::East) == e
                &&& r.tricks(Seat::South) == s
                &&& r.tricks(Seat::West) == w
            },
    {
        let r = TricksPerStrain(
            (n as u16) | ((e as u16) << 4u16) | ((s as u16) << 8u16) | ((w as u16) << 12u16),
        );
        proof {
            if n < 16 && e < 16 && s < 16 && w < 16 {
                let x = r.0;
                assert(((x >> 0u16) & 0xFu16) as u8 == n && ((x >> 4u16) & 0xFu16) as u8 == e && ((x
                    >> 8u16) & 0xFu16) as u8 == s && ((x >> 12u16) & 0xFu16) as u8 == w)
                    by (bit_vector)
                    requires
                        x == (n as u16) | ((e as u16) << 4u16) | ((s as u16) << 8u16) | ((w as u16)
                            << 12u16),
                        n < 16,
                        e < 16,
                        s < 16,
                        w < 16,
                ;
            }
        }
        r
    }

    /// The number of tricks that a seat takes
    pub fn at(&self, seat: Seat) -> (r: u8)
        ensures
            r == self.tricks(seat),
            r < 16,
    {
        let shift = 4 * seat.index() as u16;
        let x = self.0;
        assert(((x >> shift) & 0xFu16) < 16) by (bit_vector);
        ((x >> shift) & 0xF) as u8
    }
}

/// Pack a row of the solver's results: the tricks of north, east, south and
/// west, each cut to its lowest eight bits
#[verifier::truncate]
pub fn make_row(row: [i32; 4]) -> (r: TricksPerStrain)
    ensures
        r.raw() == pack(row[0] as u8, row[1] as u8, row[2] as u8, row[3] as u8),
{
    TricksPerStrain::new(
        #[verifier::truncate]
        (row[0] as u8),
        #[verifier::truncate]
        (row[1] as u8),
        #[verifier::truncate]
        (row[2] as u8),
        #[verifier::truncate]
        (row[3] as u8),
    )
}

/// The position of a strain in the solver's tables: spades, hearts,
/// diamonds, clubs, then notrump
pub open spec fn solver_order(strain: Strain) -> int {
    match strain {
        Strain::Spades => 0,
        Strain::Hearts => 1,
        Strain::Diamonds => 2,
        Strain::Clubs => 3,
        Strain::Notrump => 4,
    }
}

/// The number of tricks that each seat takes in each strain
#[derive(Clone, Copy, Debug, PartialEq, Eq)]
pub struct TricksTable([TricksPerStrain; 5]);

impl TricksTable {
    /// The tricks in a strain
    pub closed spec fn row(self, strain: Strain) -> TricksPerStrain {
        self.0@[strain.rank()]
    }

    /// The tricks in a strain
    pub fn get(&self, strain: Strain) -> (r: TricksPerStrain)
        ensures
            r == self.row(strain),
    {
        self.0[strain.index()]
    }

    /// The table of the solver's results, whose rows come in the solver's
    /// order of strains
    pub fn from_solver_rows(rows: &[[i32; 4]; 5]) -> (r: TricksTable)
        ensures
            forall|strain: Strain| #[trigger]
                r.row(strain).raw() == {
                    let row = rows@[solver_order(strain)];
                    pack(row@[0] as u8, row@[1] as u8, row@[2] as u8, row@[3] as u8)
                },
    {
        let r = TricksTable(
            [
                make_row(rows[3]),
                make_row(rows[2]),
                make_row(rows[1]),
                make_row(rows[0]),
                make_row(rows[4]),
            ],
        );
        assert forall|strain: Strain| #[trigger]
            r.row(strain).raw() == {
                let row = rows@[solver_order(strain)];
                pack(row@[0] as u8, row@[1] as u8, row@[2] as u8, row@[3] as u8)
            } by {
            match strain {
                Strain::Clubs => {},
                Strain::Diamonds => {},
                Strain::Hearts => {},
                Strain::Spades => {},
                Strain::Notrump => {},
            }
        }
        r
    }
}

/// The suit at a position of the solver's order: spades, hearts, diamonds,
/// then clubs
pub open spec fn solver_suit(k: int) -> Strain {
    if k == 0 {
        Strain::Spades
    } else if k == 1 {
        Strain::Hearts
    } else if k == 2 {
        Strain::Diamonds
    } else {
        Strain::Clubs
    }
}

/// The seat at a position in clockwise order from north
pub open spec fn seat_at(k: int) -> Seat {
    if k == 0 {
        Seat::North
    } else if k == 1 {
        Seat::East
    } else if k == 2 {
        Seat::South
    } else {
        Seat::West
    }
}

/// A deal laid out for the solver: for each seat from north, the bits of its
/// holdings in the solver's order of suits
#[derive(Clone, Copy, Debug, Default, PartialEq, Eq)]
pub struct TableDeal {
    /// The holdings, by seat and then by suit
    pub cards: [[u32; 4]; 4],
}

impl TableDeal {
    /// Lay out a deal for the solver
    pub fn from_deal(deal: &Deal) -> (r: TableDeal)
        ensures
            forall|i: int, k: int|
                0 <= i < 4 && 0 <= k < 4 ==> #[trigger] r.cards@[i]@[k] == deal.seat(seat_at(i)).suit(
                    solver_suit(k),
                ).raw() as u32,
    {
        let mut cards: [[u32; 4]; 4] = [[0; 4]; 4];
        let mut i: usize = 0;
        while i < 4
            invariant
                i <= 4,
                forall|j: int, k: int|
                    0 <= j < i && 0 <= k < 4 ==> #[trigger] cards@[j]@[k] == deal.seat(seat_at(j)).suit(
                        solver_suit(k),
                    ).raw() as u32,
            decreases 4 - i,
        {
            let seat = Seat::from_index(i);
            assert(seat == seat_at(i as int));
            let hand = deal.hand(seat);
            let row: [u32; 4] = [
                hand.holding(Strain::Spades).bits() as u32,
                hand.holding(Strain::Hearts).bits() as u32,
                hand.holding(Strain::Diamonds).bits() as u32,
                hand.holding(Strain::Clubs).bits() as u32,
            ];
            cards[i] = row;
            i += 1;
        }
        TableDeal { cards }
    }
}

/// The upper-case hexadecimal digit of a value below 16
pub open spec fn hex_symbol(d: int) -> char {
    if d < 10 {
        ((d + 48) as u8) as char
    } else {
        ((d + 55) as u8) as char
    }
}

/// The tricks of north, east, south and west as hexadecimal digits
pub open spec fn row_text(row: TricksPerStrain) -> Seq<char> {
    seq![
        hex_symbol(row.tricks(Seat::North) as int),
        hex_symbol(row.tricks(Seat::East) as int),
        hex_symbol(row.tricks(Seat::South) as int),
        hex_symbol(row.tricks(Seat::West) as int),
    ]
}

/// The upper-case hexadecimal digit of a value below 16
pub fn hex_char(d: u8) -> (r: char)
    requires
        d < 16,
    ensures
        r == hex_symbol(d as int),
{
    if d < 10 {
        (d + 48) as char
    } else {
        (d + 55) as char
    }
}

impl TricksPerStrain {
    /// The tricks of north, east, south and west as hexadecimal digits, as in
    /// `9484`
    pub fn text(&self) -> (r: Vec<char>)
        ensures
            r@ == row_text(*self),
    {
        let mut out: Vec<char> = Vec::new();
        out.push(hex_char(self.at(Seat::North)));
        out.push(hex_char(self.at(Seat::East)));
        out.push(hex_char(self.at(Seat::South)));
        out.push(hex_char(self.at(Seat::West)));
        assert(out@ =~= row_text(*self));
        out
    }
}

impl TricksTable {
    /// The rows from clubs up to notrump, one after another
    pub fn text(&self) -> (r: Vec<char>)
        ensures
            r@ == row_text(self.row(Strain::Clubs)) + row_text(self.row(Strain::Diamonds)) + row_text(
                self.row(Strain::Hearts),
            ) + row_text(self.row(Strain::Spades)) + row_text(self.row(Strain::Notrump)),
    {
        let mut out = self.get(Strain::Clubs).text();
        let mut diamonds = self.get(Strain::Diamonds).text();
        let mut hearts = self.get(Strain::Hearts).text();
        let mut spades = self.get(Strain::Spades).text();
        let mut notrump = self.get(Strain::Notrump).text();
        out.append(&mut diamonds);
        out.append(&mut hearts);
        out.append(&mut spades);
        out.append(&mut notrump);
        out
    }
}

} // verus!
