//! Cards, holdings, hands and deals

use vstd::prelude::*;
use crate::contract::Strain;
use rand::seq::SliceRandom;

verus! {

/// A position at the table
#[derive(Clone, Copy, Debug, PartialEq, Eq, Hash, Structural)]
pub enum Seat {
    /// North
    North,
    /// East
    East,
    /// South
    South,
    /// West
    West,
}

impl Seat {
    /// Position of the seat in clockwise order from north
    pub open spec fn order(self) -> int {
        match self {
            Seat::North => 0,
            Seat::East => 1,
            Seat::South => 2,
            Seat::West => 3,
        }
    }

    /// Position of the seat as an index
    pub fn index(self) -> (r: usize)
        ensures
            r == self.order(),
            r < 4,
    {
        match self {
            Seat::North => 0,
            Seat::East => 1,
            Seat::South => 2,
            Seat::West => 3,
        }
    }

    /// The seat at a position in `0..4`
    pub fn from_index(index: usize) -> (r: Seat)
        requires
            index < 4,
        ensures
            r.order() == index,
    {
        if index == 0 {
            Seat::North
        } else if index == 1 {
            Seat::East
        } else if index == 2 {
            Seat::South
        } else {
            Seat::West
        }
    }
}

/// A playing card
#[derive(Clone, Copy, Debug, PartialEq, Eq, Hash, Structural)]
pub struct Card {
    /// The suit of the card
    pub suit: Strain,
    /// The rank of the card, from 2 up to 14 for the ace
    pub rank: u8,
}

impl Card {
    /// Construct a card
    pub fn new(suit: Strain, rank: u8) -> (r: Card)
        ensures
            r.suit == suit,
            r.rank == rank,
    {
        Card { suit, rank }
    }
}

/// A small set of values, held as bits
pub trait SmallSet<T>: Sized {
    /// Whether the set may be asked about the value
    spec fn admits(value: T) -> bool;

    /// Whether the set can hold the value
    spec fn holdable(value: T) -> bool;

    /// Whether the set holds the value
    spec fn holds(&self, value: T) -> bool;

    /// The number of values held
    spec fn size(&self) -> nat;

    /// The empty set
    fn empty() -> (r: Self)
        ensures
            r.size() == 0,
            forall|v: T| Self::admits(v) ==> !#[trigger] r.holds(v),
    ;

    /// The set of every value it can hold
    fn all() -> (r: Self)
        ensures
            forall|v: T| Self::admits(v) ==> (#[trigger] r.holds(v) <==> Self::holdable(v)),
    ;

    /// The number of values held
    fn len(&self) -> (r: usize)
        ensures
            r == self.size(),
    ;

    /// Whether no value is held
    fn is_empty(&self) -> (r: bool)
        ensures
            r == (self.size() == 0),
    ;

    /// Whether the value is held
    fn contains(&self, value: T) -> (r: bool)
        requires
            Self::admits(value),
        ensures
            r == self.holds(value),
    ;

    /// Hold the value if it can be held; whether it was newly added
    fn insert(&mut self, value: T) -> (r: bool)
        requires
            Self::admits(value),
        ensures
            r == (Self::holdable(value) && !old(self).holds(value)),
            forall|w: T|
                Self::admits(w) ==> (#[trigger] final(self).holds(w) == (old(self).holds(w) || (w
                    == value && Self::holdable(value)))),
    ;

    /// Drop the value; whether it was held
    fn remove(&mut self, value: T) -> (r: bool)
        requires
            Self::admits(value),
        ensures
            r == old(self).holds(value),
            forall|w: T|
                Self::admits(w) ==> (#[trigger] final(self).holds(w) == (old(self).holds(w) && w
                    != value)),
    ;

    /// Flip whether the value is held, if it can be held; whether it is held
    /// now
    fn toggle(&mut self, value: T) -> (r: bool)
        requires
            Self::admits(value),
        ensures
            r == final(self).holds(value),
            forall|w: T|
                Self::admits(w) ==> (#[trigger] final(self).holds(w) == (old(self).holds(w) != (w
                    == value && Self::holdable(value)))),
    ;
}

/// Mask of the ranks that a holding can hold: 2 up to 14
pub const ALL_RANKS: u16 = 0x7FFC;

/// Whether a rank can be held: 2 up to 14
pub open spec fn is_rank(rank: int) -> bool {
    2 <= rank <= 14
}

/// The number of set bits among the `k` lowest bits of `x`
pub open spec fn ones(x: nat, k: nat) -> nat
    decreases k,
{
    if k == 0 {
        0
    } else {
        x % 2 + ones(x / 2, (k - 1) as nat)
    }
}

/// No bit of zero is set
pub proof fn lemma_ones_zero(k: nat)
    ensures
        ones(0, k) == 0,
    decreases k,
{
    if k > 0 {
        lemma_ones_zero((k - 1) as nat);
    }
}

/// At most `k` of the `k` lowest bits are set
pub proof fn lemma_ones_bound(x: nat, k: nat)
    ensures
        ones(x, k) <= k,
    decreases k,
{
    if k > 0 {
        lemma_ones_bound(x / 2, (k - 1) as nat);
    }
}

/// A set of ranks in one suit, as a bit set
#[derive(Clone, Copy, Debug, Default, PartialEq, Eq, Hash, Structural)]
pub struct Holding(u16);

impl Holding {
    /// Whether the holding holds a rank below 16
    pub closed spec fn has(self, rank: int) -> bool {
        0 <= rank < 16 && self.0 & (1u16 << rank as u16) != 0
    }

    /// The bits of the holding
    pub closed spec fn raw(self) -> u16 {
        self.0
    }

    /// The number of ranks held
    pub closed spec fn count(self) -> nat {
        ones(self.0 as nat, 16)
    }

    /// A rank is held when its bit is set
    pub proof fn lemma_has_bit(self, rank: int)
        ensures
            self.has(rank) == (0 <= rank < 16 && self.raw() & (1u16 << rank as u16) != 0),
            self.count() == ones(self.raw() as nat, 16),
    {
    }

    /// Holdings with the same bits are the same holding
    pub proof fn lemma_same_bits(self, other: Holding)
        ensures
            self.raw() == other.raw() ==> self == other,
    {
    }

    /// A holding holds at most 16 ranks
    pub proof fn lemma_count_bound(self)
        ensures
            self.count() <= 16,
    {
        lemma_ones_bound(self.0 as nat, 16);
    }

    /// The bits of the holding: bit `r` is set when rank `r` is held
    pub fn bits(self) -> (r: u16)
        ensures
            r == self.raw(),
    {
        self.0
    }

    /// The holding of the ranks whose bits are set, bits outside `2..=14`
    /// dropped
    pub fn from_bits(bits: u16) -> (r: Holding)
        ensures
            r.raw() == bits & ALL_RANKS,
            bits & !ALL_RANKS == 0 ==> r.raw() == bits,
    {
        assert(bits & !0x7FFCu16 == 0 ==> bits & 0x7FFCu16 == bits) by (bit_vector);
        Holding(bits & ALL_RANKS)
    }
}

impl SmallSet<u8> for Holding {
    open spec fn admits(rank: u8) -> bool {
        rank < 16
    }

    open spec fn holdable(rank: u8) -> bool {
        is_rank(rank as int)
    }

    open spec fn holds(&self, rank: u8) -> bool {
        self.has(rank as int)
    }

    open spec fn size(&self) -> nat {
        self.count()
    }

    fn empty() -> (r: Holding) {
        let r = Holding(0);
        assert forall|v: u8| v < 16 implies !#[trigger] r.has(v as int) by {
            assert(0u16 & (1u16 << v as u16) == 0) by (bit_vector);
        }
        proof {
            lemma_ones_zero(16nat);
        }
        r
    }

    fn all() -> (r: Holding) {
        let r = Holding(ALL_RANKS);
        assert forall|v: u8| v < 16 implies (#[trigger] r.has(v as int) <==> is_rank(v as int)) by {
            assert((0x7FFCu16 & (1u16 << v as u16) != 0) <==> (2 <= v && v <= 14)) by (bit_vector)
                requires
                    v < 16,
            ;
        }
        r
    }

    fn len(&self) -> (r: usize) {
        let mut x: u16 = self.0;
        let mut n: usize = 0;
        let mut i: usize = 0;
        while i < 16
            invariant
                i <= 16,
                n <= i,
                n + ones(x as nat, (16 - i) as nat) == ones(self.0 as nat, 16),
            decreases 16 - i,
        {
            assert(x & 1 == x % 2 && x >> 1 == x / 2) by (bit_vector);
            n = n + (x & 1) as usize;
            x = x >> 1;
            i = i + 1;
        }
        n
    }

    fn is_empty(&self) -> (r: bool) {
        self.len() == 0
    }

    fn contains(&self, rank: u8) -> (r: bool) {
        self.0 & (1u16 << rank as u16) != 0
    }

    fn insert(&mut self, rank: u8) -> (r: bool) {
        let a = self.0;
        let insertion: u16 = (1u16 << rank as u16) & ALL_RANKS;
        let inserted = insertion & !a != 0;
        self.0 = a | insertion;
        assert(((1u16 << rank as u16) & 0x7FFCu16) & !a != 0 <==> (2 <= rank && rank <= 14 && a & (
        1u16 << rank as u16) == 0)) by (bit_vector)
            requires
                rank < 16,
        ;
        assert forall|w: u8| w < 16 implies (#[trigger] self.has(w as int) == (
        Holding(a).has(w as int) || (w == rank && is_rank(rank as int)))) by {
            assert((a | ((1u16 << rank as u16) & 0x7FFCu16)) & (1u16 << w as u16) != 0 <==> (a & (
            1u16 << w as u16) != 0 || (w == rank && 2 <= rank && rank <= 14))) by (bit_vector)
                requires
                    rank < 16,
                    w < 16,
            ;
        }
        inserted
    }

    fn remove(&mut self, rank: u8) -> (r: bool) {
        let removed = self.contains(rank);
        let a = self.0;
        self.0 = a & !(1u16 << rank as u16);
        assert forall|w: u8| w < 16 implies (#[trigger] self.has(w as int) == (Holding(a).has(
            w as int,
        ) && w != rank)) by {
            assert((a & !(1u16 << rank as u16)) & (1u16 << w as u16) != 0 <==> (a & (1u16
                << w as u16) != 0 && w != rank)) by (bit_vector)
                requires
                    rank < 16,
                    w < 16,
            ;
        }
        removed
    }

    fn toggle(&mut self, rank: u8) -> (r: bool) {
        let a = self.0;
        self.0 = a ^ ((1u16 << rank as u16) & ALL_RANKS);
        assert forall|w: u8| w < 16 implies (#[trigger] self.has(w as int) == (Holding(a).has(
            w as int,
        ) != (w == rank && is_rank(rank as int)))) by {
            assert((a ^ ((1u16 << rank as u16) & 0x7FFCu16)) & (1u16 << w as u16) != 0 <==> ((a & (
            1u16 << w as u16) != 0) != (w == rank && 2 <= rank && rank <= 14))) by (bit_vector)
                requires
                    rank < 16,
                    w < 16,
            ;
        }
        self.contains(rank)
    }
}

/// A hand: a holding in each of the four suits
#[derive(Clone, Copy, Debug, Default, PartialEq, Eq, Hash, Structural)]
pub struct Hand(Holding, Holding, Holding, Holding);

impl Hand {
    /// The holding in a suit
    pub closed spec fn suit(self, suit: Strain) -> Holding {
        match suit {
            Strain::Clubs => self.0,
            Strain::Diamonds => self.1,
            Strain::Hearts => self.2,
            Strain::Spades => self.3,
            Strain::Notrump => self.0,
        }
    }

    /// The holding in a suit
    pub fn holding(&self, suit: Strain) -> (r: Holding)
        requires
            suit != Strain::Notrump,
        ensures
            r == self.suit(suit),
    {
        match suit {
            Strain::Clubs => self.0,
            Strain::Diamonds => self.1,
            Strain::Hearts => self.2,
            Strain::Spades => self.3,
            Strain::Notrump => self.0,
        }
    }

    /// The holding in a suit, to change
    pub fn holding_mut(&mut self, suit: Strain) -> (r: &mut Holding)
        requires
            suit != Strain::Notrump,
        ensures
            *r == old(self).suit(suit),
            final(self).suit(suit) == *final(r),
            forall|t: Strain|
                t != suit && t != Strain::Notrump ==> #[trigger] final(self).suit(t) == old(self).suit(t),
    {
        match suit {
            Strain::Clubs => &mut self.0,
            Strain::Diamonds => &mut self.1,
            Strain::Hearts => &mut self.2,
            Strain::Spades => &mut self.3,
            Strain::Notrump => &mut self.0,
        }
    }
}

impl SmallSet<Card> for Hand {
    open spec fn admits(card: Card) -> bool {
        card.suit != Strain::Notrump && card.rank < 16
    }

    open spec fn holdable(card: Card) -> bool {
        card.suit != Strain::Notrump && is_rank(card.rank as int)
    }

    open spec fn holds(&self, card: Card) -> bool {
        card.suit != Strain::Notrump && self.suit(card.suit).has(card.rank as int)
    }

    open spec fn size(&self) -> nat {
        self.suit(Strain::Clubs).count() + self.suit(Strain::Diamonds).count() + self.suit(
            Strain::Hearts,
        ).count() + self.suit(Strain::Spades).count()
    }

    fn empty() -> (r: Hand) {
        let r = Hand(Holding::empty(), Holding::empty(), Holding::empty(), Holding::empty());
        assert forall|c: Card| Hand::admits(c) implies !#[trigger] r.holds(c) by {
            assert(!r.suit(c.suit).holds(c.rank));
        }
        r
    }

    fn all() -> (r: Hand) {
        let r = Hand(Holding::all(), Holding::all(), Holding::all(), Holding::all());
        assert forall|c: Card| Hand::admits(c) implies (#[trigger] r.holds(c) <==> Hand::holdable(c)) by {
            assert(r.suit(c.suit).holds(c.rank) <==> Holding::holdable(c.rank));
        }
        r
    }

    fn len(&self) -> (r: usize) {
        proof {
            lemma_ones_bound(self.0.0 as nat, 16);
            lemma_ones_bound(self.1.0 as nat, 16);
            lemma_ones_bound(self.2.0 as nat, 16);
            lemma_ones_bound(self.3.0 as nat, 16);
        }
        self.0.len() + self.1.len() + self.2.len() + self.3.len()
    }

    fn is_empty(&self) -> (r: bool) {
        self.len() == 0
    }

    fn contains(&self, card: Card) -> (r: bool) {
        self.holding(card.suit).contains(card.rank)
    }

    fn insert(&mut self, card: Card) -> (r: bool) {
        let ghost before = *self;
        let r = match card.suit {
            Strain::Clubs => self.0.insert(card.rank),
            Strain::Diamonds => self.1.insert(card.rank),
            Strain::Hearts => self.2.insert(card.rank),
            Strain::Spades => self.3.insert(card.rank),
            Strain::Notrump => false,
        };
        proof {
            assert forall|w: Card| Hand::admits(w) implies (#[trigger] self.holds(w) == (before.holds(w) || (w == card && Hand::holdable(card)))) by {
                if w.suit == card.suit {
                    assert(self.suit(w.suit).holds(w.rank) == (before.suit(w.suit).holds(w.rank) || (w.rank == card.rank && Holding::holdable(card.rank))));
                } else {
                    assert(self.suit(w.suit) == before.suit(w.suit));
                }
            }
        }
        r
    }

    fn remove(&mut self, card: Card) -> (r: bool) {
        let ghost before = *self;
        let r = match card.suit {
            Strain::Clubs => self.0.remove(card.rank),
            Strain::Diamonds => self.1.remove(card.rank),
            Strain::Hearts => self.2.remove(card.rank),
            Strain::Spades => self.3.remove(card.rank),
            Strain::Notrump => false,
        };
        proof {
            assert forall|w: Card| Hand::admits(w) implies (#[trigger] self.holds(w) == (before.holds(w) && w != card)) by {
                if w.suit == card.suit {
                    assert(self.suit(w.suit).holds(w.rank) == (before.suit(w.suit).holds(w.rank) && w.rank != card.rank));
                } else {
                    assert(self.suit(w.suit) == before.suit(w.suit));
                }
            }
        }
        r
    }

    fn toggle(&mut self, card: Card) -> (r: bool) {
        let ghost before = *self;
        let r = match card.suit {
            Strain::Clubs => self.0.toggle(card.rank),
            Strain::Diamonds => self.1.toggle(card.rank),
            Strain::Hearts => self.2.toggle(card.rank),
            Strain::Spades => self.3.toggle(card.rank),
            Strain::Notrump => false,
        };
        proof {
            assert forall|w: Card| Hand::admits(w) implies (#[trigger] self.holds(w) == (before.holds(w) != (w == card && Hand::holdable(card)))) by {
                if w.suit == card.suit {
                    assert(self.suit(w.suit).holds(w.rank) == (before.suit(w.suit).holds(w.rank) != (w.rank == card.rank && Holding::holdable(card.rank))));
                } else {
                    assert(self.suit(w.suit) == before.suit(w.suit));
                }
            }
        }
        r
    }
}

/// A deal: a hand for each seat
#[derive(Clone, Copy, Debug, Default, PartialEq, Eq, Hash)]
pub struct Deal([Hand; 4]);

impl Deal {
    /// The hand at a seat
    pub closed spec fn seat(self, seat: Seat) -> Hand {
        self.0@[seat.order()]
    }

    /// A deal of four empty hands
    pub fn new() -> (r: Deal)
        ensures
            forall|s: Seat, c: Card| Hand::admits(c) ==> !#[trigger] r.seat(s).holds(c),
    {
        Deal([Hand::empty(), Hand::empty(), Hand::empty(), Hand::empty()])
    }

    /// The hand at a seat
    pub fn hand(&self, seat: Seat) -> (r: Hand)
        ensures
            r == self.seat(seat),
    {
        self.0[seat.index()]
    }

    /// The hand at a seat, to change
    pub fn hand_mut(&mut self, seat: Seat) -> (r: &mut Hand)
        ensures
            *r == old(self).seat(seat),
            final(self).seat(seat) == *final(r),
            forall|t: Seat| t != seat ==> #[trigger] final(self).seat(t) == old(self).seat(t),
    {
        &mut self.0[seat.index()]
    }
}

/// The standard deck: thirteen ranks of clubs, then of diamonds, hearts and
/// spades, each from 2 up to the ace
pub open spec fn standard_cards() -> Seq<Card> {
    Seq::new(52, |i: int| Card { suit: Strain::of_rank(i / 13), rank: (i % 13 + 2) as u8 })
}

/// Whether a card can be dealt into a hand
pub open spec fn is_dealable(card: Card) -> bool {
    card.suit != Strain::Notrump && card.rank < 16
}

/// Relies on `rand::seq::SliceRandom::shuffle` with the thread-local
/// generator: it swaps elements only, so the cards are permuted
#[verifier::external_body]
fn shuffle_cards(cards: &mut Vec<Card>)
    ensures
        final(cards)@.to_multiset() == old(cards)@.to_multiset(),
{
    cards.shuffle(&mut rand::thread_rng());
}

/// A deck of cards
#[derive(Clone, Debug, Default)]
pub struct Deck {
    /// The cards, in the order in which they are dealt
    pub cards: Vec<Card>,
}

impl Deck {
    /// The standard 52-card deck, in order
    pub fn standard_52() -> (r: Deck)
        ensures
            r.cards@ == standard_cards(),
    {
        let mut cards: Vec<Card> = Vec::new();
        let mut s: usize = 0;
        while s < 4
            invariant
                s <= 4,
                cards@ == standard_cards().subrange(0, 13 * s as int),
            decreases 4 - s,
        {
            let suit = Strain::from_rank(s);
            let mut rank: u8 = 2;
            while rank < 15
                invariant
                    s < 4,
                    2 <= rank <= 15,
                    suit == Strain::of_rank(s as int),
                    cards@ == standard_cards().subrange(0, 13 * s + rank - 2),
                decreases 15 - rank,
            {
                proof {
                    let i = 13 * s + rank - 2;
                    assert(i / 13 == s && i % 13 + 2 == rank) by (nonlinear_arith)
                        requires
                            i == 13 * s + rank - 2,
                            2 <= rank < 15,
                    ;
                }
                cards.push(Card::new(suit, rank));
                assert(cards@ =~= standard_cards().subrange(0, 13 * s + rank - 1));
                rank += 1;
            }
            s += 1;
        }
        assert(cards@ =~= standard_cards());
        Deck { cards }
    }

    /// Deal the cards round the table, the first to north
    ///
    /// A card goes to the seat of its position modulo 4.
    pub fn deal(&self) -> (r: Deal)
        requires
            forall|i: int| 0 <= i < self.cards@.len() ==> is_dealable(#[trigger] self.cards@[i]),
        ensures
            forall|seat: Seat, c: Card|
                is_dealable(c) ==> (#[trigger] r.seat(seat).holds(c) <==> Hand::holdable(c) && exists|
                    i: int,
                |
                    0 <= i < self.cards@.len() && i % 4 == seat.order() && #[trigger] self.cards@[i]
                        == c),
    {
        let mut deal = Deal::new();
        let mut i: usize = 0;
        while i < self.cards.len()
            invariant
                i <= self.cards@.len(),
                forall|k: int| 0 <= k < self.cards@.len() ==> is_dealable(#[trigger] self.cards@[k]),
                forall|seat: Seat, c: Card|
                    is_dealable(c) ==> (#[trigger] deal.seat(seat).holds(c) <==> Hand::holdable(c)
                        && exists|k: int|
                        0 <= k < i && k % 4 == seat.order() && #[trigger] self.cards@[k] == c),
            decreases self.cards@.len() - i,
        {
            let card = self.cards[i];
            let seat = Seat::from_index(i % 4);
            let ghost before = deal;
            let hand = deal.hand_mut(seat);
            hand.insert(card);
            proof {
                assert forall|t: Seat, c: Card| is_dealable(c) implies (#[trigger] deal.seat(t).holds(
                    c,
                ) <==> Hand::holdable(c) && exists|k: int|
                    0 <= k < i + 1 && k % 4 == t.order() && #[trigger] self.cards@[k] == c) by {
                    if t == seat && c == card {
                        if Hand::holdable(c) {
                            assert(self.cards@[i as int] == c);
                        }
                    } else if t == seat {
                        if exists|k: int| 0 <= k < i + 1 && k % 4 == t.order() && #[trigger] self.cards@[k] == c {
                            let k = choose|k: int| 0 <= k < i + 1 && k % 4 == t.order() && #[trigger] self.cards@[k] == c;
                            assert(k < i);
                        }
                    } else {
                        assert(deal.seat(t) == before.seat(t));
                        if exists|k: int| 0 <= k < i + 1 && k % 4 == t.order() && #[trigger] self.cards@[k] == c {
                            let k = choose|k: int| 0 <= k < i + 1 && k % 4 == t.order() && #[trigger] self.cards@[k] == c;
                            assert(k != i);
                        }
                    }
                }
            }
            i += 1;
        }
        deal
    }

    /// Shuffle the deck
    pub fn shuffle(&mut self)
        ensures
            final(self).cards@.to_multiset() == old(self).cards@.to_multiset(),
    {
        shuffle_cards(&mut self.cards);
    }
}

/// A shuffled standard 52-card deck
pub fn shuffled_standard_52_deck() -> (r: Deck)
    ensures
        r.cards@.to_multiset() == standard_cards().to_multiset(),
{
    let mut deck = Deck::standard_52();
    deck.shuffle();
    deck
}

/// The character of a rank from 2 up to the ace
pub open spec fn rank_symbol(rank: int) -> char {
    if rank == 14 {
        'A'
    } else if rank == 13 {
        'K'
    } else if rank == 12 {
        'Q'
    } else if rank == 11 {
        'J'
    } else if rank == 10 {
        'T'
    } else {
        ((rank + 48) as u8) as char
    }
}

/// The characters of the ranks held from `rank` down to 2
pub open spec fn ranks_text(h: Holding, rank: int) -> Seq<char>
    decreases rank,
{
    if rank < 2 {
        Seq::empty()
    } else {
        let rest = ranks_text(h, rank - 1);
        if h.has(rank) {
            seq![rank_symbol(rank)] + rest
        } else {
            rest
        }
    }
}

/// The character of a rank from 2 up to the ace
pub fn rank_char(rank: u8) -> (r: char)
    requires
        is_rank(rank as int),
    ensures
        r == rank_symbol(rank as int),
{
    if rank == 14 {
        'A'
    } else if rank == 13 {
        'K'
    } else if rank == 12 {
        'Q'
    } else if rank == 11 {
        'J'
    } else if rank == 10 {
        'T'
    } else {
        ((rank + 48) as u8) as char
    }
}

impl Holding {
    /// The held ranks from the ace down, as in `AKT5`
    pub fn text(&self) -> (r: Vec<char>)
        ensures
            r@ == ranks_text(*self, 14),
    {
        let mut out: Vec<char> = Vec::new();
        let mut rank: u8 = 14;
        while rank >= 2
            invariant
                1 <= rank <= 14,
                out@ + ranks_text(*self, rank as int) == ranks_text(*self, 14),
            decreases rank,
        {
            if self.contains(rank) {
                out.push(rank_char(rank));
                assert(out@ + ranks_text(*self, rank - 1) =~= ranks_text(*self, 14));
            }
            rank -= 1;
        }
        assert(out@ =~= out@ + ranks_text(*self, 1));
        out
    }
}

/// The holdings of a hand from spades down, separated by dots
pub open spec fn hand_text(hand: Hand) -> Seq<char> {
    ranks_text(hand.suit(Strain::Spades), 14) + seq!['.'] + ranks_text(hand.suit(Strain::Hearts), 14)
        + seq!['.'] + ranks_text(hand.suit(Strain::Diamonds), 14) + seq!['.'] + ranks_text(
        hand.suit(Strain::Clubs),
        14,
    )
}

impl Hand {
    /// The holdings from spades down, as in `AK5.QJ2.T98.7643`
    pub fn text(&self) -> (r: Vec<char>)
        ensures
            r@ == hand_text(*self),
    {
        let mut out = self.holding(Strain::Spades).text();
        let mut hearts = self.holding(Strain::Hearts).text();
        let mut diamonds = self.holding(Strain::Diamonds).text();
        let mut clubs = self.holding(Strain::Clubs).text();
        out.push('.');
        out.append(&mut hearts);
        out.push('.');
        out.append(&mut diamonds);
        out.push('.');
        out.append(&mut clubs);
        out
    }
}

/// The hands of a deal from north round the table, after `N:` and separated
/// by spaces
pub open spec fn deal_text(deal: Deal) -> Seq<char> {
    seq!['N', ':'] + hand_text(deal.seat(Seat::North)) + seq![' '] + hand_text(
        deal.seat(Seat::East),
    ) + seq![' '] + hand_text(deal.seat(Seat::South)) + seq![' '] + hand_text(
        deal.seat(Seat::West),
    )
}

impl Deal {
    /// The deal in the notation of the portable bridge format, north first
    pub fn text(&self) -> (r: Vec<char>)
        ensures
            r@ == deal_text(*self),
    {
        let mut out: Vec<char> = Vec::new();
        out.push('N');
        out.push(':');
        let mut north = self.hand(Seat::North).text();
        let mut east = self.hand(Seat::East).text();
        let mut south = self.hand(Seat::South).text();
        let mut west = self.hand(Seat::West).text();
        out.append(&mut north);
        out.push(' ');
        out.append(&mut east);
        out.push(' ');
        out.append(&mut south);
        out.push(' ');
        out.append(&mut west);
        assert(out@ =~= deal_text(*self));
        out
    }
}

} // verus!
