use pons::contract::Strain;
use pons::dds::{make_row, TableDeal, TricksPerStrain, TricksTable};
use pons::deal::{shuffled_standard_52_deck, Card, Deck, Hand, Holding, Seat, SmallSet};
use pons::eval::{hcp, hcp_plus, ltc, shortness, zar};
use pons::stats::{rev_cumsum, Histogram};

fn hand_of(holdings: [u16; 4]) -> Hand {
    let suits = [Strain::Clubs, Strain::Diamonds, Strain::Hearts, Strain::Spades];
    let mut hand = Hand::empty();
    for (suit, bits) in suits.into_iter().zip(holdings) {
        *hand.holding_mut(suit) = Holding::from_bits(bits);
    }
    hand
}

#[test]
fn holding_set_operations() {
    let mut h = Holding::empty();
    assert!(h.is_empty());
    assert!(h.insert(14));
    assert!(!h.insert(14));
    assert!(!h.insert(15));
    assert!(h.insert(2));
    assert_eq!(h.len(), 2);
    assert!(h.contains(14));
    assert_eq!(h.bits(), 0b0100_0000_0000_0100);
    assert!(h.remove(14));
    assert!(!h.remove(14));
    assert!(h.toggle(10));
    assert!(!h.toggle(10));
    assert_eq!(Holding::all().len(), 13);
    assert_eq!(Holding::from_bits(0xFFFF).bits(), 0x7FFC);
}

#[test]
fn hand_holds_cards_by_suit() {
    let mut hand = Hand::empty();
    assert!(hand.insert(Card::new(Strain::Spades, 14)));
    assert!(hand.contains(Card::new(Strain::Spades, 14)));
    assert!(!hand.contains(Card::new(Strain::Hearts, 14)));
    assert_eq!(hand.len(), 1);
    assert_eq!(Hand::all().len(), 52);
    assert_eq!(hand.holding(Strain::Spades).bits(), 1 << 14);
}

#[test]
fn standard_deck_and_deal() {
    let deck = Deck::standard_52();
    assert_eq!(deck.cards.len(), 52);
    assert_eq!(deck.cards[0], Card::new(Strain::Clubs, 2));
    assert_eq!(deck.cards[51], Card::new(Strain::Spades, 14));
    let deal = deck.deal();
    for seat in [Seat::North, Seat::East, Seat::South, Seat::West] {
        assert_eq!(deal.hand(seat).len(), 13);
    }
    assert!(deal.hand(Seat::North).contains(Card::new(Strain::Clubs, 2)));
    assert!(deal.hand(Seat::East).contains(Card::new(Strain::Clubs, 3)));
    assert!(deal.hand(Seat::West).contains(Card::new(Strain::Spades, 14)));
}

#[test]
fn shuffle_permutes_the_deck() {
    let standard = Deck::standard_52();
    let shuffled = shuffled_standard_52_deck();
    assert_eq!(shuffled.cards.len(), 52);
    assert_ne!(shuffled.cards, standard.cards);
    let key = |c: &Card| (c.suit as u8, c.rank);
    let mut sorted = shuffled.cards.clone();
    sorted.sort_by_key(key);
    let mut expected = standard.cards.clone();
    expected.sort_by_key(key);
    assert_eq!(sorted, expected);
}

#[test]
fn tricks_per_strain_fields() {
    let row = TricksPerStrain::new(9, 4, 8, 3);
    assert_eq!(row.at(Seat::North), 9);
    assert_eq!(row.at(Seat::East), 4);
    assert_eq!(row.at(Seat::South), 8);
    assert_eq!(row.at(Seat::West), 3);
    let made = make_row([13, 0, 12, 1]);
    assert_eq!(made.at(Seat::North), 13);
    assert_eq!(made.at(Seat::West), 1);
    let table = TricksTable::from_solver_rows(&[
        [1, 2, 3, 4],
        [5, 6, 7, 8],
        [9, 10, 11, 12],
        [13, 0, 1, 2],
        [3, 4, 5, 6],
    ]);
    assert_eq!(table.get(Strain::Spades).at(Seat::North), 1);
    assert_eq!(table.get(Strain::Clubs).at(Seat::North), 13);
    assert_eq!(table.get(Strain::Notrump).at(Seat::West), 6);
}

#[test]
fn reverse_cumulative_sums() {
    let mut h = [0usize; 14];
    h[13] = 1;
    h[7] = 2;
    h[0] = 5;
    let r = rev_cumsum(h);
    assert_eq!(r[13], 1);
    assert_eq!(r[8], 1);
    assert_eq!(r[7], 3);
    assert_eq!(r[1], 3);
    assert_eq!(r[0], 8);
}

#[test]
fn histogram_records_a_deal() {
    let mut hist = Histogram::new();
    hist.record(TricksPerStrain::new(9, 4, 8, 3));
    assert_eq!(hist.each[9], 1);
    assert_eq!(hist.each[4], 1);
    assert_eq!(hist.each[8], 1);
    assert_eq!(hist.each[3], 1);
    assert_eq!(hist.right[9], 1);
    assert_eq!(hist.right[4], 1);
    assert_eq!(hist.max[9], 1);
    assert_eq!(hist.max[8], 0);
}

#[test]
fn four_kings_point_counts() {
    let kxxx = 0b01000_0000_0111_00;
    let kxx = 0b01000_0000_0011_00;
    let hand = hand_of([kxxx, kxx, kxx, kxx]);
    let suits = [Strain::Clubs, Strain::Diamonds, Strain::Hearts, Strain::Spades];
    let total = |f: fn(Holding) -> u8| suits.iter().map(|&s| f(hand.holding(s)) as u32).sum::<u32>();
    assert_eq!(total(hcp), 12);
    assert_eq!(total(ltc), 8);
    assert_eq!(total(shortness), 0);
}

#[test]
fn cuebids_hand_point_counts() {
    let kj53 = 0b01010_0000_1010_00;
    let k84 = 0b01000_0100_0100_00;
    let xx = 0b00000_0000_0110_00;
    let kt85 = 0b01001_0100_1000_00;
    let hand = hand_of([kt85, xx, k84, kj53]);
    let suits = [Strain::Clubs, Strain::Diamonds, Strain::Hearts, Strain::Spades];
    let total = |f: fn(Holding) -> u8| suits.iter().map(|&s| f(hand.holding(s)) as u32).sum::<u32>();
    assert_eq!(total(hcp), 10);
    assert_eq!(total(hcp_plus), 11);
    assert_eq!(total(ltc), 8);
    assert_eq!(zar(hand), 23);
}

#[test]
fn deal_laid_out_for_the_solver() {
    let deal = Deck::standard_52().deal();
    let table = TableDeal::from_deal(&deal);
    let north_clubs = deal.hand(Seat::North).holding(Strain::Clubs).bits();
    let west_spades = deal.hand(Seat::West).holding(Strain::Spades).bits();
    assert_eq!(table.cards[0][3], u32::from(north_clubs));
    assert_eq!(table.cards[3][0], u32::from(west_spades));
    assert_eq!(north_clubs, (1 << 2) | (1 << 6) | (1 << 10) | (1 << 14));
}

#[test]
fn text_of_holdings_hands_and_deals() {
    let kt85: Holding = Holding::from_bits(0b01001_0100_1000_00);
    assert_eq!(kt85.text().into_iter().collect::<String>(), "KT85");
    assert_eq!(Holding::all().text().into_iter().collect::<String>(), "AKQJT98765432");
    assert!(Holding::empty().text().is_empty());

    let hand = hand_of([0b01001_0100_1000_00, 0b00000_0000_0110_00, 0b01000_0100_0100_00, 0b01010_0000_1010_00]);
    assert_eq!(hand.text().into_iter().collect::<String>(), "KJ53.K84.43.KT85");

    let deal = Deck::standard_52().deal();
    let text: String = deal.text().into_iter().collect();
    assert!(text.starts_with("N:J73.Q84.K95.AT62 "));
    assert_eq!(text.matches(' ').count(), 3);
}

#[test]
fn text_of_trick_tables() {
    assert_eq!(TricksPerStrain::new(9, 4, 13, 0).text().into_iter().collect::<String>(), "94D0");
    let table = TricksTable::from_solver_rows(&[
        [1, 2, 3, 4],
        [5, 6, 7, 8],
        [9, 10, 11, 12],
        [13, 0, 1, 2],
        [3, 4, 5, 6],
    ]);
    assert_eq!(table.text().into_iter().collect::<String>(), "D0129ABC567812343456");
}

#[test]
fn holding_bits_round_trip() {
    let h = Holding::from_bits(0b01010_0000_1010_00);
    assert_eq!(Holding::from_bits(h.bits()), h);
    assert_eq!(Holding::from_bits(0b1000_0000_0000_0011).bits(), 0);
}
