use pons::bidding::{Auction, IllegalCall};
use pons::contract::{Bid, Call, Penalty, Strain};

fn bid(level: u8, strain: Strain) -> Call {
    Call::Bid(Bid::new(level, strain))
}

fn auction_of(calls: &[Call]) -> Auction {
    let mut auction = Auction::new();
    for &call in calls {
        auction.force_push(call).unwrap();
    }
    auction
}

#[test]
fn has_ended_needs_a_call_and_three_passes() {
    assert!(!Auction::new().has_ended());
    assert!(!auction_of(&[Call::Pass, Call::Pass, Call::Pass]).has_ended());
    assert!(auction_of(&[Call::Pass, Call::Pass, Call::Pass, Call::Pass]).has_ended());
    let opened = auction_of(&[bid(1, Strain::Clubs), Call::Pass, Call::Pass, Call::Pass]);
    assert!(opened.has_ended());
    let live = auction_of(&[bid(1, Strain::Clubs), Call::Pass, Call::Pass]);
    assert!(!live.has_ended());
}

#[test]
fn pass_is_legal_until_the_end() {
    let mut auction = Auction::new();
    for _ in 0..4 {
        assert_eq!(auction.try_push(Call::Pass), Ok(()));
    }
    assert!(auction.has_ended());
    assert_eq!(auction.try_push(Call::Pass), Err(IllegalCall::AfterFinalPass));
    assert_eq!(auction.len(), 4);
}

#[test]
fn opening_bid_and_insufficient_bid() {
    let mut auction = Auction::new();
    assert_eq!(auction.try_push(bid(1, Strain::Clubs)), Ok(()));

    let mut auction = Auction::new();
    assert_eq!(auction.try_push(bid(1, Strain::Diamonds)), Ok(()));
    assert_eq!(
        auction.try_push(bid(1, Strain::Clubs)),
        Err(IllegalCall::InsufficientBid {
            this: Bid::new(1, Strain::Clubs),
            last: Some(Bid::new(1, Strain::Diamonds)),
        })
    );
    assert_eq!(auction.as_slice(), &[bid(1, Strain::Diamonds)]);
    assert_eq!(auction.try_push(bid(1, Strain::Hearts)), Ok(()));
}

#[test]
fn bid_levels_out_of_range() {
    let mut auction = Auction::new();
    assert_eq!(
        auction.try_push(bid(0, Strain::Notrump)),
        Err(IllegalCall::InsufficientBid { this: Bid::new(0, Strain::Notrump), last: None })
    );
    assert_eq!(
        auction.try_push(bid(8, Strain::Clubs)),
        Err(IllegalCall::BidOfMoreThanSeven(Bid::new(8, Strain::Clubs)))
    );
    assert_eq!(auction.try_push(bid(7, Strain::Notrump)), Ok(()));
    assert!(auction.try_push(bid(7, Strain::Notrump)).is_err());
}

#[test]
fn doubles_and_redoubles() {
    let mut auction = Auction::new();
    assert_eq!(
        auction.try_push(Call::Double),
        Err(IllegalCall::InadmissibleDouble(Penalty::Doubled))
    );
    assert_eq!(
        auction.try_push(Call::Redouble),
        Err(IllegalCall::InadmissibleDouble(Penalty::Redoubled))
    );
    assert_eq!(auction.try_push(bid(1, Strain::Spades)), Ok(()));
    assert_eq!(auction.try_push(Call::Double), Ok(()));
    assert_eq!(
        auction.try_push(Call::Double),
        Err(IllegalCall::InadmissibleDouble(Penalty::Doubled))
    );
    assert_eq!(auction.try_push(Call::Redouble), Ok(()));

    let mut own = auction_of(&[bid(1, Strain::Spades), Call::Pass]);
    assert_eq!(
        own.try_push(Call::Double),
        Err(IllegalCall::InadmissibleDouble(Penalty::Doubled))
    );
    let mut balancing = auction_of(&[bid(1, Strain::Spades), Call::Pass, Call::Pass]);
    assert_eq!(balancing.try_push(Call::Double), Ok(()));
}

#[test]
fn forced_double_becomes_redouble() {
    let mut auction = auction_of(&[bid(1, Strain::Hearts), Call::Double]);
    assert_eq!(auction.force_push(Call::Double), Ok(()));
    assert_eq!(auction.as_slice()[2], Call::Redouble);

    let mut illegal = Auction::new();
    assert_eq!(
        illegal.force_push(Call::Double),
        Err(IllegalCall::InadmissibleDouble(Penalty::Doubled))
    );
    assert_eq!(illegal.as_slice(), &[Call::Double]);
}

#[test]
fn extend_stops_at_first_illegal_call() {
    let mut auction = Auction::new();
    let calls = [bid(1, Strain::Notrump), Call::Pass, bid(1, Strain::Clubs), Call::Pass];
    assert_eq!(
        auction.try_extend(&calls),
        Err(IllegalCall::InsufficientBid {
            this: Bid::new(1, Strain::Clubs),
            last: Some(Bid::new(1, Strain::Notrump)),
        })
    );
    assert_eq!(auction.len(), 2);
    auction.truncate(1);
    assert_eq!(auction.as_slice(), &[bid(1, Strain::Notrump)]);
    assert_eq!(auction.pop(), Some(bid(1, Strain::Notrump)));
    assert_eq!(auction.pop(), None);
    assert_eq!(auction.try_extend(&[Call::Pass, bid(2, Strain::Clubs)]), Ok(()));
}

#[test]
fn declarer_of_passed_out_notrump() {
    let auction = auction_of(&[
        Call::Pass,
        Call::Pass,
        bid(1, Strain::Notrump),
        Call::Pass,
        Call::Pass,
        Call::Pass,
    ]);
    assert_eq!(auction.declarer(), Some(2));
}

#[test]
fn declarer_is_first_of_side_to_name_strain() {
    let auction = auction_of(&[
        bid(1, Strain::Hearts),
        Call::Pass,
        bid(2, Strain::Hearts),
        Call::Pass,
        bid(4, Strain::Hearts),
        Call::Pass,
        Call::Pass,
        Call::Pass,
    ]);
    assert_eq!(auction.declarer(), Some(0));

    let responder = auction_of(&[
        bid(1, Strain::Clubs),
        Call::Pass,
        bid(1, Strain::Spades),
        bid(2, Strain::Hearts),
        bid(4, Strain::Spades),
    ]);
    assert_eq!(responder.declarer(), Some(2));

    let none = auction_of(&[Call::Pass, Call::Pass]);
    assert_eq!(none.declarer(), None);
}
