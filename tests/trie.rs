use pons::bidding::{Auction, CommonPrefixes, Forest, IllegalCall, Suffixes, System, Trie, Vulnerability};
use pons::contract::{Bid, Call, Penalty, Strain};
use pons::trie::{decode_call, encode_call};

fn bid(level: u8, strain: Strain) -> Call {
    Call::Bid(Bid::new(level, strain))
}

fn auction_of(calls: &[Call]) -> Auction {
    let mut auction = Auction::new();
    for &call in calls {
        let _ = auction.force_push(call);
    }
    auction
}

fn drain<'a>(mut it: Suffixes<'a, u32>) -> Vec<(Vec<Call>, Result<u32, IllegalCall>)> {
    let mut out = Vec::new();
    while let Some((calls, value)) = it.next() {
        out.push((calls, value.map(|v| *v)));
    }
    out
}

fn drain_prefixes<'a>(mut it: CommonPrefixes<'a, u32>) -> Vec<(Vec<Call>, u32)> {
    let mut out = Vec::new();
    while let Some((calls, value)) = it.next() {
        out.push((calls, *value));
    }
    out
}

#[test]
fn codec_round_trips() {
    for code in 0..37 {
        let call = decode_call(code).expect("every code below 37 decodes");
        assert_eq!(encode_call(call), code);
    }
    for code in 37..64 {
        assert_eq!(decode_call(code), None);
    }
    assert_eq!(encode_call(Call::Pass), 0);
    assert_eq!(encode_call(Call::Double), 1);
    assert_eq!(encode_call(Call::Redouble), 1);
    assert_eq!(encode_call(bid(1, Strain::Clubs)), 2);
    assert_eq!(encode_call(bid(1, Strain::Notrump)), 6);
    assert_eq!(encode_call(bid(7, Strain::Notrump)), 36);
    assert_eq!(decode_call(7), Some(bid(2, Strain::Clubs)));
}

#[test]
fn insert_then_get() {
    let mut trie: Trie<u32> = Trie::new();
    let path = [Call::Pass, bid(1, Strain::Spades), Call::Pass];
    assert_eq!(trie.insert(&path, 7), None);
    assert_eq!(trie.get(&path), Some(&7));
    assert_eq!(trie.insert(&path, 8), Some(7));
    assert_eq!(trie.get(&path), Some(&8));

    assert_eq!(trie.get(&[]), None);
    assert_eq!(trie.get(&path[..2]), None);
    assert_eq!(trie.get(&[bid(1, Strain::Spades)]), None);
    for k in 0..=path.len() {
        assert!(trie.is_prefix(&path[..k]));
    }
    assert!(!trie.is_prefix(&[bid(1, Strain::Hearts)]));
    assert!(!trie.is_prefix(&[Call::Pass, bid(1, Strain::Spades), Call::Pass, Call::Pass]));
}

#[test]
fn double_and_redouble_share_a_node() {
    let mut trie: Trie<u32> = Trie::new();
    trie.insert(&[bid(1, Strain::Clubs), Call::Double], 3);
    assert_eq!(trie.get(&[bid(1, Strain::Clubs), Call::Redouble]), Some(&3));
}

#[test]
fn longest_prefix_with_policy() {
    let mut trie: Trie<u32> = Trie::new();
    trie.insert(&[], 1);
    trie.insert(&[Call::Pass, Call::Pass], 2);
    let query = [Call::Pass, Call::Pass, bid(1, Strain::Notrump), Call::Pass];
    assert_eq!(trie.longest_prefix(&query), Some((&query[..2], &2)));
    let empty: Trie<u32> = Trie::new();
    assert_eq!(empty.longest_prefix(&query), None);
}

#[test]
fn single_entry_enumerates_once() {
    let mut trie: Trie<u32> = Trie::new();
    trie.insert(&[Call::Pass, bid(1, Strain::Clubs)], 42);
    let items = drain(trie.iter());
    assert_eq!(items, vec![(vec![Call::Pass, bid(1, Strain::Clubs)], Ok(42))]);
}

#[test]
fn enumeration_order_is_preorder_by_code() {
    let mut trie: Trie<u32> = Trie::new();
    trie.insert(&[bid(1, Strain::Clubs)], 2);
    trie.insert(&[], 0);
    trie.insert(&[Call::Pass, Call::Pass], 11);
    trie.insert(&[Call::Pass], 1);
    let items = drain(trie.iter());
    assert_eq!(
        items,
        vec![
            (vec![], Ok(0)),
            (vec![Call::Pass], Ok(1)),
            (vec![Call::Pass, Call::Pass], Ok(11)),
            (vec![bid(1, Strain::Clubs)], Ok(2)),
        ]
    );
}

#[test]
fn enumeration_reports_violations_and_skips_below() {
    let mut trie: Trie<u32> = Trie::new();
    trie.insert(&[Call::Double, Call::Pass], 5);
    trie.insert(&[bid(1, Strain::Hearts), Call::Double, Call::Double], 6);
    trie.insert(&[bid(2, Strain::Clubs)], 7);
    let items = drain(trie.iter());
    assert_eq!(
        items,
        vec![
            (vec![Call::Double], Err(IllegalCall::InadmissibleDouble(Penalty::Doubled))),
            (vec![bid(1, Strain::Hearts), Call::Double, Call::Redouble], Ok(6)),
            (vec![bid(2, Strain::Clubs)], Ok(7)),
        ]
    );
}

#[test]
fn suffixes_below_a_query() {
    let mut trie: Trie<u32> = Trie::new();
    trie.insert(&[bid(1, Strain::Spades), Call::Pass], 1);
    trie.insert(&[bid(1, Strain::Spades), bid(1, Strain::Hearts)], 2);
    trie.insert(&[Call::Pass], 3);
    let items = drain(trie.suffixes(auction_of(&[bid(1, Strain::Spades)])));
    assert_eq!(
        items,
        vec![
            (vec![Call::Pass], Ok(1)),
            (
                vec![bid(1, Strain::Hearts)],
                Err(IllegalCall::InsufficientBid {
                    this: Bid::new(1, Strain::Hearts),
                    last: Some(Bid::new(1, Strain::Spades)),
                })
            ),
        ]
    );
    assert!(drain(trie.suffixes(auction_of(&[bid(3, Strain::Clubs)]))).is_empty());
    assert!(drain(Suffixes::empty()).is_empty());
}

#[test]
fn common_prefixes_in_increasing_length() {
    let mut trie: Trie<u32> = Trie::new();
    trie.insert(&[], 1);
    trie.insert(&[Call::Pass, Call::Pass], 2);
    let query = auction_of(&[Call::Pass, Call::Pass, bid(1, Strain::Notrump)]);
    let items = drain_prefixes(trie.common_prefixes(query));
    assert_eq!(items, vec![(vec![], 1), (vec![Call::Pass, Call::Pass], 2)]);
    let other = auction_of(&[bid(1, Strain::Clubs), Call::Pass]);
    assert_eq!(drain_prefixes(CommonPrefixes::new(&trie, other)), vec![(vec![], 1)]);
}

#[test]
fn forest_keeps_vulnerabilities_apart() {
    let mut forest: Forest<u32> = Forest::new();
    let both = Vulnerability::new(true, true);
    forest.get_mut(both).insert(&[Call::Pass], 9);
    assert_eq!(forest.get(both).get(&[Call::Pass]), Some(&9));
    assert_eq!(forest.get(Vulnerability::empty()).get(&[Call::Pass]), None);
    assert_eq!(forest.trie(Vulnerability::all()).get(&[Call::Pass]), Some(&9));

    let mut trie: Trie<u32> = Trie::new();
    trie.insert(&[Call::Pass], 4);
    assert_eq!(trie.trie(Vulnerability::new(true, false)).get(&[Call::Pass]), Some(&4));
}

#[test]
fn vulnerability_bits() {
    assert_eq!(Vulnerability::empty().bits(), 0);
    assert_eq!(Vulnerability::new(true, false).bits(), 1);
    assert_eq!(Vulnerability::new(false, true).bits(), 2);
    assert_eq!(Vulnerability::all().bits(), 3);
    assert_eq!(Vulnerability::from_bits_truncate(6).bits(), 2);
    assert!(Vulnerability::from_bits_truncate(2).they());
    assert!(!Vulnerability::from_bits_truncate(2).we());
}

#[test]
fn tries_and_iterators_clone() {
    let mut trie: Trie<u32> = Trie::new();
    trie.insert(&[Call::Pass], 1);
    trie.insert(&[Call::Pass, Call::Pass], 2);
    let mut copy = trie.clone();
    copy.insert(&[Call::Pass], 5);
    assert_eq!(trie.get(&[Call::Pass]), Some(&1));
    assert_eq!(copy.get(&[Call::Pass]), Some(&5));
    assert_eq!(copy.get(&[Call::Pass, Call::Pass]), Some(&2));

    let mut it = trie.iter();
    assert_eq!(it.next().map(|(s, r)| (s, r.map(|v| *v))), Some((vec![Call::Pass], Ok(1))));
    let rest = it.clone();
    assert_eq!(drain(it), drain(rest));

    let prefixes = trie.common_prefixes(auction_of(&[Call::Pass, Call::Pass]));
    assert_eq!(drain_prefixes(prefixes.clone()), drain_prefixes(prefixes));

    let forest: Forest<u32> = Forest::new();
    let forest_copy = forest.clone();
    assert_eq!(forest_copy.get(Vulnerability::empty()).get(&[]), None);
}
