//! Point counts of holdings and hands

use vstd::prelude::*;
use crate::contract::Strain;
use crate::deal::{Hand, Holding, SmallSet};

verus! {

/// 1 if the holding has the rank, else 0
pub open spec fn bit(h: Holding, rank: int) -> int {
    if h.has(rank) {
        1
    } else {
        0
    }
}

/// 1 if the condition holds, else 0
pub open spec fn ind(b: bool) -> int {
    if b {
        1
    } else {
        0
    }
}

/// The 4-3-2-1 count of a holding
pub open spec fn hcp_of(h: Holding) -> int {
    4 * bit(h, 14) + 3 * bit(h, 13) + 2 * bit(h, 12) + bit(h, 11)
}

/// The shortness count of a holding: 3 for a void, 2 for a singleton, 1 for
/// a doubleton
pub open spec fn shortness_of(h: Holding) -> int {
    3 - if h.count() < 3 {
        h.count() as int
    } else {
        3
    }
}

/// The losing trick count of a holding: a missing ace, king and queen each
/// count as far as the length reaches
pub open spec fn ltc_of(h: Holding) -> int {
    ind(h.count() >= 1 && !h.has(14)) + ind(h.count() >= 2 && !h.has(13)) + ind(
        h.count() >= 3 && !h.has(12),
    )
}

/// High card points
///
/// This is the well-known 4-3-2-1 point count by Milton Work.
pub fn hcp(holding: Holding) -> (r: u8)
    ensures
        r == hcp_of(holding),
{
    let a: u8 = if holding.contains(14) {
        1
    } else {
        0
    };
    let k: u8 = if holding.contains(13) {
        1
    } else {
        0
    };
    let q: u8 = if holding.contains(12) {
        1
    } else {
        0
    };
    let j: u8 = if holding.contains(11) {
        1
    } else {
        0
    };
    4 * a + 3 * k + 2 * q + j
}

/// Short suit points
pub fn shortness(holding: Holding) -> (r: u8)
    ensures
        r == shortness_of(holding),
{
    let len = holding.len();
    let short: u8 = if len < 3 {
        len as u8
    } else {
        3
    };
    3 - short
}

/// Plain old losing trick count
pub fn ltc(holding: Holding) -> (r: u8)
    ensures
        r == ltc_of(holding),
{
    let len = holding.len();
    let a: u8 = if len >= 1 && !holding.contains(14) {
        1
    } else {
        0
    };
    let k: u8 = if len >= 2 && !holding.contains(13) {
        1
    } else {
        0
    };
    let q: u8 = if len >= 3 && !holding.contains(12) {
        1
    } else {
        0
    };
    a + k + q
}

/// High card points plus useful shortness
///
/// For each suit, we count the larger of the high card points and the
/// shortness.  This avoids double counting of short honors.
pub fn hcp_plus(holding: Holding) -> (r: u8)
    ensures
        r == if hcp_of(holding) < shortness_of(holding) {
            shortness_of(holding)
        } else {
            hcp_of(holding)
        },
{
    let count = hcp(holding);
    let short = shortness(holding);
    if count < short {
        short
    } else {
        count
    }
}

/// The honor count of a holding for Zar points, less one for a short honor
/// that is likely wasted
pub open spec fn zar_honors_of(h: Holding) -> int {
    let count = 6 * bit(h, 14) + 4 * bit(h, 13) + 2 * bit(h, 12) + bit(h, 11);
    let waste = if h.count() == 1 {
        h.has(13) || h.has(12) || h.has(11)
    } else if h.count() == 2 {
        h.has(12) || h.has(11)
    } else {
        false
    };
    count - ind(waste)
}

/// The larger of two integers
pub open spec fn max_of(a: int, b: int) -> int {
    if a < b {
        b
    } else {
        a
    }
}

/// The smaller of two integers
pub open spec fn min_of(a: int, b: int) -> int {
    if a < b {
        a
    } else {
        b
    }
}

/// The sum of the two largest of four integers
pub open spec fn top_two(l: Seq<int>) -> int {
    max_of(
        max_of(max_of(l[0] + l[1], l[0] + l[2]), max_of(l[0] + l[3], l[1] + l[2])),
        max_of(l[1] + l[3], l[2] + l[3]),
    )
}

/// The suit lengths of a hand
pub open spec fn lengths_of(hand: Hand) -> Seq<int> {
    seq![
        hand.suit(Strain::Clubs).count() as int,
        hand.suit(Strain::Diamonds).count() as int,
        hand.suit(Strain::Hearts).count() as int,
        hand.suit(Strain::Spades).count() as int,
    ]
}

/// Zar points of a hand
pub open spec fn zar_of(hand: Hand) -> int {
    let l = lengths_of(hand);
    let honors = zar_honors_of(hand.suit(Strain::Clubs)) + zar_honors_of(hand.suit(Strain::Diamonds))
        + zar_honors_of(hand.suit(Strain::Hearts)) + zar_honors_of(hand.suit(Strain::Spades));
    honors + top_two(l) + max_of(max_of(l[0], l[1]), max_of(l[2], l[3])) - min_of(
        min_of(l[0], l[1]),
        min_of(l[2], l[3]),
    )
}

/// Zar honors of one holding
fn zar_honors(holding: Holding) -> (r: u8)
    ensures
        r == zar_honors_of(holding),
        r <= 13,
{
    let a: u8 = if holding.contains(14) {
        1
    } else {
        0
    };
    let k: u8 = if holding.contains(13) {
        1
    } else {
        0
    };
    let q: u8 = if holding.contains(12) {
        1
    } else {
        0
    };
    let j: u8 = if holding.contains(11) {
        1
    } else {
        0
    };
    let count = 6 * a + 4 * k + 2 * q + j;
    let len = holding.len();
    let waste = if len == 1 {
        k == 1 || q == 1 || j == 1
    } else if len == 2 {
        q == 1 || j == 1
    } else {
        false
    };
    if waste {
        count - 1
    } else {
        count
    }
}

/// The shape part of Zar points: the two longest lengths, plus the longest
/// less the shortest
fn zar_shape(l0: u8, l1: u8, l2: u8, l3: u8) -> (r: u8)
    requires
        l0 <= 16,
        l1 <= 16,
        l2 <= 16,
        l3 <= 16,
    ensures
        r == top_two(seq![l0 as int, l1 as int, l2 as int, l3 as int]) + max_of(
            max_of(l0 as int, l1 as int),
            max_of(l2 as int, l3 as int),
        ) - min_of(min_of(l0 as int, l1 as int), min_of(l2 as int, l3 as int)),
        r <= 48,
{
    let pair_cd = l0 + l1;
    let pair_ch = l0 + l2;
    let pair_cs = l0 + l3;
    let pair_dh = l1 + l2;
    let pair_ds = l1 + l3;
    let pair_hs = l2 + l3;
    let m1 = if pair_cd < pair_ch {
        pair_ch
    } else {
        pair_cd
    };
    let m2 = if pair_cs < pair_dh {
        pair_dh
    } else {
        pair_cs
    };
    let m3 = if pair_ds < pair_hs {
        pair_hs
    } else {
        pair_ds
    };
    let m12 = if m1 < m2 {
        m2
    } else {
        m1
    };
    let sum = if m12 < m3 {
        m3
    } else {
        m12
    };
    let hi01 = if l0 < l1 {
        l1
    } else {
        l0
    };
    let hi23 = if l2 < l3 {
        l3
    } else {
        l2
    };
    let hi = if hi01 < hi23 {
        hi23
    } else {
        hi01
    };
    let lo01 = if l0 < l1 {
        l0
    } else {
        l1
    };
    let lo23 = if l2 < l3 {
        l2
    } else {
        l3
    };
    let lo = if lo01 < lo23 {
        lo01
    } else {
        lo23
    };
    sum + (hi - lo)
}

/// Zar points, an evaluation by Zar Petkov
pub fn zar(hand: Hand) -> (r: u8)
    ensures
        r == zar_of(hand),
{
    let c = hand.holding(Strain::Clubs);
    let d = hand.holding(Strain::Diamonds);
    let h = hand.holding(Strain::Hearts);
    let s = hand.holding(Strain::Spades);
    proof {
        c.lemma_count_bound();
        d.lemma_count_bound();
        h.lemma_count_bound();
        s.lemma_count_bound();
    }
    let shape = zar_shape(c.len() as u8, d.len() as u8, h.len() as u8, s.len() as u8);
    let honors = zar_honors(c) + zar_honors(d) + zar_honors(h) + zar_honors(s);
    honors + shape
}

} // verus!
