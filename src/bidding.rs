//! Auctions checked against the laws of bridge

use vstd::prelude::*;
use crate::contract::{Bid, Call, Penalty, Strain, bid_lt};
pub use crate::trie::{CommonPrefixes, Forest, Suffixes, Trie};

verus! {

/// Types of illegal calls, after the laws of duplicate bridge
#[derive(Clone, Copy, Debug, PartialEq, Eq, Structural)]
pub enum IllegalCall {
    /// Law 27: insufficient bid
    ///
    /// A bid below level 1 is insufficient whatever the auction holds, and is
    /// reported with no last bid.
    InsufficientBid {
        /// The offending bid
        this: Bid,
        /// The last bid in the auction
        last: Option<Bid>,
    },
    /// Law 36: inadmissible doubles and redoubles
    InadmissibleDouble(Penalty),
    /// Law 38: bid of more than seven
    BidOfMoreThanSeven(Bid),
    /// Law 39: call after the final pass
    AfterFinalPass,
}

/// Whether the auction has ended: a call followed by three passes
pub open spec fn ended(a: Seq<Call>) -> bool {
    a.len() >= 4 && a[a.len() - 1] == Call::Pass && a[a.len() - 2] == Call::Pass && a[a.len()
        - 3] == Call::Pass
}

/// Index of the last call that is not a pass
pub open spec fn last_active(a: Seq<Call>) -> Option<int>
    decreases a.len(),
{
    if a.len() == 0 {
        None
    } else if a.last() != Call::Pass {
        Some(a.len() - 1)
    } else {
        last_active(a.drop_last())
    }
}

/// Whether the last call other than a pass was made by an opponent of the
/// player to call, and satisfies `pred`
pub open spec fn opponent_last_active(a: Seq<Call>, pred: spec_fn(Call) -> bool) -> bool {
    match last_active(a) {
        Some(i) => (a.len() - 1 - i) % 2 == 0 && pred(a[i]),
        None => false,
    }
}

/// Whether a double is admissible: the last call other than a pass is a bid
/// of the opponents
pub open spec fn double_ok(a: Seq<Call>) -> bool {
    opponent_last_active(a, |c: Call| c is Bid)
}

/// Whether a redouble is admissible: the last call other than a pass is a
/// double of the opponents
pub open spec fn redouble_ok(a: Seq<Call>) -> bool {
    opponent_last_active(a, |c: Call| c == Call::Double)
}

/// Outcome of checking a bid against the auction
pub open spec fn bid_check(a: Seq<Call>, bid: Bid) -> Result<(), IllegalCall> {
    if bid.level < 1 {
        Err(IllegalCall::InsufficientBid { this: bid, last: None })
    } else if bid.level > 7 {
        Err(IllegalCall::BidOfMoreThanSeven(bid))
    } else {
        match last_bid(a) {
            Some(last) => if bid_lt(last, bid) {
                Ok(())
            } else {
                Err(IllegalCall::InsufficientBid { this: bid, last: Some(last) })
            },
            None => Ok(()),
        }
    }
}

/// Outcome of checking a call against the auction
pub open spec fn call_check(a: Seq<Call>, call: Call) -> Result<(), IllegalCall> {
    if ended(a) {
        Err(IllegalCall::AfterFinalPass)
    } else {
        match call {
            Call::Pass => Ok(()),
            Call::Double => if double_ok(a) {
                Ok(())
            } else {
                Err(IllegalCall::InadmissibleDouble(Penalty::Doubled))
            },
            Call::Redouble => if redouble_ok(a) {
                Ok(())
            } else {
                Err(IllegalCall::InadmissibleDouble(Penalty::Redoubled))
            },
            Call::Bid(bid) => bid_check(a, bid),
        }
    }
}

/// The call that a forced push records: a double turns into a redouble where
/// a redouble is admissible
pub open spec fn forced_call(a: Seq<Call>, call: Call) -> Call {
    if call == Call::Double && redouble_ok(a) {
        Call::Redouble
    } else {
        call
    }
}

/// Auction and outcome after checked pushes of `calls` in order, stopping at
/// the first illegal one
pub open spec fn extended(a: Seq<Call>, calls: Seq<Call>) -> (Seq<Call>, Result<(), IllegalCall>)
    decreases calls.len(),
{
    if calls.len() == 0 {
        (a, Ok(()))
    } else {
        match call_check(a, calls[0]) {
            Ok(_) => extended(a.push(calls[0]), calls.drop_first()),
            Err(e) => (a, Err(e)),
        }
    }
}

/// Index of the last bid in the auction
pub open spec fn last_bid_index(a: Seq<Call>) -> Option<int>
    decreases a.len(),
{
    if a.len() == 0 {
        None
    } else if a.last() is Bid {
        Some(a.len() - 1)
    } else {
        last_bid_index(a.drop_last())
    }
}

/// The last bid in the auction
pub open spec fn last_bid(a: Seq<Call>) -> Option<Bid> {
    match last_bid_index(a) {
        Some(i) => Some(a[i]->Bid_0),
        None => None,
    }
}

/// Whether the call at `j` is a bid in `strain`
pub open spec fn bids_strain(a: Seq<Call>, j: int, strain: Strain) -> bool {
    match a[j] {
        Call::Bid(b) => b.strain == strain,
        _ => false,
    }
}

/// Whether `j` is the index of the declaring bid: the first bid, by the side
/// that made the last bid, in the strain of the last bid
pub open spec fn is_declaring_index(a: Seq<Call>, j: int) -> bool {
    match last_bid_index(a) {
        Some(i) => {
            let strain = a[i]->Bid_0.strain;
            &&& 0 <= j <= i
            &&& j % 2 == i % 2
            &&& bids_strain(a, j, strain)
            &&& forall|k: int| 0 <= k < j && k % 2 == i % 2 ==> !bids_strain(a, k, strain)
        },
        None => false,
    }
}

/// A sequence of calls
#[derive(Clone, Debug, PartialEq, Eq)]
pub struct Auction(Vec<Call>);

impl View for Auction {
    type V = Seq<Call>;

    closed spec fn view(&self) -> Seq<Call> {
        self.0@
    }
}

/// View the auction as a slice of calls
impl core::ops::Deref for Auction {
    type Target = [Call];

    fn deref(&self) -> &[Call] {
        self.0.as_slice()
    }
}

impl From<Auction> for Vec<Call> {
    fn from(auction: Auction) -> (r: Vec<Call>) {
        auction.0
    }
}

impl vstd::std_specs::convert::FromSpecImpl<Auction> for Vec<Call> {
    open spec fn obeys_from_spec() -> bool {
        true
    }

    closed spec fn from_spec(auction: Auction) -> Vec<Call> {
        auction.0
    }
}

impl Auction {
    /// Construct an empty auction
    pub fn new() -> (r: Auction)
        ensures
            r@ == Seq::<Call>::empty(),
    {
        Auction(Vec::new())
    }

    /// The number of calls
    pub fn len(&self) -> (r: usize)
        ensures
            r == self@.len(),
    {
        self.0.len()
    }

    /// Whether the auction holds no call
    pub fn is_empty(&self) -> (r: bool)
        ensures
            r == (self@.len() == 0),
    {
        self.0.len() == 0
    }

    /// View the auction as a slice of calls
    pub fn as_slice(&self) -> (r: &[Call])
        ensures
            r@ == self@,
    {
        self.0.as_slice()
    }

    /// Check if the auction is terminated (by 3 consecutive passes following
    /// a call)
    pub fn has_ended(&self) -> (r: bool)
        ensures
            r == ended(self@),
    {
        let n = self.0.len();
        n >= 4 && self.0[n - 1] == Call::Pass && self.0[n - 2] == Call::Pass && self.0[n - 3]
            == Call::Pass
    }

    /// Index of the last call that is not a pass
    fn last_active_index(&self) -> (r: Option<usize>)
        ensures
            r matches Some(i) ==> last_active(self@) == Some(i as int) && i < self@.len(),
            r is None ==> last_active(self@) is None,
    {
        let mut i: usize = self.0.len();
        assert(self@.subrange(0, i as int) =~= self@);
        while i > 0
            invariant
                i <= self@.len(),
                last_active(self@) == last_active(self@.subrange(0, i as int)),
            decreases i,
        {
            if self.0[i - 1] != Call::Pass {
                return Some(i - 1);
            }
            assert(self@.subrange(0, i as int).drop_last() =~= self@.subrange(0, i - 1));
            i -= 1;
        }
        None
    }

    /// Index of the last bid
    fn last_bid_position(&self) -> (r: Option<usize>)
        ensures
            r matches Some(i) ==> last_bid_index(self@) == Some(i as int) && i < self@.len()
                && self@[i as int] is Bid,
            r is None ==> last_bid_index(self@) is None,
    {
        let mut i: usize = self.0.len();
        assert(self@.subrange(0, i as int) =~= self@);
        while i > 0
            invariant
                i <= self@.len(),
                last_bid_index(self@) == last_bid_index(self@.subrange(0, i as int)),
            decreases i,
        {
            if let Call::Bid(_) = self.0[i - 1] {
                return Some(i - 1);
            }
            assert(self@.subrange(0, i as int).drop_last() =~= self@.subrange(0, i - 1));
            i -= 1;
        }
        None
    }

    /// Test doubling the last bid
    fn can_double(&self) -> (r: Result<(), IllegalCall>)
        ensures
            r == (if double_ok(self@) {
                Ok(())
            } else {
                Err(IllegalCall::InadmissibleDouble(Penalty::Doubled))
            }),
    {
        let admissible = match self.last_active_index() {
            Some(i) => (self.0.len() - 1 - i) % 2 == 0 && matches!(self.0[i], Call::Bid(_)),
            None => false,
        };
        if !admissible {
            return Err(IllegalCall::InadmissibleDouble(Penalty::Doubled));
        }
        Ok(())
    }

    /// Test redoubling the last double
    fn can_redouble(&self) -> (r: Result<(), IllegalCall>)
        ensures
            r == (if redouble_ok(self@) {
                Ok(())
            } else {
                Err(IllegalCall::InadmissibleDouble(Penalty::Redoubled))
            }),
    {
        let admissible = match self.last_active_index() {
            Some(i) => (self.0.len() - 1 - i) % 2 == 0 && self.0[i] == Call::Double,
            None => false,
        };
        if !admissible {
            return Err(IllegalCall::InadmissibleDouble(Penalty::Redoubled));
        }
        Ok(())
    }

    /// Test bidding a contract
    fn can_bid(&self, bid: Bid) -> (r: Result<(), IllegalCall>)
        ensures
            r == bid_check(self@, bid),
    {
        if bid.level < 1 {
            return Err(IllegalCall::InsufficientBid { this: bid, last: None });
        }
        if bid.level > 7 {
            return Err(IllegalCall::BidOfMoreThanSeven(bid));
        }
        match self.last_bid_position() {
            Some(i) => {
                let last = match self.0[i] {
                    Call::Bid(b) => b,
                    _ => bid,
                };
                if last.is_below(&bid) {
                    Ok(())
                } else {
                    Err(IllegalCall::InsufficientBid { this: bid, last: Some(last) })
                }
            },
            None => Ok(()),
        }
    }

    /// Test adding a call to the auction
    fn can_push(&self, call: Call) -> (r: Result<(), IllegalCall>)
        ensures
            r == call_check(self@, call),
    {
        if self.has_ended() {
            return Err(IllegalCall::AfterFinalPass);
        }
        match call {
            Call::Pass => Ok(()),
            Call::Double => self.can_double(),
            Call::Redouble => self.can_redouble(),
            Call::Bid(bid) => self.can_bid(bid),
        }
    }

    /// Add a call to the auction with checks
    ///
    /// An illegal call leaves the auction as it was and is reported.
    pub fn try_push(&mut self, call: Call) -> (r: Result<(), IllegalCall>)
        ensures
            r == call_check(old(self)@, call),
            r is Ok ==> final(self)@ == old(self)@.push(call),
            r is Err ==> final(self)@ == old(self)@,
    {
        let report = self.can_push(call);
        if report.is_ok() {
            self.0.push(call);
        }
        report
    }

    /// Force adding a call to the auction
    ///
    /// 1. A double where a redouble is admissible is recorded as a redouble.
    /// 2. The call is pushed even if it is illegal, and the violation is
    ///    reported.
    pub fn force_push(&mut self, call: Call) -> (r: Result<(), IllegalCall>)
        ensures
            final(self)@ == old(self)@.push(forced_call(old(self)@, call)),
            r == call_check(old(self)@, forced_call(old(self)@, call)),
    {
        let mut call = call;
        if call == Call::Double && self.can_redouble().is_ok() {
            call = Call::Redouble;
        }
        let report = self.can_push(call);
        self.0.push(call);
        report
    }

    /// Try adding calls to the auction
    ///
    /// Calls are pushed with checks in order, up to the first illegal one,
    /// which is reported.  Calls already added to the auction are kept: to
    /// roll back, [`truncate`][Self::truncate] to the previous length.
    pub fn try_extend(&mut self, calls: &[Call]) -> (r: Result<(), IllegalCall>)
        ensures
            (final(self)@, r) == extended(old(self)@, calls@),
    {
        let mut i: usize = 0;
        assert(calls@.subrange(0, calls@.len() as int) =~= calls@);
        while i < calls.len()
            invariant
                i <= calls@.len(),
                extended(old(self)@, calls@) == extended(self@, calls@.subrange(i as int, calls@.len() as int)),
            decreases calls@.len() - i,
        {
            let ghost rest = calls@.subrange(i as int, calls@.len() as int);
            assert(rest.drop_first() =~= calls@.subrange(i + 1, calls@.len() as int));
            let report = self.try_push(calls[i]);
            if report.is_err() {
                return report;
            }
            i += 1;
        }
        assert(calls@.subrange(i as int, calls@.len() as int) =~= Seq::<Call>::empty());
        Ok(())
    }

    /// Pop the last call from the auction
    pub fn pop(&mut self) -> (r: Option<Call>)
        ensures
            old(self)@.len() == 0 ==> r is None && final(self)@ == old(self)@,
            old(self)@.len() > 0 ==> r == Some(old(self)@.last()) && final(self)@
                == old(self)@.drop_last(),
    {
        self.0.pop()
    }

    /// Truncate the auction to the first `len` calls
    ///
    /// If `len` is greater or equal to the current length, this has no effect.
    pub fn truncate(&mut self, len: usize)
        ensures
            len <= old(self)@.len() ==> final(self)@ == old(self)@.subrange(0, len as int),
            len > old(self)@.len() ==> final(self)@ == old(self)@,
    {
        self.0.truncate(len);
    }

    /// Search the index of the declaring bid
    ///
    /// The first player of the declaring side who first bids the strain of
    /// the contract is the declarer.  This method locates the bid that makes
    /// the declarer.
    pub fn declarer(&self) -> (r: Option<usize>)
        ensures
            r is None <==> last_bid_index(self@) is None,
            r matches Some(j) ==> is_declaring_index(self@, j as int),
    {
        let last = match self.last_bid_position() {
            Some(i) => i,
            None => return None,
        };
        let strain = match self.0[last] {
            Call::Bid(b) => b.strain,
            _ => return None,
        };
        let parity = last % 2;
        let mut j: usize = parity;
        while j <= last
            invariant
                last < self@.len(),
                last_bid_index(self@) == Some(last as int),
                self@[last as int] == Call::Bid(Bid { level: self@[last as int]->Bid_0.level, strain }),
                parity == last % 2,
                j % 2 == parity,
                j <= last + 2,
                forall|k: int| 0 <= k < j && k % 2 == parity ==> !bids_strain(self@, k, strain),
            decreases last + 2 - j,
        {
            if let Call::Bid(b) = self.0[j] {
                if b.strain == strain {
                    return Some(j);
                }
            }
            j += 2;
        }
        assert(bids_strain(self@, last as int, strain));
        None
    }
}

/// Vulnerability of sides: bit 0 is set when we are vulnerable, bit 1 when
/// the opponents are
#[derive(Clone, Copy, Debug, PartialEq, Eq, Hash, Structural)]
pub struct Vulnerability {
    bits: u8,
}

impl View for Vulnerability {
    type V = nat;

    closed spec fn view(&self) -> nat {
        self.bits as nat
    }
}

impl Vulnerability {
    #[verifier::type_invariant]
    closed spec fn two_bits(self) -> bool {
        self.bits < 4
    }

    /// Neither side is vulnerable
    pub fn empty() -> (r: Vulnerability)
        ensures
            r@ == 0,
    {
        Vulnerability { bits: 0 }
    }

    /// Both sides are vulnerable
    pub fn all() -> (r: Vulnerability)
        ensures
            r@ == 3,
    {
        Vulnerability { bits: 3 }
    }

    /// Vulnerability from the state of each side
    pub fn new(we: bool, they: bool) -> (r: Vulnerability)
        ensures
            r@ == (if we {
                1nat
            } else {
                0nat
            }) + (if they {
                2nat
            } else {
                0nat
            }),
    {
        let bits: u8 = if we {
            1
        } else {
            0
        };
        Vulnerability { bits: if they {
            bits + 2
        } else {
            bits
        } }
    }

    /// Vulnerability from the two lowest bits, the others dropped
    pub fn from_bits_truncate(bits: u8) -> (r: Vulnerability)
        ensures
            r@ == bits % 4,
    {
        Vulnerability { bits: bits % 4 }
    }

    /// The two bits of the vulnerability
    pub fn bits(&self) -> (r: u8)
        ensures
            r == self@,
            r < 4,
    {
        proof {
            use_type_invariant(self);
        }
        self.bits
    }

    /// Whether we are vulnerable
    pub fn we(&self) -> (r: bool)
        ensures
            r == (self@ % 2 == 1),
    {
        self.bits % 2 == 1
    }

    /// Whether the opponents are vulnerable
    pub fn they(&self) -> (r: bool)
        ensures
            r == (self@ / 2 % 2 == 1),
    {
        self.bits / 2 % 2 == 1
    }
}

/// Frequency of a call (`self.0` / [`u8::MAX`])
#[derive(Clone, Copy, Debug, PartialEq, Eq, PartialOrd, Ord, Hash, Structural)]
pub struct Frequency(pub u8);

/// A bidding system: a trie of policies for each vulnerability
pub trait System<P> {
    /// The trie that the system uses at a vulnerability
    spec fn tree_at(&self, vul: Vulnerability) -> Trie<P>;

    /// The trie for a vulnerability
    fn trie(&self, vul: Vulnerability) -> (r: &Trie<P>)
        ensures
            *r == self.tree_at(vul),
    ;
}

/// A single trie serves every vulnerability
impl<P> System<P> for Trie<P> {
    open spec fn tree_at(&self, vul: Vulnerability) -> Trie<P> {
        *self
    }

    fn trie(&self, vul: Vulnerability) -> (r: &Trie<P>) {
        self
    }
}

/// A forest holds one trie for each vulnerability
impl<P> System<P> for Forest<P> {
    open spec fn tree_at(&self, vul: Vulnerability) -> Trie<P> {
        self.tree(vul@ as int)
    }

    fn trie(&self, vul: Vulnerability) -> (r: &Trie<P>) {
        self.get(vul)
    }
}

/// A pass is legal on every auction that has not ended
pub proof fn lemma_pass_until_ended(a: Seq<Call>)
    requires
        !ended(a),
    ensures
        call_check(a, Call::Pass) == Ok::<(), IllegalCall>(()),
{
}

/// A double right after a bid of the opponents is legal
pub proof fn lemma_double_after_bid(a: Seq<Call>)
    requires
        a.len() > 0,
        a.last() is Bid,
    ensures
        call_check(a, Call::Double) == Ok::<(), IllegalCall>(()),
{
}

/// Forcing a double where a double stands and a redouble is admissible
/// records a redouble, legally
pub proof fn lemma_forced_double_redoubles(a: Seq<Call>)
    requires
        !ended(a),
        redouble_ok(a),
    ensures
        forced_call(a, Call::Double) == Call::Redouble,
        call_check(a, forced_call(a, Call::Double)) == Ok::<(), IllegalCall>(()),
{
}

} // verus!
