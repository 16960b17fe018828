//! Decision tries keyed by auctions

use vstd::prelude::*;
use vstd::slice::{slice_subrange, slice_to_vec};
use crate::bidding::{
    Auction, IllegalCall, Vulnerability, call_check, double_ok, extended, forced_call, redouble_ok,
};
use crate::contract::{Bid, Call, Strain};

verus! {

/// Whether a call can be made at all: a bid names a level from 1 to 7
pub open spec fn is_valid_call(call: Call) -> bool {
    match call {
        Call::Bid(b) => 1 <= b.level <= 7,
        _ => true,
    }
}

/// Whether every call of the sequence can be made
pub open spec fn all_valid(a: Seq<Call>) -> bool {
    forall|i: int| 0 <= i < a.len() ==> is_valid_call(#[trigger] a[i])
}

/// The code of a call in `0..37`; double and redouble share one
pub open spec fn code_of(call: Call) -> int {
    match call {
        Call::Pass => 0,
        Call::Double => 1,
        Call::Redouble => 1,
        Call::Bid(b) => b.level * 5 + b.strain.rank() - 3,
    }
}

/// The call of a code: pass, double, or the bid whose code it is
pub open spec fn call_of(code: int) -> Option<Call> {
    if code == 0 {
        Some(Call::Pass)
    } else if code == 1 {
        Some(Call::Double)
    } else if 2 <= code < 37 {
        Some(Call::Bid(Bid { level: ((code + 3) / 5) as u8, strain: Strain::of_rank((code + 3) % 5) }))
    } else {
        None
    }
}

/// The codes of a sequence of calls
pub open spec fn codes(a: Seq<Call>) -> Seq<int> {
    a.map_values(|c: Call| code_of(c))
}

/// Every code in `0..37` decodes to a call that encodes back to it; no code
/// from 37 on decodes to a call
pub proof fn lemma_codec_round_trip(code: int)
    ensures
        0 <= code < 37 ==> call_of(code) is Some && is_valid_call(call_of(code).unwrap())
            && code_of(call_of(code).unwrap()) == code,
        code >= 37 ==> call_of(code) is None,
{
    if 2 <= code < 37 {
        let level = (code + 3) / 5;
        let rank = (code + 3) % 5;
        assert(level * 5 + rank == code + 3);
        assert(Strain::of_rank(rank).rank() == rank);
    }
}

/// Every call but a redouble decodes back from its code; a redouble shares
/// its code with a double
pub proof fn lemma_codec_inverse(call: Call)
    requires
        is_valid_call(call),
    ensures
        0 <= code_of(call) < 37,
        call_of(code_of(call)) == Some(
            if call == Call::Redouble {
                Call::Double
            } else {
                call
            },
        ),
{
    if let Call::Bid(b) = call {
        let code = code_of(call);
        assert((code + 3) / 5 == b.level);
        assert((code + 3) % 5 == b.strain.rank());
        assert(Strain::of_rank(b.strain.rank()) == b.strain);
    }
}

/// Encode a call as its index among the children of a trie node
pub fn encode_call(call: Call) -> (r: usize)
    requires
        is_valid_call(call),
    ensures
        r == code_of(call),
        r < 37,
{
    match call {
        Call::Pass => 0,
        Call::Double => 1,
        Call::Redouble => 1,
        Call::Bid(bid) => bid.level as usize * 5 + bid.strain.index() - 3,
    }
}

/// Decode the index of a child of a trie node as a call
pub fn decode_call(index: usize) -> (r: Option<Call>)
    ensures
        r == call_of(index as int),
{
    if index == 0 {
        Some(Call::Pass)
    } else if index == 1 {
        Some(Call::Double)
    } else if index < 37 {
        let code = index + 3;
        Some(Call::Bid(Bid { level: (code / 5) as u8, strain: Strain::from_rank(code % 5) }))
    } else {
        None
    }
}

/// A trie that holds no policy and no node but its root
pub open spec fn is_fresh<P>(t: Trie<P>) -> bool {
    &&& forall|q: Seq<int>| #[trigger] t.lookup(q) is None
    &&& forall|q: Seq<int>| #[trigger] t.reaches(q) <==> q.len() == 0
}

/// `after` is `before` with the policy `f` put at `path`: nodes are added
/// along the path, and no other policy changes
pub open spec fn inserted<P>(before: Trie<P>, after: Trie<P>, path: Seq<int>, f: P) -> bool {
    &&& forall|q: Seq<int>| #[trigger]
        after.lookup(q) == if q == path {
            Some(f)
        } else {
            before.lookup(q)
        }
    &&& forall|q: Seq<int>| #[trigger]
        after.reaches(q) == (before.reaches(q) || q.is_prefix_of(path))
}

/// After insertions into a fresh trie, the latest policy put at a path is
/// found there, every prefix of an inserted path is a node, a path never
/// inserted has no policy, and a nonempty path that prefixes no inserted path
/// is no node
pub proof fn lemma_insert_history<P>(ts: Seq<Trie<P>>, paths: Seq<Seq<int>>, fs: Seq<P>)
    requires
        ts.len() == paths.len() + 1,
        fs.len() == paths.len(),
        is_fresh(ts[0]),
        forall|i: int| 0 <= i < paths.len() ==> inserted(#[trigger] ts[i], ts[i + 1], paths[i], fs[i]),
    ensures
        paths.len() > 0 ==> ts.last().lookup(paths.last()) == Some(fs.last()),
        forall|q: Seq<int>| (forall|i: int| 0 <= i < paths.len() ==> paths[i] != q)
            ==> (#[trigger] ts.last().lookup(q)) is None,
        forall|q: Seq<int>, i: int|
            #![trigger q.is_prefix_of(paths[i])]
            0 <= i < paths.len() && q.is_prefix_of(paths[i]) ==> ts.last().reaches(q),
        forall|q: Seq<int>| q.len() > 0 && (forall|i: int| 0 <= i < paths.len() ==> !q.is_prefix_of(#[trigger] paths[i]))
            ==> !(#[trigger] ts.last().reaches(q)),
    decreases paths.len(),
{
    let n = paths.len() as int;
    if n > 0 {
        let ts0 = ts.drop_last();
        let ps0 = paths.drop_last();
        let fs0 = fs.drop_last();
        assert forall|i: int| 0 <= i < ps0.len() implies inserted(#[trigger] ts0[i], ts0[i + 1], ps0[i], fs0[i]) by {
            assert(inserted(ts[i], ts[i + 1], paths[i], fs[i]));
        }
        lemma_insert_history(ts0, ps0, fs0);
        let before = ts0.last();
        assert(before == ts[n - 1]);
        assert(inserted(ts[n - 1], ts[n], paths[n - 1], fs[n - 1]));
        assert forall|q: Seq<int>| (forall|i: int| 0 <= i < paths.len() ==> paths[i] != q)
            implies (#[trigger] ts.last().lookup(q)) is None by {
            assert forall|i: int| 0 <= i < ps0.len() implies ps0[i] != q by {
                assert(paths[i] != q);
            }
            assert(paths[n - 1] != q);
        }
        assert forall|q: Seq<int>, i: int|
            #![trigger q.is_prefix_of(paths[i])]
            0 <= i < paths.len() && q.is_prefix_of(paths[i]) implies ts.last().reaches(q) by {
            if i < n - 1 {
                assert(ps0[i] == paths[i]);
                assert(before.reaches(q));
            }
        }
        assert forall|q: Seq<int>| q.len() > 0 && (forall|i: int| 0 <= i < paths.len() ==> !q.is_prefix_of(#[trigger] paths[i]))
            implies !(#[trigger] ts.last().reaches(q)) by {
            assert forall|i: int| 0 <= i < ps0.len() implies !q.is_prefix_of(#[trigger] ps0[i]) by {
                assert(ps0[i] == paths[i]);
            }
            assert(!before.reaches(q));
            assert(!q.is_prefix_of(paths[n - 1]));
        }
    } else {
        assert(ts.last() == ts[0]);
    }
}

/// Decision trie as a vulnerability-agnostic bidding system
///
/// A trie stores a policy for each covered auction.  For example, `[P, 1♠]`
/// as an index stands for the 2nd-seat opening of 1♠.
pub struct Trie<P> {
    children: Vec<Option<Box<Trie<P>>>>,
    filter: Option<P>,
}

impl<P> Trie<P> {
    #[verifier::type_invariant]
    closed spec fn has_all_children(self) -> bool {
        self.children@.len() == 37
    }

    /// The child at a code
    pub closed spec fn child(self, code: int) -> Option<Trie<P>> {
        if 0 <= code < self.children@.len() {
            match self.children@[code] {
                Some(b) => Some(*b),
                None => None,
            }
        } else {
            None
        }
    }

    /// The policy stored at this node
    pub closed spec fn policy(self) -> Option<P> {
        self.filter
    }

    /// A child is smaller than its parent
    pub proof fn lemma_child_decreases(self, code: int)
        ensures
            self.child(code) matches Some(c) ==> decreases_to!(self => c),
    {
        if let Some(c) = self.child(code) {
            assert(decreases_to!(self => self.children));
            assert(decreases_to!(self.children => self.children@));
            assert(decreases_to!(self.children@ => self.children@[code]));
        }
    }

    /// The child at a code is the node at the path of that one code, and the
    /// policy of a node is the one at the empty path
    pub proof fn lemma_child_node(self, code: int)
        ensures
            self.child(code) == self.node(seq![code]),
            self.policy() == self.lookup(Seq::empty()),
    {
        let one = seq![code];
        assert(one[0] == code);
        assert(one.drop_first() =~= Seq::<int>::empty());
        if let Some(c) = self.child(code) {
            assert(c.node(one.drop_first()) == Some(c));
        }
    }

    /// What lies below a child is what lies below its code
    pub proof fn lemma_child_below(self, code: int, q: Seq<int>)
        ensures
            self.child(code) matches Some(c) ==> c.lookup(q) == self.lookup(seq![code] + q)
                && c.reaches(q) == self.reaches(seq![code] + q),
    {
        self.lemma_child_node(code);
        self.lemma_node_append(seq![code], q);
    }

    /// The node reached by a path of codes
    pub open spec fn node(self, path: Seq<int>) -> Option<Trie<P>>
        decreases path.len(),
    {
        if path.len() == 0 {
            Some(self)
        } else {
            match self.child(path[0]) {
                Some(c) => c.node(path.drop_first()),
                None => None,
            }
        }
    }

    /// Whether a node exists at the path
    pub open spec fn reaches(self, path: Seq<int>) -> bool {
        self.node(path) is Some
    }

    /// The policy stored at the path
    pub open spec fn lookup(self, path: Seq<int>) -> Option<P> {
        match self.node(path) {
            Some(n) => n.policy(),
            None => None,
        }
    }

    /// Walking `p` then `q` reaches where walking `p + q` does
    pub proof fn lemma_node_append(self, p: Seq<int>, q: Seq<int>)
        ensures
            self.node(p + q) == match self.node(p) {
                Some(n) => n.node(q),
                None => None,
            },
        decreases p.len(),
    {
        if p.len() == 0 {
            assert(p + q =~= q);
        } else {
            assert((p + q).drop_first() =~= p.drop_first() + q);
            assert((p + q)[0] == p[0]);
            match self.child(p[0]) {
                Some(c) => c.lemma_node_append(p.drop_first(), q),
                None => {},
            }
        }
    }

    /// One more step of a walk goes to a child
    pub proof fn lemma_node_push(self, p: Seq<int>, code: int)
        ensures
            self.node(p.push(code)) == match self.node(p) {
                Some(n) => n.child(code),
                None => None,
            },
    {
        self.lemma_node_append(p, seq![code]);
        assert(p + seq![code] =~= p.push(code));
        match self.node(p) {
            Some(n) => {
                let one = seq![code];
                assert(one.drop_first() =~= Seq::<int>::empty());
                assert(one[0] == code);
                match n.child(code) {
                    Some(c) => assert(c.node(one.drop_first()) == Some(c)),
                    None => {},
                }
            },
            None => {},
        }
    }

    /// Construct an empty trie
    pub fn new() -> (r: Trie<P>)
        ensures
            is_fresh(r),
    {
        let mut children: Vec<Option<Box<Trie<P>>>> = Vec::new();
        let mut i: usize = 0;
        while i < 37
            invariant
                i <= 37,
                children@.len() == i,
                forall|j: int| 0 <= j < i ==> children@[j] is None,
            decreases 37 - i,
        {
            children.push(None);
            i += 1;
        }
        let r = Trie { children, filter: None };
        assert forall|q: Seq<int>| #[trigger] r.reaches(q) <==> q.len() == 0 by {
            if q.len() > 0 {
                assert(r.child(q[0]) is None);
            }
        }
        assert forall|q: Seq<int>| #[trigger] r.lookup(q) is None by {
            assert(r.reaches(q) <==> q.len() == 0);
        }
        r
    }

    /// Get the sub-trie for the auction
    fn subtrie(&self, auction: &[Call]) -> (r: Option<&Trie<P>>)
        requires
            all_valid(auction@),
        ensures
            r matches Some(n) ==> self.node(codes(auction@)) == Some(*n),
            r is None ==> self.node(codes(auction@)) is None,
    {
        let ghost path = codes(auction@);
        let mut node = self;
        let mut i: usize = 0;
        assert(path.subrange(0, 0) =~= Seq::<int>::empty());
        while i < auction.len()
            invariant
                i <= auction@.len(),
                all_valid(auction@),
                path == codes(auction@),
                self.node(path.subrange(0, i as int)) == Some(*node),
            decreases auction@.len() - i,
        {
            proof {
                use_type_invariant(node);
            }
            let code = encode_call(auction[i]);
            proof {
                self.lemma_node_push(path.subrange(0, i as int), code as int);
                assert(path.subrange(0, i as int).push(code as int) =~= path.subrange(0, i + 1));
            }
            match &node.children[code] {
                Some(child) => {
                    node = child;
                },
                None => {
                    proof {
                        self.lemma_node_append(
                            path.subrange(0, i + 1),
                            path.subrange(i + 1, path.len() as int),
                        );
                        assert(path.subrange(0, i + 1) + path.subrange(i + 1, path.len() as int)
                            =~= path);
                    }
                    return None;
                },
            }
            i += 1;
        }
        assert(path.subrange(0, i as int) =~= path);
        Some(node)
    }

    /// Get the policy for the exact auction
    pub fn get(&self, auction: &[Call]) -> (r: Option<&P>)
        requires
            all_valid(auction@),
        ensures
            r matches Some(p) ==> self.lookup(codes(auction@)) == Some(*p),
            r is None ==> self.lookup(codes(auction@)) is None,
    {
        match self.subtrie(auction) {
            Some(node) => node.filter.as_ref(),
            None => None,
        }
    }

    /// Check if the query auction is a prefix in the trie
    pub fn is_prefix(&self, auction: &[Call]) -> (r: bool)
        requires
            all_valid(auction@),
        ensures
            r == self.reaches(codes(auction@)),
    {
        self.subtrie(auction).is_some()
    }

    /// Insert a policy at the codes of `auction` from `depth` on
    fn insert_from(&mut self, auction: &[Call], depth: usize, f: P) -> (r: Option<P>)
        requires
            depth <= auction@.len(),
            all_valid(auction@),
        ensures
            r == old(self).lookup(codes(auction@).subrange(depth as int, auction@.len() as int)),
            forall|q: Seq<int>| #[trigger]
                final(self).lookup(q) == if q == codes(auction@).subrange(
                    depth as int,
                    auction@.len() as int,
                ) {
                    Some(f)
                } else {
                    old(self).lookup(q)
                },
            forall|q: Seq<int>| #[trigger]
                final(self).reaches(q) == (old(self).reaches(q) || q.is_prefix_of(
                    codes(auction@).subrange(depth as int, auction@.len() as int),
                )),
        decreases auction@.len() - depth,
    {
        proof {
            use_type_invariant(&*self);
        }
        let ghost path = codes(auction@).subrange(depth as int, auction@.len() as int);
        let ghost before = *self;
        if depth == auction.len() {
            let mut slot = Some(f);
            core::mem::swap(&mut self.filter, &mut slot);
            proof {
                assert(path =~= Seq::<int>::empty());
                assert forall|q: Seq<int>| #[trigger]
                    self.lookup(q) == if q == path {
                        Some(f)
                    } else {
                        before.lookup(q)
                    } by {
                    if q.len() > 0 {
                        assert(self.child(q[0]) == before.child(q[0]));
                    } else {
                        assert(q =~= path);
                    }
                }
                assert forall|q: Seq<int>| #[trigger]
                    self.reaches(q) == (before.reaches(q) || q.is_prefix_of(path)) by {
                    if q.len() > 0 {
                        assert(self.child(q[0]) == before.child(q[0]));
                    }
                }
            }
            return slot;
        }
        let code = encode_call(auction[depth]);
        let mut slot: Option<Box<Trie<P>>> = None;
        core::mem::swap(&mut self.children[code], &mut slot);
        let mut child = match slot {
            Some(b) => b,
            None => Box::new(Trie::new()),
        };
        let ghost child_before = *child;
        let r = child.insert_from(auction, depth + 1, f);
        let ghost child_after = *child;
        let mut back = Some(child);
        core::mem::swap(&mut self.children[code], &mut back);
        proof {
            let rest = codes(auction@).subrange(depth + 1, auction@.len() as int);
            assert(path.len() > 0);
            assert(path[0] == code);
            assert(path.drop_first() =~= rest);
            assert(self.child(code as int) == Some(child_after));
            assert forall|q: Seq<int>| #[trigger]
                self.lookup(q) == if q == path {
                    Some(f)
                } else {
                    before.lookup(q)
                } by {
                if q.len() > 0 {
                    if q[0] == code {
                        assert(q == path <==> q.drop_first() == rest) by {
                            if q.drop_first() == rest {
                                assert forall|k: int| 0 <= k < q.len() implies q[k] == path[k] by {
                                    if k > 0 {
                                        assert(q.drop_first()[k - 1] == rest[k - 1]);
                                    }
                                }
                                assert(q =~= path);
                            }
                        }
                        assert(child_after.lookup(q.drop_first()) == if q.drop_first() == rest {
                            Some(f)
                        } else {
                            child_before.lookup(q.drop_first())
                        });
                    } else {
                        assert(self.child(q[0]) == before.child(q[0]));
                    }
                }
            }
            assert forall|q: Seq<int>| #[trigger]
                self.reaches(q) == (before.reaches(q) || q.is_prefix_of(path)) by {
                if q.len() > 0 {
                    if q[0] == code {
                        assert(q.is_prefix_of(path) <==> q.drop_first().is_prefix_of(rest)) by {
                            if q.is_prefix_of(path) {
                                assert forall|k: int| 0 <= k < q.drop_first().len() implies
                                    q.drop_first()[k] == rest[k] by {
                                    assert(q[k + 1] == path[k + 1]);
                                }
                            }
                            if q.drop_first().is_prefix_of(rest) {
                                assert forall|k: int| 0 <= k < q.len() implies q[k] == path[k] by {
                                    if k > 0 {
                                        assert(q.drop_first()[k - 1] == rest[k - 1]);
                                    }
                                }
                            }
                        }
                        assert(child_after.reaches(q.drop_first()) == (child_before.reaches(q.drop_first())
                            || q.drop_first().is_prefix_of(rest)));
                    } else {
                        assert(self.child(q[0]) == before.child(q[0]));
                        assert(!q.is_prefix_of(path));
                    }
                }
            }
        }
        r
    }

    /// Insert a policy into the trie, returning the policy it replaces
    pub fn insert(&mut self, auction: &[Call], f: P) -> (r: Option<P>)
        requires
            all_valid(auction@),
        ensures
            r == old(self).lookup(codes(auction@)),
            inserted(*old(self), *final(self), codes(auction@), f),
    {
        assert(codes(auction@).subrange(0, auction@.len() as int) =~= codes(auction@));
        self.insert_from(auction, 0, f)
    }

    /// A node missing on a walk stays missing on every longer walk
    pub proof fn lemma_missing_extends(self, p: Seq<int>, i: int, k: int)
        requires
            0 <= i <= k <= p.len(),
            self.node(p.subrange(0, i)) is None,
        ensures
            self.node(p.subrange(0, k)) is None,
    {
        self.lemma_node_append(p.subrange(0, i), p.subrange(i, k));
        assert(p.subrange(0, i) + p.subrange(i, k) =~= p.subrange(0, k));
    }

    /// Get the longest prefix of the auction that has a policy
    pub fn longest_prefix<'a>(&self, auction: &'a [Call]) -> (r: Option<(&'a [Call], &P)>)
        requires
            all_valid(auction@),
        ensures
            r matches Some((s, p)) ==> {
                &&& s@ == auction@.subrange(0, s@.len() as int)
                &&& s@.len() <= auction@.len()
                &&& self.lookup(codes(auction@).subrange(0, s@.len() as int)) == Some(*p)
                &&& forall|k: int|
                    s@.len() < k <= auction@.len() ==> (#[trigger] self.lookup(
                        codes(auction@).subrange(0, k),
                    )) is None
            },
            r is None ==> forall|k: int|
                0 <= k <= auction@.len() ==> (#[trigger] self.lookup(
                    codes(auction@).subrange(0, k),
                )) is None,
    {
        let ghost path = codes(auction@);
        let mut best: Option<(usize, &P)> = match &self.filter {
            Some(f) => Some((0, f)),
            None => None,
        };
        let mut node = self;
        let mut i: usize = 0;
        assert(path.subrange(0, 0) =~= Seq::<int>::empty());
        while i < auction.len()
            invariant
                i <= auction@.len(),
                all_valid(auction@),
                path == codes(auction@),
                self.node(path.subrange(0, i as int)) == Some(*node),
                best matches Some((d, p)) ==> d <= i && self.lookup(path.subrange(0, d as int))
                    == Some(*p),
                forall|k: int|
                    (match best {
                        Some((d, _)) => d as int,
                        None => -1,
                    }) < k <= i ==> (#[trigger] self.lookup(path.subrange(0, k))) is None,
            ensures
                best matches Some((d, p)) ==> d <= auction@.len() && self.lookup(
                    path.subrange(0, d as int),
                ) == Some(*p),
                forall|k: int|
                    (match best {
                        Some((d, _)) => d as int,
                        None => -1,
                    }) < k <= auction@.len() ==> (#[trigger] self.lookup(path.subrange(0, k)))
                        is None,
            decreases auction@.len() - i,
        {
            proof {
                use_type_invariant(node);
            }
            let code = encode_call(auction[i]);
            proof {
                self.lemma_node_push(path.subrange(0, i as int), code as int);
                assert(path.subrange(0, i as int).push(code as int) =~= path.subrange(0, i + 1));
            }
            match &node.children[code] {
                Some(child) => {
                    node = child;
                },
                None => {
                    proof {
                        assert forall|k: int| i < k <= auction@.len() implies (#[trigger] self.lookup(
                            path.subrange(0, k),
                        )) is None by {
                            self.lemma_missing_extends(path, i + 1, k);
                        }
                    }
                    break;
                },
            }
            i += 1;
            if let Some(f) = &node.filter {
                best = Some((i, f));
            }
        }
        match best {
            Some((d, f)) => {
                let s = slice_subrange(auction, 0, d);
                Some((s, f))
            },
            None => None,
        }
    }

    /// Iterate over the prefixes of the auction that have a policy
    pub fn common_prefixes<'a>(&'a self, auction: Auction) -> (r: CommonPrefixes<'a, P>)
        requires
            all_valid(auction@),
        ensures
            r.wf(),
            r.remaining() == common_from(*self, auction@, 0),
    {
        CommonPrefixes::new(self, auction)
    }
}

/// The prefixes of `a` of length `k` or more that have a policy in `trie`,
/// shortest first, each with its policy
pub open spec fn common_from<P>(trie: Trie<P>, a: Seq<Call>, k: int) -> Seq<(Seq<Call>, P)>
    decreases a.len() + 1 - k,
{
    if k < 0 || k > a.len() {
        Seq::empty()
    } else {
        let here = match trie.lookup(codes(a).subrange(0, k)) {
            Some(p) => seq![(a.subrange(0, k), p)],
            None => Seq::empty(),
        };
        here + common_from(trie, a, k + 1)
    }
}

/// Past a missing node no prefix has a policy
pub proof fn lemma_common_missing<P>(trie: Trie<P>, a: Seq<Call>, k: int)
    requires
        0 <= k,
        k <= a.len() ==> trie.node(codes(a).subrange(0, k)) is None,
    ensures
        common_from(trie, a, k) == Seq::<(Seq<Call>, P)>::empty(),
    decreases a.len() + 1 - k,
{
    if k <= a.len() {
        if k + 1 <= a.len() {
            trie.lemma_missing_extends(codes(a), k, k + 1);
        }
        lemma_common_missing(trie, a, k + 1);
        assert(common_from(trie, a, k) =~= Seq::<(Seq<Call>, P)>::empty());
    }
}

/// Common prefix iterator for a given auction
///
/// It walks the trie along the auction and yields each prefix that has a
/// policy, shortest first.
#[derive(Clone)]
pub struct CommonPrefixes<'a, P> {
    trie: &'a Trie<P>,
    node: &'a Trie<P>,
    query: Auction,
    depth: usize,
    value: Option<&'a P>,
}

impl<'a, P> CommonPrefixes<'a, P> {
    /// The state of the walk is consistent
    pub closed spec fn wf(self) -> bool {
        &&& all_valid(self.query@)
        &&& self.depth <= self.query@.len()
        &&& self.trie.node(codes(self.query@).subrange(0, self.depth as int)) == Some(*self.node)
        &&& self.value matches Some(p) ==> self.node.policy() == Some(*p)
    }

    /// The items that the iterator has yet to yield
    pub closed spec fn remaining(self) -> Seq<(Seq<Call>, P)> {
        let here = match self.value {
            Some(p) => seq![(self.query@.subrange(0, self.depth as int), *p)],
            None => Seq::empty(),
        };
        here + common_from(*self.trie, self.query@, self.depth + 1)
    }

    /// Construct a common prefix iterator for a trie and an auction
    pub fn new(trie: &'a Trie<P>, query: Auction) -> (r: CommonPrefixes<'a, P>)
        requires
            all_valid(query@),
        ensures
            r.wf(),
            r.remaining() == common_from(*trie, query@, 0),
    {
        let r = CommonPrefixes { trie, node: trie, query, depth: 0, value: trie.filter.as_ref() };
        proof {
            let a = r.query@;
            assert(codes(a).subrange(0, 0) =~= Seq::<int>::empty());
            assert(a.subrange(0, 0) =~= Seq::<Call>::empty());
            assert(r.remaining() =~= common_from(*trie, a, 0));
        }
        r
    }

    /// Yield the next prefix that has a policy, with its policy
    pub fn next(&mut self) -> (r: Option<(Vec<Call>, &'a P)>)
        requires
            old(self).wf(),
        ensures
            final(self).wf(),
            r matches Some((s, p)) ==> old(self).remaining() == seq![(s@, *p)] + final(self).remaining(),
            r is None ==> old(self).remaining() == Seq::<(Seq<Call>, P)>::empty()
                && final(self).remaining() == Seq::<(Seq<Call>, P)>::empty(),
    {
        let ghost rem = self.remaining();
        while self.value.is_none()
            invariant
                self.wf(),
                self.remaining() == rem,
                rem == old(self).remaining(),
            decreases self.query@.len() - self.depth,
        {
            let ghost path = codes(self.query@);
            let ghost d = self.depth as int;
            if self.depth >= self.query.len() {
                assert(common_from(*self.trie, self.query@, d + 1) =~= Seq::<(Seq<Call>, P)>::empty());
                assert(self.remaining() =~= Seq::<(Seq<Call>, P)>::empty());
                return None;
            }
            proof {
                use_type_invariant(self.node);
            }
            let calls = self.query.as_slice();
            let code = encode_call(calls[self.depth]);
            proof {
                self.trie.lemma_node_push(path.subrange(0, d), code as int);
                assert(path.subrange(0, d).push(code as int) =~= path.subrange(0, d + 1));
            }
            match &self.node.children[code] {
                Some(child) => {
                    self.node = child;
                    self.value = child.filter.as_ref();
                    self.depth = self.depth + 1;
                    proof {
                        assert(rem =~= self.remaining());
                    }
                },
                None => {
                    proof {
                        lemma_common_missing(*self.trie, self.query@, d + 1);
                        assert(self.remaining() =~= Seq::<(Seq<Call>, P)>::empty());
                    }
                    return None;
                },
            }
        }
        let p = match self.value.take() {
            Some(p) => p,
            None => return None,
        };
        let s = slice_to_vec(slice_subrange(self.query.as_slice(), 0, self.depth));
        proof {
            assert(rem =~= seq![(s@, *p)] + self.remaining());
        }
        Some((s, p))
    }
}

impl<P: Clone> Trie<P> {
    /// A copy of the trie, node by node
    fn deep_clone(&self) -> (r: Trie<P>)
        decreases self,
    {
        proof {
            use_type_invariant(self);
        }
        let mut children: Vec<Option<Box<Trie<P>>>> = Vec::new();
        let mut i: usize = 0;
        while i < 37
            invariant
                i <= 37,
                children@.len() == i,
                self.children@.len() == 37,
            decreases 37 - i,
        {
            let copy = match &self.children[i] {
                Some(child) => {
                    proof {
                        self.lemma_child_decreases(i as int);
                        assert(self.child(i as int) == Some(**child));
                    }
                    Some(Box::new(child.deep_clone()))
                },
                None => None,
            };
            children.push(copy);
            i += 1;
        }
        Trie { children, filter: self.filter.clone() }
    }
}

impl<P: Clone> Clone for Trie<P> {
    fn clone(&self) -> (r: Trie<P>) {
        self.deep_clone()
    }
}

impl<P: Clone> Clone for Forest<P> {
    fn clone(&self) -> (r: Forest<P>) {
        Forest([self.0[0].clone(), self.0[1].clone(), self.0[2].clone(), self.0[3].clone()])
    }
}

impl<P> Default for Trie<P> {
    fn default() -> (r: Trie<P>)
        ensures
            is_fresh(r),
    {
        Trie::new()
    }
}

/// An item of a suffix enumeration: the calls below the query, and the
/// policy found there or the law that they break
pub type SuffixItem<P> = (Seq<Call>, Result<P, IllegalCall>);

/// The view of an enumerated item
pub open spec fn suffix_item<P>(x: (Vec<Call>, Result<&P, IllegalCall>)) -> SuffixItem<P> {
    (
        x.0@,
        match x.1 {
            Ok(p) => Ok(*p),
            Err(e) => Err(e),
        },
    )
}

impl<P> Trie<P> {
    /// Items below this node, which the auction `a` reaches, in pre-order and
    /// by ascending code: the policy of the node, then the items of each child
    ///
    /// A child is reached by forcing its call onto the auction.  Where that
    /// breaks a law, the child yields the violation alone and nothing below it.
    pub open spec fn entries(self, a: Seq<Call>, from: int) -> Seq<SuffixItem<P>>
        decreases self, 38int,
    {
        let here = match self.policy() {
            Some(p) => seq![(a.subrange(from, a.len() as int), Ok(p))],
            None => Seq::empty(),
        };
        here + self.child_entries(a, from, 0)
    }

    /// Items below the children of this node from code `code` on
    pub open spec fn child_entries(self, a: Seq<Call>, from: int, code: int) -> Seq<SuffixItem<P>>
        decreases self, 37 - code,
    {
        if code < 0 || code >= 37 {
            Seq::empty()
        } else {
            let rest = self.child_entries(a, from, code + 1);
            match self.child(code) {
                Some(c) => {
                    proof {
                        self.lemma_child_decreases(code);
                    }
                    let call = forced_call(a, call_of(code).unwrap());
                    let b = a.push(call);
                    match call_check(a, call) {
                        Ok(_) => c.entries(b, from) + rest,
                        Err(e) => seq![(b.subrange(from, b.len() as int), Err(e))] + rest,
                    }
                },
                None => rest,
            }
        }
    }
}

impl<P> Trie<P> {
    /// The number of nodes of this trie
    pub closed spec fn size(self) -> nat
        decreases self, 38int,
    {
        1 + self.child_size(0)
    }

    /// The number of nodes below the children of this node from code `code` on
    pub closed spec fn child_size(self, code: int) -> nat
        decreases self, 37 - code,
    {
        if code < 0 || code >= 37 {
            0
        } else {
            let rest = self.child_size(code + 1);
            match self.child(code) {
                Some(c) => {
                    proof {
                        self.lemma_child_decreases(code);
                    }
                    c.size() + rest
                },
                None => rest,
            }
        }
    }
}

/// A child waiting on the stack of a suffix enumeration: the auction of its
/// parent, its code and the child itself
pub type Frame<P> = (Seq<Call>, int, Trie<P>);

/// The items of a child reached from the auction `parent` by `code`
pub open spec fn visit<P>(f: Frame<P>, from: int) -> Seq<SuffixItem<P>> {
    let (parent, code, child) = f;
    let call = forced_call(parent, call_of(code).unwrap());
    let b = parent.push(call);
    match call_check(parent, call) {
        Ok(_) => child.entries(b, from),
        Err(e) => seq![(b.subrange(from, b.len() as int), Err(e))],
    }
}

/// The items of the frames of a stack, from its top down
pub open spec fn stack_items<P>(fs: Seq<Frame<P>>, from: int) -> Seq<SuffixItem<P>>
    decreases fs.len(),
{
    if fs.len() == 0 {
        Seq::empty()
    } else {
        visit(fs.last(), from) + stack_items(fs.drop_last(), from)
    }
}

/// The number of nodes under the frames of a stack
pub open spec fn stack_size<P>(fs: Seq<Frame<P>>) -> nat
    decreases fs.len(),
{
    if fs.len() == 0 {
        0
    } else {
        fs.last().2.size() + stack_size(fs.drop_last())
    }
}

#[derive(Clone)]
struct StackEntry<'a, P> {
    depth: usize,
    index: usize,
    node: &'a Trie<P>,
}

/// Suffix iterator for a given auction
///
/// It enumerates the policies below the auction depth first, children by
/// ascending code, with an explicit stack.  The calls that reach a policy are
/// forced onto the auction one by one, so that a call breaking the laws of
/// bridge is reported in place of what lies below it.
#[derive(Clone)]
pub struct Suffixes<'a, P> {
    stack: Vec<StackEntry<'a, P>>,
    auction: Auction,
    separator: usize,
    value: Option<&'a P>,
    parents: Ghost<Seq<Seq<Call>>>,
}

impl<'a, P> Suffixes<'a, P> {
    /// The frames of the stack, bottom first
    pub closed spec fn frames(self) -> Seq<Frame<P>> {
        Seq::new(
            self.stack@.len(),
            |i: int| (self.parents@[i], self.stack@[i].index as int, *self.stack@[i].node),
        )
    }

    /// The state of the enumeration is consistent
    pub closed spec fn wf(self) -> bool {
        &&& self.separator <= self.auction@.len()
        &&& self.parents@.len() == self.stack@.len()
        &&& forall|i: int|
            0 <= i < self.stack@.len() ==> {
                &&& (#[trigger] self.parents@[i]).len() == self.separator + self.stack@[i].depth
                &&& self.parents@[i].len() <= self.auction@.len()
                &&& self.parents@[i] == self.auction@.subrange(0, self.parents@[i].len() as int)
                &&& self.stack@[i].index < 37
            }
        &&& forall|i: int, j: int|
            0 <= i < j < self.stack@.len() ==> #[trigger] self.stack@[i].depth <= #[trigger] self.stack@[j].depth
    }

    /// The items that the iterator has yet to yield
    pub closed spec fn remaining(self) -> Seq<SuffixItem<P>> {
        let a = self.auction@;
        let here = match self.value {
            Some(p) => seq![(a.subrange(self.separator as int, a.len() as int), Ok(*p))],
            None => Seq::empty(),
        };
        here + stack_items(self.frames(), self.separator as int)
    }

    /// Construct an empty iterator
    pub fn empty() -> (r: Suffixes<'a, P>)
        ensures
            r.wf(),
            r.remaining() == Seq::<SuffixItem<P>>::empty(),
    {
        let r = Suffixes {
            stack: Vec::new(),
            auction: Auction::new(),
            separator: 0,
            value: None,
            parents: Ghost(Seq::empty()),
        };
        assert(r.frames() =~= Seq::<Frame<P>>::empty());
        assert(r.remaining() =~= Seq::<SuffixItem<P>>::empty());
        r
    }

    /// Push the children of `node`, reached by the current auction, in
    /// descending order of code, so that they pop in ascending order
    fn push_children(&mut self, node: &'a Trie<P>, depth: usize)
        requires
            old(self).wf(),
            old(self).auction@.len() == old(self).separator + depth,
            forall|i: int|
                0 <= i < old(self).stack@.len() ==> #[trigger] old(self).stack@[i].depth <= depth,
        ensures
            final(self).wf(),
            final(self).auction@ == old(self).auction@,
            final(self).separator == old(self).separator,
            final(self).value == old(self).value,
            stack_items(final(self).frames(), final(self).separator as int) == node.child_entries(
                old(self).auction@,
                old(self).separator as int,
                0,
            ) + stack_items(old(self).frames(), old(self).separator as int),
            stack_size(final(self).frames()) == node.child_size(0) + stack_size(old(self).frames()),
    {
        proof {
            use_type_invariant(node);
        }
        let ghost a = self.auction@;
        let ghost from = self.separator as int;
        let ghost fs0 = self.frames();
        let mut code: usize = 37;
        assert(node.child_entries(a, from, 37) =~= Seq::<SuffixItem<P>>::empty());
        assert(stack_items(fs0, from) =~= node.child_entries(a, from, 37) + stack_items(fs0, from));
        while code > 0
            invariant
                code <= 37,
                self.wf(),
                self.auction@ == a,
                self.separator == from,
                self.value == old(self).value,
                a.len() == from + depth,
                node.children@.len() == 37,
                forall|i: int| 0 <= i < self.stack@.len() ==> #[trigger] self.stack@[i].depth <= depth,
                stack_items(self.frames(), from) == node.child_entries(a, from, code as int)
                    + stack_items(fs0, from),
                stack_size(self.frames()) == node.child_size(code as int) + stack_size(fs0),
            decreases code,
        {
            let c = code - 1;
            match &node.children[c] {
                Some(child) => {
                    let ghost fs = self.frames();
                    let ghost f: Frame<P> = (a, c as int, **child);
                    self.stack.push(StackEntry { depth, index: c, node: child });
                    self.parents = Ghost(self.parents@.push(a));
                    proof {
                        assert(a.subrange(0, a.len() as int) =~= a);
                        assert(self.frames() =~= fs.push(f));
                        assert(fs.push(f).drop_last() =~= fs);
                        assert(node.child(c as int) == Some(**child));
                        assert(stack_items(self.frames(), from) =~= node.child_entries(a, from, c as int)
                            + stack_items(fs0, from));
                    }
                },
                None => {
                    assert(node.child(c as int) is None);
                },
            }
            code = c;
        }
    }

    /// Construct a suffix iterator for a trie and an auction
    pub fn new(trie: &'a Trie<P>, auction: Auction) -> (r: Suffixes<'a, P>)
        requires
            all_valid(auction@),
        ensures
            r.wf(),
            r.remaining() == match trie.node(codes(auction@)) {
                Some(n) => n.entries(auction@, auction@.len() as int),
                None => Seq::empty(),
            },
    {
        let node = match trie.subtrie(auction.as_slice()) {
            Some(node) => node,
            None => return Suffixes::empty(),
        };
        let separator = auction.len();
        let mut r = Suffixes {
            stack: Vec::new(),
            auction,
            separator,
            value: node.filter.as_ref(),
            parents: Ghost(Seq::empty()),
        };
        assert(r.frames() =~= Seq::<Frame<P>>::empty());
        r.push_children(node, 0);
        proof {
            let a = r.auction@;
            assert(r.remaining() =~= node.entries(a, a.len() as int));
        }
        r
    }

    /// The calls after the query auction
    fn suffix(&self) -> (r: Vec<Call>)
        requires
            self.separator <= self.auction@.len(),
        ensures
            r@ == self.auction@.subrange(self.separator as int, self.auction@.len() as int),
    {
        let calls = self.auction.as_slice();
        slice_to_vec(slice_subrange(calls, self.separator, calls.len()))
    }

    /// Yield the next item: the calls below the query auction, and the
    /// policy found there or the law that they break
    pub fn next(&mut self) -> (r: Option<(Vec<Call>, Result<&'a P, IllegalCall>)>)
        requires
            old(self).wf(),
        ensures
            final(self).wf(),
            r matches Some(x) ==> old(self).remaining() == seq![suffix_item(x)]
                + final(self).remaining(),
            r is None ==> old(self).remaining() == Seq::<SuffixItem<P>>::empty()
                && final(self).remaining() == Seq::<SuffixItem<P>>::empty(),
    {
        let ghost rem = self.remaining();
        while self.value.is_none()
            invariant
                self.wf(),
                self.remaining() == rem,
                rem == old(self).remaining(),
            decreases stack_size(self.frames()),
        {
            let ghost fs = self.frames();
            let ghost from = self.separator as int;
            let ghost old_stack = self.stack@;
            let ghost old_parents = self.parents@;
            let entry = match self.stack.pop() {
                Some(entry) => entry,
                None => {
                    assert(fs =~= Seq::<Frame<P>>::empty());
                    assert(self.remaining() =~= Seq::<SuffixItem<P>>::empty());
                    return None;
                },
            };
            let ghost f = fs.last();
            let ghost parent = self.parents@.last();
            self.parents = Ghost(self.parents@.drop_last());
            proof {
                assert(self.frames() =~= fs.drop_last());
                assert(parent == f.0);
                assert(old_parents[old_stack.len() - 1].len() == from + old_stack[old_stack.len()
                    - 1].depth);
                assert(entry == old_stack[old_stack.len() - 1]);
                use_type_invariant(entry.node);
            }
            let n = self.auction.len();
            assert(old_parents[old_stack.len() - 1].len() <= n);
            self.auction.truncate(self.separator + entry.depth);
            assert(self.auction@ =~= parent);
            let call = match decode_call(entry.index) {
                Some(call) => call,
                None => return None,
            };
            let report = self.auction.force_push(call);
            if let Err(e) = report {
                let s = self.suffix();
                proof {
                    assert forall|i: int| 0 <= i < self.stack@.len() implies
                        (#[trigger] self.parents@[i]) == self.auction@.subrange(
                            0,
                            self.parents@[i].len() as int,
                        ) by {
                        assert(self.stack@[i].depth <= entry.depth);
                        assert(self.parents@[i] == parent.subrange(0, self.parents@[i].len() as int));
                    }
                    assert(rem =~= seq![suffix_item((s, Err(e)))] + self.remaining());
                }
                return Some((s, Err(e)));
            }
            self.value = entry.node.filter.as_ref();
            proof {
                assert forall|i: int| 0 <= i < self.stack@.len() implies
                    (#[trigger] self.parents@[i]) == self.auction@.subrange(
                        0,
                        self.parents@[i].len() as int,
                    ) by {
                    assert(self.stack@[i].depth <= entry.depth);
                    assert(self.parents@[i] == parent.subrange(0, self.parents@[i].len() as int));
                }
                assert forall|i: int| 0 <= i < self.stack@.len() implies
                    #[trigger] self.stack@[i].depth <= entry.depth + 1 by {
                    assert(self.stack@[i].depth <= fs.last().0.len() - from);
                }
            }
            let child_depth = self.auction.len() - self.separator;
            self.push_children(entry.node, child_depth);
            proof {
                assert(rem =~= self.remaining());
            }
        }
        let p = match self.value.take() {
            Some(p) => p,
            None => return None,
        };
        let s = self.suffix();
        proof {
            assert(rem =~= seq![suffix_item((s, Ok(p)))] + self.remaining());
        }
        Some((s, Ok(p)))
    }
}

impl<P> Trie<P> {
    /// Depth first iteration over all policies of the trie
    pub fn iter<'a>(&'a self) -> (r: Suffixes<'a, P>)
        ensures
            r.wf(),
            r.remaining() == self.entries(Seq::empty(), 0),
    {
        let r = Suffixes::new(self, Auction::new());
        assert(codes(Seq::<Call>::empty()) =~= Seq::<int>::empty());
        r
    }

    /// Depth first iteration over all suffixes of the auction
    pub fn suffixes<'a>(&'a self, auction: Auction) -> (r: Suffixes<'a, P>)
        requires
            all_valid(auction@),
        ensures
            r.wf(),
            r.remaining() == match self.node(codes(auction@)) {
                Some(n) => n.entries(auction@, auction@.len() as int),
                None => Seq::empty(),
            },
    {
        Suffixes::new(self, auction)
    }
}

/// A bidding system aware of vulnerability: four independent tries, one for
/// each vulnerability
pub struct Forest<P>([Trie<P>; 4]);

impl<P> Forest<P> {
    /// The trie at a vulnerability of bits `index`
    pub closed spec fn tree(self, index: int) -> Trie<P> {
        self.0@[index]
    }

    /// Construct a forest of empty tries
    pub fn new() -> (r: Forest<P>)
        ensures
            forall|i: int, q: Seq<int>| 0 <= i < 4 ==> (#[trigger] r.tree(i).lookup(q)) is None,
            forall|i: int, q: Seq<int>|
                0 <= i < 4 ==> ((#[trigger] r.tree(i).reaches(q)) <==> q.len() == 0),
    {
        Forest([Trie::new(), Trie::new(), Trie::new(), Trie::new()])
    }

    /// The trie for a vulnerability
    pub fn get(&self, vul: Vulnerability) -> (r: &Trie<P>)
        ensures
            *r == self.tree(vul@ as int),
    {
        &self.0[vul.bits() as usize]
    }

    /// The trie for a vulnerability, to change
    pub fn get_mut(&mut self, vul: Vulnerability) -> (r: &mut Trie<P>)
        ensures
            *r == old(self).tree(vul@ as int),
            forall|i: int| 0 <= i < 4 && i != vul@ ==> #[trigger] final(self).tree(i) == old(self).tree(i),
            final(self).tree(vul@ as int) == *final(r),
    {
        &mut self.0[vul.bits() as usize]
    }
}

/// Below `n` lies one policy, `f` at `path`, and no node off that path
pub open spec fn single_path<P>(n: Trie<P>, path: Seq<int>, f: P) -> bool {
    &&& forall|q: Seq<int>| #[trigger]
        n.lookup(q) == if q == path {
            Some(f)
        } else {
            None
        }
    &&& forall|q: Seq<int>| #[trigger] n.reaches(q) == q.is_prefix_of(path)
}

/// A legal call is what the enumeration synthesizes from its code
pub proof fn lemma_synthesized_call(a: Seq<Call>, call: Call)
    requires
        is_valid_call(call),
        call_check(a, call) is Ok,
    ensures
        call_of(code_of(call)) is Some,
        forced_call(a, call_of(code_of(call)).unwrap()) == call,
{
    lemma_codec_inverse(call);
    if call == Call::Double {
        assert(double_ok(a));
        assert(!redouble_ok(a));
    }
}

/// Children from `code` on that are all missing yield nothing
proof fn lemma_no_children<P>(n: Trie<P>, a: Seq<Call>, from: int, code: int)
    requires
        0 <= code,
        forall|c: int| code <= c < 37 ==> (#[trigger] n.child(c)) is None,
    ensures
        n.child_entries(a, from, code) == Seq::<SuffixItem<P>>::empty(),
    decreases 37 - code,
{
    if code < 37 {
        lemma_no_children(n, a, from, code + 1);
    }
}

/// Children from `code` on, of which only the one at `k` exists, yield what
/// that child yields
proof fn lemma_one_child<P>(n: Trie<P>, a: Seq<Call>, from: int, code: int, k: int)
    requires
        0 <= code <= k < 37,
        n.child(k) is Some,
        forall|c: int| code <= c < 37 && c != k ==> (#[trigger] n.child(c)) is None,
    ensures
        n.child_entries(a, from, code) == visit((a, k, n.child(k).unwrap()), from),
    decreases k - code,
{
    if code < k {
        lemma_one_child(n, a, from, code + 1, k);
    } else {
        lemma_no_children(n, a, from, k + 1);
        assert(n.child_entries(a, from, k) =~= visit((a, k, n.child(k).unwrap()), from));
    }
}

/// The auction that forcing the calls of `path` onto `a` one by one builds,
/// up to and with the first call that breaks a law, and that violation if any
pub open spec fn forced_walk(a: Seq<Call>, path: Seq<int>) -> (Seq<Call>, Result<(), IllegalCall>)
    decreases path.len(),
{
    if path.len() == 0 {
        (a, Ok(()))
    } else {
        let call = forced_call(a, call_of(path[0]).unwrap());
        match call_check(a, call) {
            Ok(_) => forced_walk(a.push(call), path.drop_first()),
            Err(e) => (a.push(call), Err(e)),
        }
    }
}

/// Inserting one policy into a fresh trie leaves a single path
pub proof fn lemma_fresh_insert<P>(before: Trie<P>, after: Trie<P>, path: Seq<int>, f: P)
    requires
        is_fresh(before),
        inserted(before, after, path, f),
    ensures
        single_path(after, path, f),
{
    assert forall|q: Seq<int>| #[trigger]
        after.lookup(q) == if q == path {
            Some(f)
        } else {
            None
        } by {
        assert(before.lookup(q) is None);
    }
    assert forall|q: Seq<int>| #[trigger] after.reaches(q) == q.is_prefix_of(path) by {
        assert(before.reaches(q) <==> q.len() == 0);
        if q.len() == 0 {
            assert(q.is_prefix_of(path));
        }
    }
}

/// A node whose subtree holds a single path yields one item: the auction
/// that forcing the path builds, with the policy, or with the first law that
/// the path breaks
pub proof fn lemma_single_path_entries<P>(n: Trie<P>, a: Seq<Call>, path: Seq<int>, from: int, f: P)
    requires
        single_path(n, path, f),
        forall|i: int| 0 <= i < path.len() ==> 0 <= #[trigger] path[i] < 37,
        0 <= from <= a.len(),
    ensures
        n.entries(a, from) == seq![
            (
                forced_walk(a, path).0.subrange(from, forced_walk(a, path).0.len() as int),
                match forced_walk(a, path).1 {
                    Ok(_) => Ok::<P, IllegalCall>(f),
                    Err(e) => Err(e),
                },
            ),
        ],
    decreases path.len(),
{
    n.lemma_child_node(0);
    if path.len() == 0 {
        assert(path =~= Seq::<int>::empty());
        assert(n.lookup(Seq::empty()) == Some(f));
        assert forall|c: int| 0 <= c < 37 implies (#[trigger] n.child(c)) is None by {
            n.lemma_child_node(c);
            assert(!n.reaches(seq![c]));
        }
        lemma_no_children(n, a, from, 0);
        assert(n.entries(a, from) =~= seq![(a.subrange(from, a.len() as int), Ok::<P, IllegalCall>(f))]);
    } else {
        let k = path[0];
        let rest = path.drop_first();
        assert(Seq::<int>::empty() != path);
        assert(n.policy() is None);
        assert forall|c: int| 0 <= c < 37 && c != k implies (#[trigger] n.child(c)) is None by {
            n.lemma_child_node(c);
            assert(!seq![c].is_prefix_of(path));
            assert(!n.reaches(seq![c]));
        }
        n.lemma_child_node(k);
        assert(seq![k].is_prefix_of(path));
        assert(n.reaches(seq![k]));
        let ch = n.child(k).unwrap();
        assert forall|q: Seq<int>| #[trigger]
            ch.lookup(q) == if q == rest {
                Some(f)
            } else {
                None
            } by {
            n.lemma_child_below(k, q);
            let kq = seq![k] + q;
            assert(kq.drop_first() =~= q);
            if q == rest {
                assert(kq =~= path);
            }
        }
        assert forall|q: Seq<int>| #[trigger] ch.reaches(q) == q.is_prefix_of(rest) by {
            n.lemma_child_below(k, q);
            let kq = seq![k] + q;
            if q.is_prefix_of(rest) {
                assert forall|i: int| 0 <= i < kq.len() implies kq[i] == path[i] by {
                    if i > 0 {
                        assert(kq[i] == q[i - 1]);
                        assert(path[i] == rest[i - 1]);
                    }
                }
            }
            if kq.is_prefix_of(path) {
                assert forall|i: int| 0 <= i < q.len() implies q[i] == rest[i] by {
                    assert(kq[i + 1] == path[i + 1]);
                }
            }
        }
        lemma_one_child(n, a, from, 0, k);
        let call = forced_call(a, call_of(k).unwrap());
        match call_check(a, call) {
            Ok(_) => {
                assert forall|i: int| 0 <= i < rest.len() implies 0 <= #[trigger] rest[i] < 37 by {
                    assert(rest[i] == path[i + 1]);
                }
                lemma_single_path_entries(ch, a.push(call), rest, from, f);
            },
            Err(e) => {},
        }
    }
}

/// Forcing the codes of a legal sequence of calls builds that sequence
pub proof fn lemma_forced_walk_legal(a: Seq<Call>, calls: Seq<Call>)
    requires
        all_valid(calls),
        extended(a, calls) == (a + calls, Ok::<(), IllegalCall>(())),
    ensures
        forced_walk(a, codes(calls)) == (a + calls, Ok::<(), IllegalCall>(())),
    decreases calls.len(),
{
    if calls.len() == 0 {
        assert(codes(calls) =~= Seq::<int>::empty());
        assert(a + calls =~= a);
    } else {
        let c0 = calls[0];
        let rest = calls.drop_first();
        assert(is_valid_call(c0));
        assert(codes(calls)[0] == code_of(c0));
        assert(codes(calls).drop_first() =~= codes(rest));
        assert(call_check(a, c0) is Ok);
        lemma_synthesized_call(a, c0);
        assert(a.push(c0) + rest =~= a + calls);
        assert forall|i: int| 0 <= i < rest.len() implies is_valid_call(#[trigger] rest[i]) by {
            assert(rest[i] == calls[i + 1]);
        }
        lemma_forced_walk_legal(a.push(c0), rest);
    }
}

/// A fresh trie with one policy inserted at a legal auction enumerates to
/// exactly that auction with that policy
pub proof fn lemma_one_entry<P>(before: Trie<P>, after: Trie<P>, calls: Seq<Call>, f: P)
    requires
        is_fresh(before),
        inserted(before, after, codes(calls), f),
        all_valid(calls),
        extended(Seq::empty(), calls) == (calls, Ok::<(), IllegalCall>(())),
    ensures
        after.entries(Seq::empty(), 0) == seq![(calls, Ok::<P, IllegalCall>(f))],
{
    lemma_fresh_insert(before, after, codes(calls), f);
    assert(Seq::<Call>::empty() + calls =~= calls);
    lemma_forced_walk_legal(Seq::empty(), calls);
    assert forall|i: int| 0 <= i < codes(calls).len() implies 0 <= #[trigger] codes(calls)[i] < 37 by {
        assert(is_valid_call(calls[i]));
        lemma_codec_inverse(calls[i]);
    }
    lemma_single_path_entries(after, Seq::empty(), codes(calls), 0, f);
    assert(calls.subrange(0, calls.len() as int) =~= calls);
}

} // verus!
