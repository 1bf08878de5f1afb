use vstd::prelude::*;

verus! {

/// The most ranges a key chain holds at once.
pub const MAX_RANGES: usize = 3;

/// Below this many keys, a key chain asks for more: a chain asks once it is
/// empty.
pub const LOW_WATER: u64 = 1;

/// The keys `first..=last`, in order.
pub open spec fn range_keys(first: u64, last: u64) -> Seq<u64> {
    Seq::new((last - first + 1) as nat, |i: int| (first + i) as u64)
}

/// The keys of a list of ranges, range after range.
pub open spec fn chain_keys(ranges: Seq<(u64, u64)>) -> Seq<u64>
    decreases ranges.len(),
{
    if ranges.len() == 0 {
        Seq::empty()
    } else {
        range_keys(ranges[0].0, ranges[0].1) + chain_keys(ranges.drop_first())
    }
}

/// A collab client's reservoir of key ranges granted by the server. Keys are
/// handed out in the order they were granted.
pub struct KeyChain {
    ranges: Vec<(u64, u64)>,
}

impl KeyChain {
    pub closed spec fn wf(&self) -> bool {
        &&& self.ranges@.len() <= MAX_RANGES
        &&& forall|i: int| 0 <= i < self.ranges@.len() ==> #[trigger] self.ranges@[i].0 <= self.ranges@[i].1
    }

    /// The keys still available, in the order they will be handed out.
    pub closed spec fn keys(&self) -> Seq<u64> {
        chain_keys(self.ranges@)
    }

    /// The number of ranges held.
    pub closed spec fn n_ranges(&self) -> nat {
        self.ranges@.len()
    }

    pub fn new() -> (r: KeyChain)
        ensures
            r.wf(),
            r.keys() == Seq::<u64>::empty(),
            r.n_ranges() == 0,
    {
        KeyChain { ranges: Vec::new() }
    }

    /// Hands out the next key, or `None` when the chain is empty.
    pub fn next_key(&mut self) -> (r: Option<u64>)
        requires
            old(self).wf(),
        ensures
            final(self).wf(),
            old(self).keys().len() == 0 ==> r is None && final(self).keys() == old(self).keys(),
            old(self).keys().len() > 0 ==> r == Some(old(self).keys()[0]) && final(self).keys()
                == old(self).keys().drop_first(),
            final(self).n_ranges() <= old(self).n_ranges(),
    {
        if self.ranges.len() == 0 {
            return None;
        }
        let (first, last) = self.ranges[0];
        let ghost rest = self.ranges@.drop_first();
        proof {
            assert(self.ranges@[0].0 <= self.ranges@[0].1);
            assert(range_keys(first, last).len() >= 1);
        }
        if first == last {
            self.ranges.remove(0);
            proof {
                assert(self.ranges@ =~= rest);
                assert(range_keys(first, last) =~= seq![first]);
                assert(old(self).keys() == seq![first] + chain_keys(rest));
                assert((seq![first] + chain_keys(rest)).drop_first() =~= chain_keys(rest));
            }
        } else {
            self.ranges.set(0, (first + 1, last));
            proof {
                assert(self.ranges@.drop_first() =~= rest);
                assert(range_keys((first + 1) as u64, last) =~= range_keys(first, last).drop_first());
                assert((range_keys(first, last) + chain_keys(rest)).drop_first() =~= range_keys(
                    first,
                    last,
                ).drop_first() + chain_keys(rest));
            }
        }
        Some(first)
    }

    /// Whether the chain holds fewer than `LOW_WATER` keys.
    pub fn wants_keys(&self) -> (r: bool)
        requires
            self.wf(),
        ensures
            r == (self.keys().len() < LOW_WATER),
    {
        let mut acc: u64 = 0;
        let mut i: usize = self.ranges.len();
        proof {
            assert(self.ranges@.subrange(i as int, i as int) =~= Seq::<(u64, u64)>::empty());
        }
        while i > 0
            invariant
                self.wf(),
                0 <= i <= self.ranges@.len(),
                acc < LOW_WATER,
                acc == chain_keys(self.ranges@.subrange(i as int, self.ranges@.len() as int)).len(),
            decreases i,
        {
            i -= 1;
            let (first, last) = self.ranges[i];
            let ghost sub = self.ranges@.subrange(i as int, self.ranges@.len() as int);
            proof {
                assert(sub.drop_first() =~= self.ranges@.subrange(i + 1, self.ranges@.len() as int));
                assert(sub[0] == (first, last));
                assert(first <= last) by {
                    assert(self.ranges@[i as int].0 <= self.ranges@[i as int].1);
                }
                assert(chain_keys(sub).len() == (last - first + 1) + acc);
            }
            if last - first >= LOW_WATER - 1 - acc {
                proof {
                    lemma_chain_suffix_len(self.ranges@, i as int);
                }
                return false;
            }
            acc = acc + (last - first + 1);
        }
        proof {
            assert(self.ranges@.subrange(0, self.ranges@.len() as int) =~= self.ranges@);
        }
        true
    }

    /// Adds the granted keys `first..=last` after those already held. A grant
    /// with `first > last`, or one that comes while `MAX_RANGES` ranges are
    /// held, is not taken. Returns whether it was taken.
    pub fn accept_keys(&mut self, first: u64, last: u64) -> (taken: bool)
        requires
            old(self).wf(),
        ensures
            final(self).wf(),
            taken == (first <= last && old(self).n_ranges() < MAX_RANGES),
            taken ==> final(self).keys() == old(self).keys() + range_keys(first, last),
            !taken ==> final(self).keys() == old(self).keys(),
            final(self).n_ranges() == old(self).n_ranges() + (if taken { 1nat } else { 0nat }),
    {
        if first > last || self.ranges.len() >= MAX_RANGES {
            return false;
        }
        let ghost before = self.ranges@;
        self.ranges.push((first, last));
        proof {
            assert(self.ranges@ == before.push((first, last)));
            lemma_chain_push(before, (first, last));
        }
        true
    }
}

proof fn lemma_chain_push(ranges: Seq<(u64, u64)>, r: (u64, u64))
    ensures
        chain_keys(ranges.push(r)) == chain_keys(ranges) + range_keys(r.0, r.1),
    decreases ranges.len(),
{
    if ranges.len() == 0 {
        assert(ranges.push(r).drop_first() =~= Seq::<(u64, u64)>::empty());
        assert(chain_keys(ranges.push(r).drop_first()) == Seq::<u64>::empty());
        assert(ranges.push(r)[0] == r);
        assert(chain_keys(ranges.push(r)) =~= range_keys(r.0, r.1));
    } else {
        lemma_chain_push(ranges.drop_first(), r);
        assert(ranges.push(r).drop_first() =~= ranges.drop_first().push(r));
        assert(chain_keys(ranges.push(r)) =~= chain_keys(ranges) + range_keys(r.0, r.1));
    }
}

proof fn lemma_chain_suffix_len(ranges: Seq<(u64, u64)>, i: int)
    requires
        0 <= i <= ranges.len(),
    ensures
        chain_keys(ranges).len() >= chain_keys(ranges.subrange(i, ranges.len() as int)).len(),
    decreases i,
{
    if i > 0 {
        lemma_chain_suffix_len(ranges.drop_first(), i - 1);
        assert(ranges.drop_first().subrange(i - 1, ranges.len() - 1) =~= ranges.subrange(
            i,
            ranges.len() as int,
        ));
    } else {
        assert(ranges.subrange(0, ranges.len() as int) =~= ranges);
    }
}

} // verus!
