//! Fork buckets: groups of tipsets believed to lie on one candidate chain.
use crate::bucket_laws::{lemma_add_keeps_distinct, lemma_heaviest_index_is};
use crate::tipset::{Tipset, TipsetView};
use vstd::prelude::*;

verus! {

/// The views of a list of tipsets, in order.
pub open spec fn views_of(tips: Seq<Tipset>) -> Seq<TipsetView> {
    Seq::new(tips.len(), |i: int| tips[i]@)
}

/// The view of an optional tipset.
pub open spec fn option_view(t: Option<Tipset>) -> Option<TipsetView> {
    match t {
        Some(t) => Some(t@),
        None => None,
    }
}

/// One-hop linkage: the two tipsets are the same, or one is the parent of
/// the other.
pub open spec fn linked(a: TipsetView, b: TipsetView) -> bool {
    a.key == b.key || a.key == b.parents || a.parents == b.key
}

/// Some member of the bucket is linked to `t`.
pub open spec fn same_chain(bucket: Seq<TipsetView>, t: TipsetView) -> bool {
    exists|i: int| 0 <= i < bucket.len() && linked(t, #[trigger] bucket[i])
}

/// Some member of the bucket has the identity `key`.
pub open spec fn has_key(bucket: Seq<TipsetView>, key: Set<Seq<u8>>) -> bool {
    exists|i: int| 0 <= i < bucket.len() && (#[trigger] bucket[i]).key == key
}

/// No two members of the bucket have the same identity.
pub open spec fn distinct_keys(bucket: Seq<TipsetView>) -> bool {
    forall|i: int, j: int|
        0 <= i < j < bucket.len() ==> (#[trigger] bucket[i]).key != (#[trigger] bucket[j]).key
}

/// The bucket after `t` was added: `t` goes to the end unless a member
/// already has its identity.
pub open spec fn bucket_add(bucket: Seq<TipsetView>, t: TipsetView) -> Seq<TipsetView> {
    if has_key(bucket, t.key) {
        bucket
    } else {
        bucket.push(t)
    }
}

/// The bucket after the tipsets of `ts` were added, first to last.
pub open spec fn add_all(bucket: Seq<TipsetView>, ts: Seq<TipsetView>) -> Seq<TipsetView>
    decreases ts.len(),
{
    if ts.len() == 0 {
        bucket
    } else {
        bucket_add(add_all(bucket, ts.drop_last()), ts.last())
    }
}

/// `i` is the place of the first member of greatest weight.
pub open spec fn is_first_heaviest(s: Seq<TipsetView>, i: int) -> bool {
    &&& 0 <= i < s.len()
    &&& forall|j: int| 0 <= j < s.len() ==> (#[trigger] s[j]).weight <= s[i].weight
    &&& forall|j: int| 0 <= j < i ==> (#[trigger] s[j]).weight < s[i].weight
}

/// The place of the first member of greatest weight.
pub open spec fn heaviest_index(s: Seq<TipsetView>) -> int {
    choose|i: int| is_first_heaviest(s, i)
}

/// The first member of greatest weight, if there is any member.
pub open spec fn heaviest_of(s: Seq<TipsetView>) -> Option<TipsetView> {
    if s.len() == 0 {
        None
    } else {
        Some(s[heaviest_index(s)])
    }
}

/// A bucket of tipsets to sync: tipsets believed to lie on one fork.
#[derive(Debug)]
pub struct SyncBucket {
    tips: Vec<Tipset>,
}

impl View for SyncBucket {
    type V = Seq<TipsetView>;

    closed spec fn view(&self) -> Seq<TipsetView> {
        views_of(self.tips@)
    }
}

impl SyncBucket {
    /// A bucket that holds the given tipsets, in their order.
    pub fn new(tips: Vec<Tipset>) -> (r: SyncBucket)
        ensures
            r@ == views_of(tips@),
    {
        SyncBucket { tips }
    }

    /// The number of tipsets in the bucket.
    pub fn len(&self) -> (r: usize)
        ensures
            r == self@.len(),
    {
        self.tips.len()
    }

    /// The member at place `i`; `None` where the bucket has no such place.
    pub fn get(&self, i: usize) -> (r: Option<&Tipset>)
        ensures
            match r {
                Some(t) => i < self@.len() && t@ == self@[i as int],
                None => i >= self@.len(),
            },
    {
        if i < self.tips.len() {
            Some(&self.tips[i])
        } else {
            None
        }
    }

    /// The first member of greatest weight; `None` for an empty bucket.
    pub fn heaviest_tipset(&self) -> (r: Option<Tipset>)
        ensures
            option_view(r) == heaviest_of(self@),
    {
        if self.tips.len() == 0 {
            return None;
        }
        let mut best: usize = 0;
        let mut i: usize = 1;
        while i < self.tips.len()
            invariant
                1 <= i <= self.tips.len(),
                best < i,
                forall|j: int| 0 <= j < i ==> (#[trigger] self@[j]).weight <= self@[best as int].weight,
                forall|j: int| 0 <= j < best ==> (#[trigger] self@[j]).weight < self@[best as int].weight,
            decreases self.tips.len() - i,
        {
            if self.tips[i].heavier_than(&self.tips[best]) {
                best = i;
            }
            i += 1;
        }
        proof {
            lemma_heaviest_index_is(self@, best as int);
        }
        Some(self.tips[best].clone())
    }

    /// Tells whether `ts` is, by one hop, on the chain of this bucket: it has
    /// the identity of a member, is the parent of one, or extends one.
    pub fn same_chain_as(&self, ts: &Tipset) -> (r: bool)
        ensures
            r == same_chain(self@, ts@),
    {
        let mut i: usize = 0;
        while i < self.tips.len()
            invariant
                i <= self.tips.len(),
                forall|j: int| 0 <= j < i ==> !linked(ts@, #[trigger] self@[j]),
            decreases self.tips.len() - i,
        {
            let t = &self.tips[i];
            if ts.key().equals(t.key()) || ts.key().equals(t.parents()) || ts.parents().equals(
                t.key(),
            ) {
                assert(linked(ts@, self@[i as int]));
                return true;
            }
            i += 1;
        }
        false
    }

    /// Tells whether a member has the identity of `ts`.
    pub fn contains_key(&self, ts: &Tipset) -> (r: bool)
        ensures
            r == has_key(self@, ts@.key),
    {
        let mut i: usize = 0;
        while i < self.tips.len()
            invariant
                i <= self.tips.len(),
                forall|j: int| 0 <= j < i ==> (#[trigger] self@[j]).key != ts@.key,
            decreases self.tips.len() - i,
        {
            if self.tips[i].key().equals(ts.key()) {
                assert(self@[i as int].key == ts@.key);
                return true;
            }
            i += 1;
        }
        false
    }

    /// Adds `ts` unless a member already has its identity.
    pub fn add(&mut self, ts: Tipset)
        ensures
            final(self)@ == bucket_add(old(self)@, ts@),
            distinct_keys(old(self)@) ==> distinct_keys(final(self)@),
    {
        proof {
            if distinct_keys(self@) {
                lemma_add_keeps_distinct(self@, ts@);
            }
        }
        if !self.contains_key(&ts) {
            self.tips.push(ts);
            assert(self@ =~= old(self)@.push(ts@));
        }
    }

    /// Adds the members of `other`, first to last, each unless a member
    /// already has its identity.
    pub fn absorb(&mut self, other: &SyncBucket)
        ensures
            final(self)@ == add_all(old(self)@, other@),
            distinct_keys(old(self)@) ==> distinct_keys(final(self)@),
    {
        let mut i: usize = 0;
        while i < other.tips.len()
            invariant
                i <= other.tips.len(),
                self@ == add_all(old(self)@, other@.take(i as int)),
                distinct_keys(old(self)@) ==> distinct_keys(self@),
            decreases other.tips.len() - i,
        {
            assert(other@.take(i as int + 1).drop_last() =~= other@.take(i as int));
            self.add(other.tips[i].clone());
            i += 1;
        }
        assert(other@.take(other@.len() as int) =~= other@);
    }

    /// Tells whether the bucket holds no tipset.
    pub fn _is_empty(&self) -> (r: bool)
        ensures
            r == (self@.len() == 0),
    {
        self.tips.len() == 0
    }

    /// Tells whether the two buckets hold the same tipsets in the same order.
    pub fn same_as(&self, other: &SyncBucket) -> (r: bool)
        ensures
            r == (self@ == other@),
    {
        if self.tips.len() != other.tips.len() {
            assert(self@.len() != other@.len());
            return false;
        }
        let mut i: usize = 0;
        while i < self.tips.len()
            invariant
                i <= self.tips.len(),
                self.tips.len() == other.tips.len(),
                forall|j: int| 0 <= j < i ==> self@[j] == other@[j],
            decreases self.tips.len() - i,
        {
            if !self.tips[i].same_as(&other.tips[i]) {
                assert(self@[i as int] != other@[i as int]);
                return false;
            }
            i += 1;
        }
        assert(self@ =~= other@);
        true
    }
}

impl Clone for SyncBucket {
    fn clone(&self) -> (r: SyncBucket)
        ensures
            r@ == self@,
    {
        let mut out: Vec<Tipset> = Vec::new();
        let mut i: usize = 0;
        while i < self.tips.len()
            invariant
                i <= self.tips.len(),
                out.len() == i,
                forall|j: int| 0 <= j < i ==> #[trigger] out@[j]@ == self.tips@[j]@,
            decreases self.tips.len() - i,
        {
            out.push(self.tips[i].clone());
            i += 1;
        }
        let r = SyncBucket { tips: out };
        assert(r@ =~= self@);
        r
    }
}

impl Default for SyncBucket {
    fn default() -> (r: SyncBucket)
        ensures
            r@ == Seq::<TipsetView>::empty(),
    {
        let r = SyncBucket { tips: Vec::new() };
        assert(r@ =~= Seq::<TipsetView>::empty());
        r
    }
}

} // verus!
