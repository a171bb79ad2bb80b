//! The set of open fork buckets: insertion with grouping, and extraction of
//! the heaviest candidate.
use crate::bucket::{
    add_all, bucket_add, distinct_keys, has_key, heaviest_index, heaviest_of, is_first_heaviest,
    linked, option_view, same_chain, SyncBucket,
};
use crate::bucket_laws::lemma_heaviest_index_is;
use crate::bucket_set_laws::{lemma_insert_grows, lemma_without, lemma_without_related_wf};
use crate::tipset::{Tipset, TipsetView};
use vstd::prelude::*;

verus! {

/// The views of a list of buckets, in order.
pub open spec fn bucket_views(buckets: Seq<SyncBucket>) -> Seq<Seq<TipsetView>> {
    Seq::new(buckets.len(), |i: int| buckets[i]@)
}

/// No member of the one bucket is linked to a member of the other.
pub open spec fn unlinked(a: Seq<TipsetView>, b: Seq<TipsetView>) -> bool {
    forall|x: int, y: int|
        0 <= x < a.len() && 0 <= y < b.len() ==> !linked(#[trigger] a[x], #[trigger] b[y])
}

/// No two buckets of the set hold linked members.
pub open spec fn apart(bs: Seq<Seq<TipsetView>>) -> bool {
    forall|i: int, j: int|
        0 <= i < bs.len() && 0 <= j < bs.len() && i != j ==> unlinked(
            #[trigger] bs[i],
            #[trigger] bs[j],
        )
}

/// Some bucket of the set holds a member with the identity `key`.
pub open spec fn holds_key(bs: Seq<Seq<TipsetView>>, key: Set<Seq<u8>>) -> bool {
    exists|i: int| 0 <= i < bs.len() && has_key(#[trigger] bs[i], key)
}

/// No bucket of the set is empty, none holds two members with the same
/// identity, and no two buckets hold linked members.
pub open spec fn set_wf(bs: Seq<Seq<TipsetView>>) -> bool {
    &&& forall|i: int| 0 <= i < bs.len() ==> (#[trigger] bs[i]).len() > 0 && distinct_keys(bs[i])
    &&& apart(bs)
}

/// `i` is the place of the first bucket that is on the chain of `t`.
pub open spec fn is_first_chain(bs: Seq<Seq<TipsetView>>, t: TipsetView, i: int) -> bool {
    &&& 0 <= i < bs.len()
    &&& same_chain(bs[i], t)
    &&& forall|j: int| 0 <= j < i ==> !same_chain(#[trigger] bs[j], t)
}

/// The bucket `first` after it took in, bucket by bucket, the members of
/// those buckets of `later` that are on the chain of `t`.
pub open spec fn merged(first: Seq<TipsetView>, later: Seq<Seq<TipsetView>>, t: TipsetView) -> Seq<
    TipsetView,
>
    decreases later.len(),
{
    if later.len() == 0 {
        first
    } else if same_chain(later.last(), t) {
        add_all(merged(first, later.drop_last(), t), later.last())
    } else {
        merged(first, later.drop_last(), t)
    }
}

/// The set after `t` was inserted. `t` is added to the first bucket that is
/// on its chain; the later buckets that are on its chain too are merged
/// into that bucket and leave the set. Where no bucket is on the chain of
/// `t`, it makes a new bucket at the end.
pub open spec fn set_insert(bs: Seq<Seq<TipsetView>>, t: TipsetView) -> Seq<Seq<TipsetView>> {
    if exists|i: int| is_first_chain(bs, t, i) {
        let i = choose|i: int| is_first_chain(bs, t, i);
        let later = bs.skip(i + 1);
        bs.take(i).push(merged(bucket_add(bs[i], t), later, t)) + without_related(later, t)
    } else {
        bs.push(seq![t])
    }
}

/// The bucket set after the tipsets of `ts` were inserted, first to last.
pub open spec fn insert_all(bs: Seq<Seq<TipsetView>>, ts: Seq<TipsetView>) -> Seq<Seq<TipsetView>>
    decreases ts.len(),
{
    if ts.len() == 0 {
        bs
    } else {
        set_insert(insert_all(bs, ts.drop_last()), ts.last())
    }
}

/// The heaviest member of each bucket, bucket by bucket.
pub open spec fn tops(bs: Seq<Seq<TipsetView>>) -> Seq<TipsetView> {
    Seq::new(bs.len(), |i: int| bs[i][heaviest_index(bs[i])])
}

/// The heaviest among the buckets' heaviest members; of equally heavy ones,
/// that of the earliest bucket.
pub open spec fn set_heaviest(bs: Seq<Seq<TipsetView>>) -> Option<TipsetView> {
    heaviest_of(tops(bs))
}

/// The place of the bucket whose heaviest member is the heaviest of the set.
pub open spec fn heaviest_bucket(bs: Seq<Seq<TipsetView>>) -> int {
    heaviest_index(tops(bs))
}

/// The set without the buckets that are `b`.
pub open spec fn without(bs: Seq<Seq<TipsetView>>, b: Seq<TipsetView>) -> Seq<Seq<TipsetView>>
    decreases bs.len(),
{
    if bs.len() == 0 {
        bs
    } else if bs.last() == b {
        without(bs.drop_last(), b)
    } else {
        without(bs.drop_last(), b).push(bs.last())
    }
}

/// The set without the buckets that are on the chain of `t`.
pub open spec fn without_related(bs: Seq<Seq<TipsetView>>, t: TipsetView) -> Seq<Seq<TipsetView>>
    decreases bs.len(),
{
    if bs.len() == 0 {
        bs
    } else if same_chain(bs.last(), t) {
        without_related(bs.drop_last(), t)
    } else {
        without_related(bs.drop_last(), t).push(bs.last())
    }
}

/// Set of tipset buckets.
#[derive(Debug)]
pub struct SyncBucketSet {
    buckets: Vec<SyncBucket>,
}

impl View for SyncBucketSet {
    type V = Seq<Seq<TipsetView>>;

    closed spec fn view(&self) -> Seq<Seq<TipsetView>> {
        bucket_views(self.buckets@)
    }
}

impl Default for SyncBucketSet {
    fn default() -> (r: SyncBucketSet)
        ensures
            r@ == Seq::<Seq<TipsetView>>::empty(),
            r.wf(),
    {
        let r = SyncBucketSet { buckets: Vec::new() };
        assert(r@ =~= Seq::<Seq<TipsetView>>::empty());
        r
    }
}

impl SyncBucketSet {
    /// Well-formedness: no bucket is empty, none holds two members with the
    /// same identity, and no two buckets hold linked members.
    pub open spec fn wf(&self) -> bool {
        set_wf(self@)
    }

    /// The place of the first bucket whose heaviest member is the heaviest
    /// of the set, with that member.
    fn find_heaviest(&self) -> (r: Option<(usize, Tipset)>)
        requires
            self.wf(),
        ensures
            match r {
                None => self@.len() == 0,
                Some((i, t)) => is_first_heaviest(tops(self@), i as int) && t@ == tops(self@)[i as int],
            },
    {
        if self.buckets.len() == 0 {
            return None;
        }
        assert(self@[0].len() > 0);
        let mut best: Tipset = match self.buckets[0].heaviest_tipset() {
            Some(t) => t,
            None => { return None; },
        };
        let mut best_at: usize = 0;
        let mut i: usize = 1;
        while i < self.buckets.len()
            invariant
                self.wf(),
                1 <= i <= self.buckets.len(),
                best_at < i,
                best@ == tops(self@)[best_at as int],
                forall|j: int| 0 <= j < i ==> (#[trigger] tops(self@)[j]).weight <= best@.weight,
                forall|j: int| 0 <= j < best_at ==> (#[trigger] tops(self@)[j]).weight < best@.weight,
            decreases self.buckets.len() - i,
        {
            assert(self@[i as int].len() > 0);
            match self.buckets[i].heaviest_tipset() {
                Some(t) => {
                    if t.heavier_than(&best) {
                        best = t;
                        best_at = i;
                    }
                },
                None => {},
            }
            i += 1;
        }
        Some((best_at, best))
    }

    /// The place of the first bucket that is on the chain of `tipset`.
    fn first_chain(&self, tipset: &Tipset) -> (r: Option<usize>)
        ensures
            match r {
                Some(i) => is_first_chain(self@, tipset@, i as int),
                None => !exists|i: int| is_first_chain(self@, tipset@, i),
            },
    {
        let mut i: usize = 0;
        while i < self.buckets.len()
            invariant
                i <= self.buckets.len(),
                forall|j: int| 0 <= j < i ==> !same_chain(#[trigger] self@[j], tipset@),
            decreases self.buckets.len() - i,
        {
            if self.buckets[i].same_chain_as(tipset) {
                return Some(i);
            }
            i += 1;
        }
        None
    }

    /// Inserts `tipset` into the first bucket that is on its chain, and
    /// merges into that bucket the later buckets that are on its chain too;
    /// where no bucket is on its chain, the tipset makes a new bucket.
    pub fn insert(&mut self, tipset: Tipset)
        ensures
            final(self)@ == set_insert(old(self)@, tipset@),
            old(self).wf() ==> final(self).wf(),
    {
        proof {
            lemma_insert_grows(self@, tipset@);
        }
        match self.first_chain(&tipset) {
            None => {
                let ghost t = tipset@;
                let mut tips: Vec<Tipset> = Vec::new();
                tips.push(tipset);
                let bucket = SyncBucket::new(tips);
                assert(bucket@ =~= seq![t]);
                self.buckets.push(bucket);
                assert(self@ =~= old(self)@.push(seq![t]));
            },
            Some(i) => {
                let ghost at = choose|k: int| is_first_chain(old(self)@, tipset@, k);
                assert(at == i);
                assert(i < self.buckets.len());
                let ghost later = self@.skip(i as int + 1);
                let mut target = self.buckets[i].clone();
                target.add(tipset.clone());
                let ghost first = target@;
                let mut kept: Vec<SyncBucket> = Vec::new();
                let mut j: usize = i + 1;
                while j < self.buckets.len()
                    invariant
                        i < j <= self.buckets.len(),
                        *self == *old(self),
                        later == self@.skip(i as int + 1),
                        target@ == merged(first, later.take(j - i - 1), tipset@),
                        bucket_views(kept@) == without_related(later.take(j - i - 1), tipset@),
                    decreases self.buckets.len() - j,
                {
                    assert(later.take(j - i).drop_last() =~= later.take(j - i - 1));
                    assert(later.take(j - i).last() == self@[j as int]);
                    if self.buckets[j].same_chain_as(&tipset) {
                        target.absorb(&self.buckets[j]);
                    } else {
                        let ghost before = bucket_views(kept@);
                        kept.push(self.buckets[j].clone());
                        assert(bucket_views(kept@) =~= before.push(self@[j as int]));
                    }
                    j += 1;
                }
                assert(later.take(later.len() as int) =~= later);
                self.buckets.truncate(i);
                self.buckets.push(target);
                self.buckets.append(&mut kept);
                assert(self@ =~= old(self)@.take(i as int).push(merged(first, later, tipset@))
                    + without_related(later, tipset@));
            },
        }
    }

    /// Removes the bucket whose heaviest member is the heaviest of the set,
    /// and returns it; of equally heavy ones, the earliest bucket.
    pub fn _pop(&mut self) -> (r: Option<SyncBucket>)
        requires
            old(self).wf(),
        ensures
            final(self).wf(),
            match r {
                None => old(self)@.len() == 0 && final(self)@ == old(self)@,
                Some(b) => old(self)@.len() > 0 && b@ == old(self)@[heaviest_bucket(old(self)@)]
                    && final(self)@ == old(self)@.remove(heaviest_bucket(old(self)@)),
            },
    {
        match self.find_heaviest() {
            None => None,
            Some((at, _)) => {
                proof {
                    lemma_heaviest_index_is(tops(self@), at as int);
                }
                let bucket = self.buckets.remove(at);
                assert(self@ =~= old(self)@.remove(at as int));
                Some(bucket)
            },
        }
    }

    /// The heaviest among the heaviest members of the buckets; `None` exactly
    /// when the set holds no bucket.
    pub fn heaviest(&self) -> (r: Option<Tipset>)
        requires
            self.wf(),
        ensures
            option_view(r) == set_heaviest(self@),
            r is None <==> self@.len() == 0,
    {
        match self.find_heaviest() {
            None => None,
            Some((at, t)) => {
                proof {
                    lemma_heaviest_index_is(tops(self@), at as int);
                }
                Some(t)
            },
        }
    }

    /// Removes every bucket that holds the same tipsets as `ts_bucket`.
    pub fn _remove(&mut self, ts_bucket: &SyncBucket)
        ensures
            final(self)@ == without(old(self)@, ts_bucket@),
            old(self).wf() ==> final(self).wf(),
    {
        let mut kept: Vec<SyncBucket> = Vec::new();
        let mut i: usize = 0;
        while i < self.buckets.len()
            invariant
                i <= self.buckets.len(),
                *self == *old(self),
                bucket_views(kept@) == without(self@.take(i as int), ts_bucket@),
            decreases self.buckets.len() - i,
        {
            assert(self@.take(i as int + 1).drop_last() =~= self@.take(i as int));
            if !self.buckets[i].same_as(ts_bucket) {
                let ghost before = bucket_views(kept@);
                kept.push(self.buckets[i].clone());
                assert(bucket_views(kept@) =~= before.push(self@[i as int]));
            }
            i += 1;
        }
        assert(self@.take(self@.len() as int) =~= self@);
        proof {
            lemma_without(self@, ts_bucket@);
        }
        self.buckets = kept;
    }

    /// Removes every bucket that is on the chain of `ts`.
    pub fn _pop_related(&mut self, ts: Tipset)
        ensures
            final(self)@ == without_related(old(self)@, ts@),
            old(self).wf() ==> final(self).wf(),
    {
        let mut kept: Vec<SyncBucket> = Vec::new();
        let mut i: usize = 0;
        while i < self.buckets.len()
            invariant
                i <= self.buckets.len(),
                *self == *old(self),
                bucket_views(kept@) == without_related(self@.take(i as int), ts@),
            decreases self.buckets.len() - i,
        {
            assert(self@.take(i as int + 1).drop_last() =~= self@.take(i as int));
            if !self.buckets[i].same_chain_as(&ts) {
                let ghost before = bucket_views(kept@);
                kept.push(self.buckets[i].clone());
                assert(bucket_views(kept@) =~= before.push(self@[i as int]));
            }
            i += 1;
        }
        assert(self@.take(self@.len() as int) =~= self@);
        proof {
            if self.wf() {
                lemma_without_related_wf(self@, ts@);
            }
        }
        self.buckets = kept;
    }

    /// The buckets of the set, in order.
    pub fn buckets(&self) -> (r: &Vec<SyncBucket>)
        ensures
            bucket_views(r@) == self@,
    {
        &self.buckets
    }

    /// The number of buckets.
    pub fn len(&self) -> (r: usize)
        ensures
            r == self@.len(),
    {
        self.buckets.len()
    }

    /// Tells whether the set holds no bucket.
    pub fn _is_empty(&self) -> (r: bool)
        ensures
            r == (self@.len() == 0),
    {
        self.buckets.len() == 0
    }
}

impl Clone for SyncBucketSet {
    fn clone(&self) -> (r: SyncBucketSet)
        ensures
            r@ == self@,
    {
        let mut out: Vec<SyncBucket> = Vec::new();
        let mut i: usize = 0;
        while i < self.buckets.len()
            invariant
                i <= self.buckets.len(),
                out.len() == i,
                forall|j: int| 0 <= j < i ==> #[trigger] out@[j]@ == self.buckets@[j]@,
            decreases self.buckets.len() - i,
        {
            out.push(self.buckets[i].clone());
            i += 1;
        }
        let r = SyncBucketSet { buckets: out };
        assert(r@ =~= self@);
        r
    }
}

} // verus!
