//! What holds of fork buckets: adding is idempotent, and of equally heavy
//! members the first is the heaviest.
use crate::bucket::{
    add_all, bucket_add, distinct_keys, has_key, heaviest_index, heaviest_of, is_first_heaviest,
};
use crate::tipset::TipsetView;
use vstd::prelude::*;

verus! {

/// At most one place is that of the first member of greatest weight.
pub proof fn lemma_first_heaviest_unique(s: Seq<TipsetView>, i: int, j: int)
    requires
        is_first_heaviest(s, i),
        is_first_heaviest(s, j),
    ensures
        i == j,
{
    if i < j {
        assert(s[i].weight < s[j].weight);
        assert(s[j].weight <= s[i].weight);
    }
    if j < i {
        assert(s[j].weight < s[i].weight);
        assert(s[i].weight <= s[j].weight);
    }
}

/// A place that is the first of greatest weight is the one that
/// `heaviest_index` names.
pub proof fn lemma_heaviest_index_is(s: Seq<TipsetView>, i: int)
    requires
        is_first_heaviest(s, i),
    ensures
        heaviest_index(s) == i,
        heaviest_of(s) == Some(s[i]),
{
    lemma_first_heaviest_unique(s, i, heaviest_index(s));
}

/// Every non-empty sequence has a first member of greatest weight.
pub proof fn lemma_heaviest_exists(s: Seq<TipsetView>)
    requires
        s.len() > 0,
    ensures
        is_first_heaviest(s, heaviest_index(s)),
    decreases s.len(),
{
    if s.len() == 1 {
        assert(is_first_heaviest(s, 0));
    } else {
        let p = s.drop_last();
        lemma_heaviest_exists(p);
        let i = heaviest_index(p);
        assert(forall|j: int| 0 <= j < p.len() ==> p[j] == s[j]);
        if s.last().weight > s[i].weight {
            let n = s.len() - 1;
            assert forall|j: int| 0 <= j < n implies (#[trigger] s[j]).weight < s[n].weight by {
                assert(p[j].weight <= p[i].weight);
            }
            assert(is_first_heaviest(s, n));
        } else {
            assert forall|j: int| 0 <= j < s.len() implies (#[trigger] s[j]).weight
                <= s[i].weight by {
                if j < p.len() {
                    assert(p[j].weight <= p[i].weight);
                }
            }
            assert forall|j: int| 0 <= j < i implies (#[trigger] s[j]).weight < s[i].weight by {
                assert(p[j].weight < p[i].weight);
            }
            assert(is_first_heaviest(s, i));
        }
    }
}

/// Adding a tipset a second time changes nothing: the bucket, and so the
/// number of its members, stays as the first addition left it.
pub proof fn lemma_add_idempotent(bucket: Seq<TipsetView>, t: TipsetView)
    ensures
        bucket_add(bucket_add(bucket, t), t) == bucket_add(bucket, t),
        bucket_add(bucket_add(bucket, t), t).len() == bucket_add(bucket, t).len(),
        has_key(bucket_add(bucket, t), t.key),
{
    let once = bucket_add(bucket, t);
    if has_key(bucket, t.key) {
    } else {
        assert(once[bucket.len() as int].key == t.key);
    }
}

/// Adding keeps a bucket free of members with the same identity.
pub proof fn lemma_add_keeps_distinct(bucket: Seq<TipsetView>, t: TipsetView)
    requires
        distinct_keys(bucket),
    ensures
        distinct_keys(bucket_add(bucket, t)),
{
    let after = bucket_add(bucket, t);
    if !has_key(bucket, t.key) {
        assert forall|i: int, j: int| 0 <= i < j < after.len() implies (#[trigger] after[i]).key != (
        #[trigger] after[j]).key by {
            if j < bucket.len() {
                assert(bucket[i].key != bucket[j].key);
            } else {
                assert(bucket[i].key != t.key);
            }
        }
    }
}

/// Adding a list of tipsets keeps what the bucket held, in place; every
/// member afterwards was held before or is of the list; every identity of
/// the list is held afterwards; and a bucket free of members with the same
/// identity stays so.
pub proof fn lemma_add_all(bucket: Seq<TipsetView>, ts: Seq<TipsetView>)
    ensures
        add_all(bucket, ts).len() >= bucket.len(),
        forall|i: int| 0 <= i < bucket.len() ==> #[trigger] add_all(bucket, ts)[i] == bucket[i],
        forall|i: int|
            0 <= i < add_all(bucket, ts).len() ==> bucket.contains(#[trigger] add_all(bucket, ts)[i])
                || ts.contains(add_all(bucket, ts)[i]),
        forall|i: int| 0 <= i < ts.len() ==> has_key(add_all(bucket, ts), (#[trigger] ts[i]).key),
        distinct_keys(bucket) ==> distinct_keys(add_all(bucket, ts)),
    decreases ts.len(),
{
    if ts.len() > 0 {
        let rest = ts.drop_last();
        let before = add_all(bucket, rest);
        let after = add_all(bucket, ts);
        lemma_add_all(bucket, rest);
        lemma_add_idempotent(before, ts.last());
        if distinct_keys(bucket) {
            lemma_add_keeps_distinct(before, ts.last());
        }
        assert forall|i: int| 0 <= i < after.len() implies bucket.contains(#[trigger] after[i])
            || ts.contains(after[i]) by {
            if i < before.len() {
                assert(after[i] == before[i]);
                if rest.contains(before[i]) {
                    let k = choose|k: int| 0 <= k < rest.len() && rest[k] == before[i];
                    assert(ts[k] == before[i]);
                }
            } else {
                assert(ts[ts.len() - 1] == after[i]);
            }
        }
        assert forall|i: int| 0 <= i < ts.len() implies has_key(after, (#[trigger] ts[i]).key) by {
            if i < rest.len() {
                assert(rest[i] == ts[i]);
                let k = choose|k: int| 0 <= k < before.len() && (#[trigger] before[k]).key == ts[i].key;
                assert(after[k].key == ts[i].key);
            }
        }
    } else {
        assert forall|i: int| 0 <= i < bucket.len() implies bucket.contains(#[trigger] bucket[i]) by {}
    }
}

/// A tipset that comes behind one at least as heavy does not become the
/// heaviest: of members of equal weight, the one that came first stays.
pub proof fn lemma_later_tie_keeps_heaviest(bucket: Seq<TipsetView>, t: TipsetView)
    requires
        bucket.len() > 0,
        t.weight <= bucket[heaviest_index(bucket)].weight,
    ensures
        heaviest_of(bucket.push(t)) == heaviest_of(bucket),
{
    lemma_heaviest_exists(bucket);
    let i = heaviest_index(bucket);
    let after = bucket.push(t);
    assert forall|j: int| 0 <= j < after.len() implies (#[trigger] after[j]).weight
        <= after[i].weight by {
        if j < bucket.len() {
            assert(bucket[j].weight <= bucket[i].weight);
        }
    }
    assert forall|j: int| 0 <= j < i implies (#[trigger] after[j]).weight < after[i].weight by {
        assert(bucket[j].weight < bucket[i].weight);
    }
    lemma_heaviest_index_is(after, i);
}

/// Of two tipsets of equal weight added to an empty bucket, the first is the
/// heaviest.
pub proof fn lemma_equal_weights_first_wins(a: TipsetView, b: TipsetView)
    requires
        a.weight == b.weight,
    ensures
        heaviest_of(bucket_add(bucket_add(Seq::empty(), a), b)) == Some(a),
{
    let none = Seq::<TipsetView>::empty();
    assert(!has_key(none, a.key));
    let one = bucket_add(none, a);
    assert(one =~= seq![a]);
    assert(is_first_heaviest(one, 0));
    lemma_heaviest_index_is(one, 0);
    if !has_key(one, b.key) {
        lemma_later_tie_keeps_heaviest(one, b);
    }
}

} // verus!
