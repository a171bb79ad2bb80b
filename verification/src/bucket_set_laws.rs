//! What holds of the bucket set: insertion keeps it well-formed, and every
//! inserted tipset ends up in exactly one bucket.
use crate::bucket::{
    bucket_add, distinct_keys, has_key, heaviest_index, heaviest_of, linked, same_chain,
};
use crate::bucket_laws::{
    lemma_add_all, lemma_add_idempotent, lemma_add_keeps_distinct, lemma_heaviest_exists,
};
use crate::bucket_set::{
    apart, heaviest_bucket, holds_key, insert_all, is_first_chain, merged, set_heaviest,
    set_insert, set_wf, tops, unlinked, without, without_related,
};
use crate::tipset::TipsetView;
use vstd::prelude::*;

verus! {

/// Every bucket that is left after the buckets on the chain of `t` were
/// taken out is a bucket of the set that is not on the chain of `t`; every
/// such bucket is left; and buckets that held no linked members still do
/// not.
pub proof fn lemma_without_related(bs: Seq<Seq<TipsetView>>, t: TipsetView)
    ensures
        without_related(bs, t).len() <= bs.len(),
        forall|p: int|
            0 <= p < without_related(bs, t).len() ==> bs.contains(
                #[trigger] without_related(bs, t)[p],
            ) && !same_chain(without_related(bs, t)[p], t),
        forall|k: int|
            0 <= k < bs.len() && !same_chain(#[trigger] bs[k], t) ==> without_related(
                bs,
                t,
            ).contains(bs[k]),
        apart(bs) ==> apart(without_related(bs, t)),
    decreases bs.len(),
{
    if bs.len() > 0 {
        let rest = bs.drop_last();
        let left = without_related(bs, t);
        let n = bs.len() - 1;
        lemma_without_related(rest, t);
        assert forall|k: int| 0 <= k < bs.len() && !same_chain(#[trigger] bs[k], t) implies left.contains(
            bs[k],
        ) by {
            if k < n {
                assert(rest[k] == bs[k]);
                let p = choose|p: int|
                    0 <= p < without_related(rest, t).len() && without_related(rest, t)[p] == bs[k];
                assert(left[p] == bs[k]);
            } else {
                assert(left[left.len() - 1] == bs[k]);
            }
        }
        if apart(bs) {
            assert(apart(rest)) by {
                assert forall|i: int, j: int|
                    0 <= i < rest.len() && 0 <= j < rest.len() && i != j implies unlinked(
                    #[trigger] rest[i],
                    #[trigger] rest[j],
                ) by {
                    assert(unlinked(bs[i], bs[j]));
                }
            }
            let inner = without_related(rest, t);
            assert forall|i: int, j: int|
                0 <= i < left.len() && 0 <= j < left.len() && i != j implies unlinked(
                #[trigger] left[i],
                #[trigger] left[j],
            ) by {
                if i < inner.len() && j < inner.len() {
                    assert(unlinked(inner[i], inner[j]));
                } else if i < inner.len() {
                    assert(rest.contains(inner[i]));
                    let k = choose|k: int| 0 <= k < rest.len() && rest[k] == inner[i];
                    assert(unlinked(bs[k], bs[n]));
                } else {
                    assert(rest.contains(inner[j]));
                    let k = choose|k: int| 0 <= k < rest.len() && rest[k] == inner[j];
                    assert(unlinked(bs[n], bs[k]));
                }
            }
        }
        assert forall|p: int| 0 <= p < left.len() implies bs.contains(#[trigger] left[p])
            && !same_chain(left[p], t) by {
            if p < without_related(rest, t).len() {
                let b = without_related(rest, t)[p];
                assert(rest.contains(b));
                let k = choose|k: int| 0 <= k < rest.len() && rest[k] == b;
                assert(bs[k] == b);
            } else {
                assert(bs[bs.len() - 1] == left[p]);
            }
        }
    }
}

/// The merged bucket holds what the first bucket held, in place; every
/// member of it was held by the first bucket or by a later bucket on the
/// chain of `t`; and a first bucket free of members with the same identity
/// stays so.
pub proof fn lemma_merged(first: Seq<TipsetView>, later: Seq<Seq<TipsetView>>, t: TipsetView)
    ensures
        merged(first, later, t).len() >= first.len(),
        forall|i: int| 0 <= i < first.len() ==> #[trigger] merged(first, later, t)[i] == first[i],
        forall|i: int|
            0 <= i < merged(first, later, t).len() ==> first.contains(
                #[trigger] merged(first, later, t)[i],
            ) || exists|r: int|
                0 <= r < later.len() && same_chain(#[trigger] later[r], t) && later[r].contains(
                    merged(first, later, t)[i],
                ),
        forall|r: int, k: int|
            0 <= r < later.len() && same_chain(later[r], t) && 0 <= k < later[r].len() ==> has_key(
                merged(first, later, t),
                (#[trigger] later[r][k]).key,
            ),
        distinct_keys(first) ==> distinct_keys(merged(first, later, t)),
    decreases later.len(),
{
    if later.len() > 0 {
        let rest = later.drop_last();
        let before = merged(first, rest, t);
        let after = merged(first, later, t);
        lemma_merged(first, rest, t);
        if same_chain(later.last(), t) {
            lemma_add_all(before, later.last());
        }
        assert forall|r: int, k: int|
            0 <= r < later.len() && same_chain(later[r], t) && 0 <= k < later[r].len() implies has_key(
            after,
            (#[trigger] later[r][k]).key,
        ) by {
            if r < rest.len() {
                assert(rest[r] == later[r]);
                assert(has_key(before, rest[r][k].key));
                let m = choose|m: int|
                    0 <= m < before.len() && (#[trigger] before[m]).key == later[r][k].key;
                assert(after[m] == before[m]);
            } else {
                assert(later[r] == later.last());
            }
        }
        assert forall|i: int| 0 <= i < after.len() implies first.contains(#[trigger] after[i])
            || exists|r: int|
            0 <= r < later.len() && same_chain(#[trigger] later[r], t) && later[r].contains(
                after[i],
            ) by {
            let x = after[i];
            if before.contains(x) {
                let k = choose|k: int| 0 <= k < before.len() && before[k] == x;
                if !first.contains(before[k]) {
                    let r = choose|r: int|
                        0 <= r < rest.len() && same_chain(#[trigger] rest[r], t)
                            && rest[r].contains(before[k]);
                    assert(later[r] == rest[r]);
                }
            } else {
                assert(same_chain(later.last(), t));
                assert(later.last().contains(x));
                assert(later[later.len() - 1] == later.last());
            }
        }
    } else {
        assert forall|i: int| 0 <= i < first.len() implies first.contains(#[trigger] first[i]) by {}
    }
}

/// Where some bucket is on the chain of `t`, there is a first such bucket.
pub proof fn lemma_first_chain_exists(bs: Seq<Seq<TipsetView>>, t: TipsetView, k: int)
    requires
        0 <= k < bs.len(),
        same_chain(bs[k], t),
    ensures
        exists|i: int| is_first_chain(bs, t, i),
    decreases k,
{
    if exists|j: int| 0 <= j < k && same_chain(#[trigger] bs[j], t) {
        let j = choose|j: int| 0 <= j < k && same_chain(#[trigger] bs[j], t);
        lemma_first_chain_exists(bs, t, j);
    } else {
        assert(is_first_chain(bs, t, k));
    }
}

/// Every bucket that is left after the buckets that are `b` were taken out
/// is a bucket of the set, and buckets that held no linked members still
/// do not.
pub proof fn lemma_without(bs: Seq<Seq<TipsetView>>, b: Seq<TipsetView>)
    ensures
        without(bs, b).len() <= bs.len(),
        forall|p: int| 0 <= p < without(bs, b).len() ==> bs.contains(#[trigger] without(bs, b)[p]),
        set_wf(bs) ==> set_wf(without(bs, b)),
    decreases bs.len(),
{
    if bs.len() > 0 {
        let rest = bs.drop_last();
        let left = without(bs, b);
        let inner = without(rest, b);
        let n = bs.len() - 1;
        lemma_without(rest, b);
        assert forall|p: int| 0 <= p < left.len() implies bs.contains(#[trigger] left[p]) by {
            if p < inner.len() {
                assert(rest.contains(inner[p]));
                let k = choose|k: int| 0 <= k < rest.len() && rest[k] == inner[p];
                assert(bs[k] == inner[p]);
            } else {
                assert(bs[n] == left[p]);
            }
        }
        if set_wf(bs) {
            assert(set_wf(rest)) by {
                assert forall|i: int| 0 <= i < rest.len() implies (#[trigger] rest[i]).len() > 0
                    && distinct_keys(rest[i]) by {
                    assert(rest[i] == bs[i]);
                }
                assert forall|i: int, j: int|
                    0 <= i < rest.len() && 0 <= j < rest.len() && i != j implies unlinked(
                    #[trigger] rest[i],
                    #[trigger] rest[j],
                ) by {
                    assert(unlinked(bs[i], bs[j]));
                }
            }
            assert forall|i: int| 0 <= i < left.len() implies (#[trigger] left[i]).len() > 0
                && distinct_keys(left[i]) by {
                assert(bs.contains(left[i]));
                let k = choose|k: int| 0 <= k < bs.len() && bs[k] == left[i];
                assert(bs[k].len() > 0);
            }
            assert forall|i: int, j: int|
                0 <= i < left.len() && 0 <= j < left.len() && i != j implies unlinked(
                #[trigger] left[i],
                #[trigger] left[j],
            ) by {
                if i < inner.len() && j < inner.len() {
                    assert(unlinked(inner[i], inner[j]));
                } else if i < inner.len() {
                    assert(rest.contains(inner[i]));
                    let k = choose|k: int| 0 <= k < rest.len() && rest[k] == inner[i];
                    assert(unlinked(bs[k], bs[n]));
                } else {
                    assert(rest.contains(inner[j]));
                    let k = choose|k: int| 0 <= k < rest.len() && rest[k] == inner[j];
                    assert(unlinked(bs[n], bs[k]));
                }
            }
        }
    }
}

/// Taking out the buckets on the chain of `t` keeps the set well-formed.
pub proof fn lemma_without_related_wf(bs: Seq<Seq<TipsetView>>, t: TipsetView)
    requires
        set_wf(bs),
    ensures
        set_wf(without_related(bs, t)),
{
    let left = without_related(bs, t);
    lemma_without_related(bs, t);
    assert forall|i: int| 0 <= i < left.len() implies (#[trigger] left[i]).len() > 0
        && distinct_keys(left[i]) by {
        assert(bs.contains(left[i]));
        let k = choose|k: int| 0 <= k < bs.len() && bs[k] == left[i];
        assert(bs[k].len() > 0);
    }
}

/// The bucket that an insertion merges holds no member that is linked to a
/// member of a bucket that is not on the chain of the inserted tipset.
pub proof fn lemma_merged_unlinked(bs: Seq<Seq<TipsetView>>, t: TipsetView, i: int, c: int)
    requires
        apart(bs),
        is_first_chain(bs, t, i),
        0 <= c < bs.len(),
        !same_chain(bs[c], t),
    ensures
        unlinked(merged(bucket_add(bs[i], t), bs.skip(i + 1), t), bs[c]),
        unlinked(bs[c], merged(bucket_add(bs[i], t), bs.skip(i + 1), t)),
{
    let first = bucket_add(bs[i], t);
    let later = bs.skip(i + 1);
    let m = merged(first, later, t);
    lemma_merged(first, later, t);
    assert forall|x: int, y: int| 0 <= x < m.len() && 0 <= y < bs[c].len() implies !linked(
        #[trigger] m[x],
        #[trigger] bs[c][y],
    ) && !linked(bs[c][y], m[x]) by {
        assert(!linked(t, bs[c][y]));
        if first.contains(m[x]) {
            let k = choose|k: int| 0 <= k < first.len() && first[k] == m[x];
            if k < bs[i].len() {
                assert(first[k] == bs[i][k]);
                assert(unlinked(bs[i], bs[c]));
                assert(unlinked(bs[c], bs[i]));
                assert(!linked(bs[i][k], bs[c][y]));
                assert(!linked(bs[c][y], bs[i][k]));
            } else {
                assert(first[k] == t);
            }
        } else {
            let r = choose|r: int|
                0 <= r < later.len() && same_chain(#[trigger] later[r], t) && later[r].contains(
                    m[x],
                );
            assert(later[r] == bs[r + i + 1]);
            let k = choose|k: int| 0 <= k < later[r].len() && later[r][k] == m[x];
            assert(unlinked(bs[r + i + 1], bs[c]));
            assert(unlinked(bs[c], bs[r + i + 1]));
            assert(!linked(bs[r + i + 1][k], bs[c][y]));
            assert(!linked(bs[c][y], bs[r + i + 1][k]));
        }
    }
}

/// Insertion keeps the set well-formed, adds at most one bucket, and leaves
/// the set non-empty.
pub proof fn lemma_insert_grows(bs: Seq<Seq<TipsetView>>, t: TipsetView)
    ensures
        set_wf(bs) ==> set_wf(set_insert(bs, t)),
        1 <= set_insert(bs, t).len() <= bs.len() + 1,
{
    let after = set_insert(bs, t);
    if exists|i: int| is_first_chain(bs, t, i) {
        let i = choose|i: int| is_first_chain(bs, t, i);
        let later = bs.skip(i + 1);
        let kept = without_related(later, t);
        let first = bucket_add(bs[i], t);
        lemma_without_related(later, t);
        lemma_merged(first, later, t);
        if set_wf(bs) {
            lemma_add_keeps_distinct(bs[i], t);
            assert(apart(later)) by {
                assert forall|a: int, b: int|
                    0 <= a < later.len() && 0 <= b < later.len() && a != b implies unlinked(
                    #[trigger] later[a],
                    #[trigger] later[b],
                ) by {
                    assert(unlinked(bs[a + i + 1], bs[b + i + 1]));
                }
            }
            assert forall|k: int| 0 <= k < after.len() implies (#[trigger] after[k]).len() > 0
                && distinct_keys(after[k]) by {
                if k < i {
                    assert(after[k] == bs[k]);
                } else if k > i {
                    assert(after[k] == kept[k - i - 1]);
                    assert(later.contains(kept[k - i - 1]));
                    let r = choose|r: int| 0 <= r < later.len() && later[r] == kept[k - i - 1];
                    assert(later[r] == bs[r + i + 1]);
                }
            }
            assert forall|p: int, q: int|
                0 <= p < after.len() && 0 <= q < after.len() && p != q implies unlinked(
                #[trigger] after[p],
                #[trigger] after[q],
            ) by {
                lemma_insert_pair(bs, t, i, p, q);
            }
        }
    } else {
        if set_wf(bs) {
            assert forall|k: int| 0 <= k < after.len() implies (#[trigger] after[k]).len() > 0
                && distinct_keys(after[k]) by {
                if k < bs.len() {
                    assert(after[k] == bs[k]);
                }
            }
            assert forall|p: int, q: int|
                0 <= p < after.len() && 0 <= q < after.len() && p != q implies unlinked(
                #[trigger] after[p],
                #[trigger] after[q],
            ) by {
                let n = bs.len() as int;
                if p < n && q < n {
                    assert(unlinked(bs[p], bs[q]));
                } else {
                    let c = if p < n {
                        p
                    } else {
                        q
                    };
                    if same_chain(bs[c], t) {
                        lemma_first_chain_exists(bs, t, c);
                    }
                    assert(after[n] =~= seq![t]);
                    assert forall|y: int| 0 <= y < bs[c].len() implies !linked(
                        t,
                        #[trigger] bs[c][y],
                    ) by {}
                }
            }
        }
    }
}

/// Two buckets at different places of a set after an insertion that merged
/// hold no linked members.
proof fn lemma_insert_pair(bs: Seq<Seq<TipsetView>>, t: TipsetView, i: int, p: int, q: int)
    requires
        apart(bs),
        is_first_chain(bs, t, i),
        exists|k: int| is_first_chain(bs, t, k),
        i == choose|k: int| is_first_chain(bs, t, k),
        0 <= p < set_insert(bs, t).len(),
        0 <= q < set_insert(bs, t).len(),
        p != q,
    ensures
        unlinked(set_insert(bs, t)[p], set_insert(bs, t)[q]),
{
    let after = set_insert(bs, t);
    let later = bs.skip(i + 1);
    let kept = without_related(later, t);
    assert(apart(later)) by {
        assert forall|a: int, b: int|
            0 <= a < later.len() && 0 <= b < later.len() && a != b implies unlinked(
            #[trigger] later[a],
            #[trigger] later[b],
        ) by {
            assert(unlinked(bs[a + i + 1], bs[b + i + 1]));
        }
    }
    lemma_without_related(later, t);
    // the place in `bs` of a bucket of `after` that is not the merged one
    let src_p = if p < i {
        p
    } else if p > i {
        (choose|r: int| 0 <= r < later.len() && later[r] == kept[p - i - 1]) + i + 1
    } else {
        i
    };
    let src_q = if q < i {
        q
    } else if q > i {
        (choose|r: int| 0 <= r < later.len() && later[r] == kept[q - i - 1]) + i + 1
    } else {
        i
    };
    if p > i {
        assert(after[p] == kept[p - i - 1]);
        assert(later.contains(kept[p - i - 1]));
        assert(later[src_p - i - 1] == bs[src_p]);
    }
    if q > i {
        assert(after[q] == kept[q - i - 1]);
        assert(later.contains(kept[q - i - 1]));
        assert(later[src_q - i - 1] == bs[src_q]);
    }
    if p < i {
        assert(after[p] == bs[p]);
    }
    if q < i {
        assert(after[q] == bs[q]);
    }
    if p == i {
        lemma_merged_unlinked(bs, t, i, src_q);
    } else if q == i {
        lemma_merged_unlinked(bs, t, i, src_p);
    } else if p > i && q > i {
        assert(unlinked(kept[p - i - 1], kept[q - i - 1]));
    } else {
        assert(src_p != src_q);
        assert(unlinked(bs[src_p], bs[src_q]));
    }
}

/// Inserting a list of tipsets keeps the set well-formed, and leaves it
/// non-empty where the list is not empty.
pub proof fn lemma_insert_all_grows(bs: Seq<Seq<TipsetView>>, ts: Seq<TipsetView>)
    ensures
        set_wf(bs) ==> set_wf(insert_all(bs, ts)),
        ts.len() > 0 ==> insert_all(bs, ts).len() >= 1,
    decreases ts.len(),
{
    if ts.len() > 0 {
        lemma_insert_all_grows(bs, ts.drop_last());
        lemma_insert_grows(insert_all(bs, ts.drop_last()), ts.last());
    }
}

/// After an insertion some bucket holds a member with the identity of the
/// inserted tipset; the buckets before it are as they were.
pub proof fn lemma_insert_holds(bs: Seq<Seq<TipsetView>>, t: TipsetView) -> (at: int)
    ensures
        0 <= at < set_insert(bs, t).len(),
        at <= bs.len(),
        has_key(set_insert(bs, t)[at], t.key),
        forall|j: int| 0 <= j < at ==> #[trigger] set_insert(bs, t)[j] == bs[j],
        at < bs.len() ==> is_first_chain(bs, t, at),
        at == bs.len() ==> set_insert(bs, t) == bs.push(seq![t]),
{
    let after = set_insert(bs, t);
    if exists|i: int| is_first_chain(bs, t, i) {
        let i = choose|i: int| is_first_chain(bs, t, i);
        let first = bucket_add(bs[i], t);
        lemma_add_idempotent(bs[i], t);
        lemma_merged(first, bs.skip(i + 1), t);
        let k = choose|k: int| 0 <= k < first.len() && (#[trigger] first[k]).key == t.key;
        assert(after[i][k].key == t.key);
        i
    } else {
        let n = bs.len() as int;
        assert(after[n] =~= seq![t]);
        assert(after[n][0].key == t.key);
        assert(has_key(after[n], t.key));
        n
    }
}

/// In a set whose buckets hold no linked members, an identity is held by at
/// most one bucket.
pub proof fn lemma_key_in_one_bucket(bs: Seq<Seq<TipsetView>>, key: Set<Seq<u8>>, i: int, j: int)
    requires
        apart(bs),
        0 <= i < bs.len(),
        0 <= j < bs.len(),
        has_key(bs[i], key),
        has_key(bs[j], key),
    ensures
        i == j,
{
    if i != j {
        let x = choose|x: int| 0 <= x < bs[i].len() && (#[trigger] bs[i][x]).key == key;
        let y = choose|y: int| 0 <= y < bs[j].len() && (#[trigger] bs[j][y]).key == key;
        assert(unlinked(bs[i], bs[j]));
        assert(linked(bs[i][x], bs[j][y]));
    }
}

/// An insertion loses no identity: what some bucket held before, some
/// bucket holds afterwards.
pub proof fn lemma_insert_keeps_keys(bs: Seq<Seq<TipsetView>>, t: TipsetView, key: Set<Seq<u8>>)
    requires
        holds_key(bs, key),
    ensures
        holds_key(set_insert(bs, t), key),
{
    let after = set_insert(bs, t);
    let c = choose|c: int| 0 <= c < bs.len() && has_key(#[trigger] bs[c], key);
    let x = choose|x: int| 0 <= x < bs[c].len() && (#[trigger] bs[c][x]).key == key;
    if exists|i: int| is_first_chain(bs, t, i) {
        let i = choose|i: int| is_first_chain(bs, t, i);
        let later = bs.skip(i + 1);
        let first = bucket_add(bs[i], t);
        let m = merged(first, later, t);
        lemma_merged(first, later, t);
        lemma_without_related(later, t);
        assert(after[i] == m);
        if c < i {
            assert(after[c] == bs[c]);
        } else if c == i {
            assert(first[x] == bs[i][x]);
            assert(m[x].key == key);
            assert(has_key(after[i], key));
        } else {
            assert(later[c - i - 1] == bs[c]);
            if same_chain(bs[c], t) {
                assert(has_key(m, later[c - i - 1][x].key));
                assert(has_key(after[i], key));
            } else {
                let kept = without_related(later, t);
                assert(kept.contains(later[c - i - 1]));
                let p = choose|p: int| 0 <= p < kept.len() && kept[p] == bs[c];
                assert(after[p + i + 1] == bs[c]);
                assert(has_key(after[p + i + 1], key));
            }
        }
    } else {
        assert(after[c] == bs[c]);
    }
}

/// In a well-formed set every inserted tipset ends up in exactly one
/// bucket: after the insertion one bucket, and no other, holds a member
/// with its identity.
pub proof fn lemma_inserted_in_one_bucket(bs: Seq<Seq<TipsetView>>, t: TipsetView) -> (at: int)
    requires
        set_wf(bs),
    ensures
        set_wf(set_insert(bs, t)),
        0 <= at < set_insert(bs, t).len(),
        forall|j: int|
            0 <= j < set_insert(bs, t).len() ==> (has_key(#[trigger] set_insert(bs, t)[j], t.key)
                <==> j == at),
{
    let after = set_insert(bs, t);
    lemma_insert_grows(bs, t);
    let at = lemma_insert_holds(bs, t);
    assert forall|j: int| 0 <= j < after.len() implies (has_key(#[trigger] after[j], t.key) <==> j
        == at) by {
        if has_key(after[j], t.key) {
            lemma_key_in_one_bucket(after, t.key, j, at);
        }
    }
    at
}

/// The heaviest of a set is the heaviest member of one of its buckets, and
/// no member of any bucket is heavier.
pub proof fn lemma_set_heaviest_is_max(bs: Seq<Seq<TipsetView>>)
    requires
        set_wf(bs),
        bs.len() > 0,
    ensures
        0 <= heaviest_bucket(bs) < bs.len(),
        set_heaviest(bs) == heaviest_of(bs[heaviest_bucket(bs)]),
        forall|i: int|
            0 <= i < bs.len() ==> (#[trigger] heaviest_of(bs[i]))->0.weight <= set_heaviest(
                bs,
            )->0.weight,
        forall|i: int, k: int|
            0 <= i < bs.len() && 0 <= k < bs[i].len() ==> (#[trigger] bs[i][k]).weight
                <= set_heaviest(bs)->0.weight,
{
    lemma_heaviest_exists(tops(bs));
    let at = heaviest_bucket(bs);
    assert(bs[at].len() > 0);
    assert forall|i: int| 0 <= i < bs.len() implies (#[trigger] heaviest_of(bs[i]))->0.weight
        <= set_heaviest(bs)->0.weight by {
        assert(bs[i].len() > 0);
        assert(tops(bs)[i].weight <= tops(bs)[at].weight);
    }
    assert forall|i: int, k: int| 0 <= i < bs.len() && 0 <= k < bs[i].len() implies (
    #[trigger] bs[i][k]).weight <= set_heaviest(bs)->0.weight by {
        lemma_heaviest_exists(bs[i]);
        assert(bs[i][k].weight <= bs[i][heaviest_index(bs[i])].weight);
        assert(tops(bs)[i].weight <= tops(bs)[at].weight);
    }
}

} // verus!
