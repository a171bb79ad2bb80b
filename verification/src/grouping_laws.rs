//! Grouping does not depend on the order of arrival: the buckets that two
//! insertions leave hold the same tipsets together, whichever comes first.
use crate::bucket::{bucket_add, has_key, linked, same_chain};
use crate::bucket_laws::lemma_add_idempotent;
use crate::bucket_set::{
    insert_all, is_first_chain, merged, set_insert, set_wf, unlinked, without_related,
};
use crate::bucket_set_laws::{
    lemma_first_chain_exists, lemma_insert_all_grows, lemma_insert_grows, lemma_merged,
    lemma_without_related,
};
use crate::tipset::TipsetView;
use vstd::prelude::*;

verus! {

/// Some bucket of the set holds both `x` and `y`.
pub open spec fn together(bs: Seq<Seq<TipsetView>>, x: TipsetView, y: TipsetView) -> bool {
    exists|i: int| 0 <= i < bs.len() && (#[trigger] bs[i]).contains(x) && bs[i].contains(y)
}

/// `x` is held by a bucket that is on the chain of `t`.
pub open spec fn touches(bs: Seq<Seq<TipsetView>>, t: TipsetView, x: TipsetView) -> bool {
    exists|i: int| 0 <= i < bs.len() && (#[trigger] bs[i]).contains(x) && same_chain(bs[i], t)
}

/// `x` is `t`, or is held by a bucket that is on the chain of `t`: the
/// insertion of `t` brings `x` into the bucket of `t`.
pub open spec fn joined(bs: Seq<Seq<TipsetView>>, t: TipsetView, x: TipsetView) -> bool {
    x == t || touches(bs, t, x)
}

/// The identity of `t` stands for `t` alone: a member of the set that has
/// it is `t`.
pub open spec fn known(bs: Seq<Seq<TipsetView>>, t: TipsetView) -> bool {
    forall|i: int, k: int|
        0 <= i < bs.len() && 0 <= k < bs[i].len() && (#[trigger] bs[i][k]).key == t.key ==> bs[i][k]
            == t
}

/// The two sets hold the same tipsets together.
pub open spec fn same_grouping(s1: Seq<Seq<TipsetView>>, s2: Seq<Seq<TipsetView>>) -> bool {
    forall|x: TipsetView, y: TipsetView| #[trigger] together(s1, x, y) <==> together(s2, x, y)
}

/// Among the members of the set and the tipsets of `ts`, an identity stands
/// for one tipset alone.
pub open spec fn all_known(bs: Seq<Seq<TipsetView>>, ts: Seq<TipsetView>) -> bool {
    &&& forall|i: int| 0 <= i < ts.len() ==> known(bs, #[trigger] ts[i])
    &&& forall|i: int, j: int|
        0 <= i < ts.len() && 0 <= j < ts.len() && (#[trigger] ts[i]).key == (#[trigger] ts[j]).key
            ==> ts[i] == ts[j]
}

/// The list with the tipsets at the places `k` and `k + 1` exchanged.
pub open spec fn exchanged(ts: Seq<TipsetView>, k: int) -> Seq<TipsetView> {
    ts.update(k, ts[k + 1]).update(k + 1, ts[k])
}

/// In a well-formed set two members with the same identity are the same
/// tipset.
pub proof fn lemma_one_place(bs: Seq<Seq<TipsetView>>, a: int, ka: int, b: int, kb: int)
    requires
        set_wf(bs),
        0 <= a < bs.len(),
        0 <= ka < bs[a].len(),
        0 <= b < bs.len(),
        0 <= kb < bs[b].len(),
        bs[a][ka].key == bs[b][kb].key,
    ensures
        bs[a][ka] == bs[b][kb],
{
    if a != b {
        assert(unlinked(bs[a], bs[b]));
        assert(linked(bs[a][ka], bs[b][kb]));
    } else if ka < kb {
        assert(bs[a][ka].key != bs[a][kb].key);
    } else if kb < ka {
        assert(bs[a][kb].key != bs[a][ka].key);
    }
}

/// What the merged bucket of an insertion holds was brought there by the
/// insertion.
pub proof fn lemma_merged_joined(bs: Seq<Seq<TipsetView>>, t: TipsetView, i: int, x: TipsetView)
    requires
        is_first_chain(bs, t, i),
        merged(bucket_add(bs[i], t), bs.skip(i + 1), t).contains(x),
    ensures
        joined(bs, t, x),
        x == t || exists|a: int, ka: int|
            0 <= a < bs.len() && 0 <= ka < bs[a].len() && same_chain(bs[a], t) && #[trigger] bs[a][ka]
                == x,
{
    let first = bucket_add(bs[i], t);
    let later = bs.skip(i + 1);
    let m = merged(first, later, t);
    lemma_merged(first, later, t);
    let k = choose|k: int| 0 <= k < m.len() && m[k] == x;
    if first.contains(m[k]) {
        let f = choose|f: int| 0 <= f < first.len() && first[f] == x;
        if f < bs[i].len() {
            assert(bs[i][f] == x);
            assert(bs[i].contains(x));
        }
    } else {
        let r = choose|r: int|
            0 <= r < later.len() && same_chain(#[trigger] later[r], t) && later[r].contains(m[k]);
        assert(later[r] == bs[r + i + 1]);
        let j = choose|j: int| 0 <= j < later[r].len() && later[r][j] == x;
        assert(bs[r + i + 1][j] == x);
        assert(bs[r + i + 1].contains(x));
    }
}

/// The merged bucket of an insertion holds what the insertion brings
/// there.
pub proof fn lemma_merged_holds(bs: Seq<Seq<TipsetView>>, t: TipsetView, i: int, x: TipsetView)
    requires
        set_wf(bs),
        known(bs, t),
        is_first_chain(bs, t, i),
        joined(bs, t, x),
    ensures
        merged(bucket_add(bs[i], t), bs.skip(i + 1), t).contains(x),
{
    let first = bucket_add(bs[i], t);
    let later = bs.skip(i + 1);
    let m = merged(first, later, t);
    lemma_merged(first, later, t);
    lemma_add_idempotent(bs[i], t);
    // some member of the merged bucket has the identity of `x`
    if x == t {
        let f = choose|f: int| 0 <= f < first.len() && (#[trigger] first[f]).key == t.key;
        assert(m[f].key == x.key);
    } else {
        let c = choose|c: int|
            0 <= c < bs.len() && (#[trigger] bs[c]).contains(x) && same_chain(bs[c], t);
        let kx = choose|kx: int| 0 <= kx < bs[c].len() && bs[c][kx] == x;
        if c == i {
            assert(first[kx] == bs[i][kx]);
            assert(m[kx].key == x.key);
        } else {
            assert(c > i);
            assert(later[c - i - 1] == bs[c]);
            assert(has_key(m, later[c - i - 1][kx].key));
        }
    }
    assert(has_key(m, x.key));
    let k = choose|k: int| 0 <= k < m.len() && (#[trigger] m[k]).key == x.key;
    // that member is `x`
    assert(m.contains(m[k]));
    lemma_merged_joined(bs, t, i, m[k]);
    if m[k] != t {
        let (a, ka) = choose|a: int, ka: int|
            0 <= a < bs.len() && 0 <= ka < bs[a].len() && same_chain(bs[a], t) && #[trigger] bs[a][ka]
                == m[k];
        if x != t {
            let c = choose|c: int|
                0 <= c < bs.len() && (#[trigger] bs[c]).contains(x) && same_chain(bs[c], t);
            let kx = choose|kx: int| 0 <= kx < bs[c].len() && bs[c][kx] == x;
            lemma_one_place(bs, a, ka, c, kx);
        }
    } else if x != t {
        let c = choose|c: int|
            0 <= c < bs.len() && (#[trigger] bs[c]).contains(x) && same_chain(bs[c], t);
        let kx = choose|kx: int| 0 <= kx < bs[c].len() && bs[c][kx] == x;
        assert(bs[c][kx] == t);
    }
    assert(m[k] == x);
}

/// Every member of the set after an insertion is the inserted tipset or was
/// a member before.
pub proof fn lemma_member_after(bs: Seq<Seq<TipsetView>>, t: TipsetView, p: int, k: int)
    requires
        0 <= p < set_insert(bs, t).len(),
        0 <= k < set_insert(bs, t)[p].len(),
    ensures
        set_insert(bs, t)[p][k] == t || exists|a: int, ka: int|
            0 <= a < bs.len() && 0 <= ka < bs[a].len() && #[trigger] bs[a][ka] == set_insert(
                bs,
                t,
            )[p][k],
{
    let after = set_insert(bs, t);
    let x = after[p][k];
    if exists|i: int| is_first_chain(bs, t, i) {
        let i = choose|i: int| is_first_chain(bs, t, i);
        let later = bs.skip(i + 1);
        let kept = without_related(later, t);
        lemma_without_related(later, t);
        if p < i {
            assert(bs[p][k] == x);
        } else if p == i {
            assert(after[p].contains(x));
            lemma_merged_joined(bs, t, i, x);
        } else {
            assert(after[p] == kept[p - i - 1]);
            assert(later.contains(kept[p - i - 1]));
            let r = choose|r: int| 0 <= r < later.len() && later[r] == kept[p - i - 1];
            assert(bs[r + i + 1][k] == x);
        }
    } else {
        if p < bs.len() {
            assert(bs[p][k] == x);
        } else {
            assert(after[p] =~= seq![t]);
        }
    }
}

/// An insertion keeps it that an identity stands for one tipset alone.
pub proof fn lemma_known_after(bs: Seq<Seq<TipsetView>>, t: TipsetView, u: TipsetView)
    requires
        known(bs, u),
        t.key == u.key ==> t == u,
    ensures
        known(set_insert(bs, t), u),
{
    let after = set_insert(bs, t);
    assert forall|p: int, k: int|
        0 <= p < after.len() && 0 <= k < after[p].len() && (#[trigger] after[p][k]).key
            == u.key implies after[p][k] == u by {
        lemma_member_after(bs, t, p, k);
    }
}

/// What an insertion holds together: what was held together before, and
/// what the insertion brings into the bucket of the inserted tipset.
pub proof fn lemma_together_after(
    bs: Seq<Seq<TipsetView>>,
    t: TipsetView,
    x: TipsetView,
    y: TipsetView,
)
    requires
        set_wf(bs),
        known(bs, t),
    ensures
        together(set_insert(bs, t), x, y) <==> together(bs, x, y) || (joined(bs, t, x) && joined(
            bs,
            t,
            y,
        )),
{
    let after = set_insert(bs, t);
    if exists|i: int| is_first_chain(bs, t, i) {
        let i = choose|i: int| is_first_chain(bs, t, i);
        let later = bs.skip(i + 1);
        let kept = without_related(later, t);
        let m = merged(bucket_add(bs[i], t), later, t);
        lemma_without_related(later, t);
        assert(after[i] == m);
        if together(after, x, y) {
            let p = choose|p: int|
                0 <= p < after.len() && (#[trigger] after[p]).contains(x) && after[p].contains(y);
            if p < i {
                assert(after[p] == bs[p]);
            } else if p == i {
                lemma_merged_joined(bs, t, i, x);
                lemma_merged_joined(bs, t, i, y);
            } else {
                assert(after[p] == kept[p - i - 1]);
                assert(later.contains(kept[p - i - 1]));
                let r = choose|r: int| 0 <= r < later.len() && later[r] == kept[p - i - 1];
                assert(bs[r + i + 1] == after[p]);
            }
        }
        if joined(bs, t, x) && joined(bs, t, y) {
            lemma_merged_holds(bs, t, i, x);
            lemma_merged_holds(bs, t, i, y);
            assert(after[i].contains(x) && after[i].contains(y));
        }
        if together(bs, x, y) {
            let c = choose|c: int|
                0 <= c < bs.len() && (#[trigger] bs[c]).contains(x) && bs[c].contains(y);
            if same_chain(bs[c], t) {
                assert(touches(bs, t, x) && touches(bs, t, y));
                lemma_merged_holds(bs, t, i, x);
                lemma_merged_holds(bs, t, i, y);
                assert(after[i].contains(x) && after[i].contains(y));
            } else if c < i {
                assert(after[c] == bs[c]);
            } else {
                assert(later[c - i - 1] == bs[c]);
                assert(kept.contains(bs[c]));
                let p = choose|p: int| 0 <= p < kept.len() && kept[p] == bs[c];
                assert(after[p + i + 1] == bs[c]);
            }
        }
    } else {
        let n = bs.len() as int;
        assert(after[n] =~= seq![t]);
        if together(after, x, y) {
            let p = choose|p: int|
                0 <= p < after.len() && (#[trigger] after[p]).contains(x) && after[p].contains(y);
            if p < n {
                assert(after[p] == bs[p]);
            }
        }
        if together(bs, x, y) {
            let c = choose|c: int|
                0 <= c < bs.len() && (#[trigger] bs[c]).contains(x) && bs[c].contains(y);
            assert(after[c] == bs[c]);
        }
        if joined(bs, t, x) && joined(bs, t, y) {
            if touches(bs, t, x) {
                let c = choose|c: int|
                    0 <= c < bs.len() && (#[trigger] bs[c]).contains(x) && same_chain(bs[c], t);
                lemma_first_chain_exists(bs, t, c);
            }
            if touches(bs, t, y) {
                let c = choose|c: int|
                    0 <= c < bs.len() && (#[trigger] bs[c]).contains(y) && same_chain(bs[c], t);
                lemma_first_chain_exists(bs, t, c);
            }
            assert(after[n][0] == t);
            assert(after[n].contains(t));
        }
    }
}

/// `x` is held by a bucket on the chain of `t` where it is held together
/// with a tipset that is linked to `t`.
pub proof fn lemma_touches_from(bs: Seq<Seq<TipsetView>>, t: TipsetView, x: TipsetView, z: TipsetView)
    requires
        together(bs, x, z),
        linked(t, z),
    ensures
        touches(bs, t, x),
{
    let c = choose|c: int| 0 <= c < bs.len() && (#[trigger] bs[c]).contains(x) && bs[c].contains(z);
    let k = choose|k: int| 0 <= k < bs[c].len() && bs[c][k] == z;
    assert(linked(t, bs[c][k]));
}

/// A tipset that is held together with `x` and linked to `t`, where `x` is
/// held by a bucket on the chain of `t`.
pub proof fn lemma_touches_witness(bs: Seq<Seq<TipsetView>>, t: TipsetView, x: TipsetView) -> (z:
    TipsetView)
    requires
        touches(bs, t, x),
    ensures
        together(bs, x, z),
        together(bs, z, z),
        linked(t, z),
{
    let c = choose|c: int| 0 <= c < bs.len() && (#[trigger] bs[c]).contains(x) && same_chain(bs[c], t);
    let k = choose|k: int| 0 <= k < bs[c].len() && linked(t, #[trigger] bs[c][k]);
    assert(bs[c].contains(bs[c][k]));
    bs[c][k]
}

/// What the insertion of `t1` brings to `t1` is brought to it too after
/// `t2` was inserted first.
proof fn lemma_joined_later(bs: Seq<Seq<TipsetView>>, t1: TipsetView, t2: TipsetView, x: TipsetView)
    requires
        set_wf(bs),
        known(bs, t2),
        joined(bs, t1, x),
    ensures
        joined(set_insert(bs, t2), t1, x),
{
    if x != t1 {
        let z = lemma_touches_witness(bs, t1, x);
        lemma_together_after(bs, t2, x, z);
        lemma_touches_from(set_insert(bs, t2), t1, x, z);
    }
}

/// What is brought to `t2` after `t1` was inserted is brought to `t2`
/// without `t1`, or was brought to `t1`, to which `t2` is then linked
/// through `z`.
proof fn lemma_joined_through(
    bs: Seq<Seq<TipsetView>>,
    t1: TipsetView,
    t2: TipsetView,
    x: TipsetView,
) -> (z: TipsetView)
    requires
        set_wf(bs),
        known(bs, t1),
        joined(set_insert(bs, t1), t2, x),
    ensures
        joined(bs, t2, x) || (joined(bs, t1, x) && joined(bs, t1, z) && linked(t2, z)),
{
    if x == t2 {
        x
    } else {
        let z = lemma_touches_witness(set_insert(bs, t1), t2, x);
        lemma_together_after(bs, t1, x, z);
        if together(bs, x, z) {
            lemma_touches_from(bs, t2, x, z);
        }
        z
    }
}

/// A tipset that was brought to `t2` is brought to `t1` after `t2`, where
/// `t2` is linked to what was brought to `t1`.
proof fn lemma_joined_across(
    bs: Seq<Seq<TipsetView>>,
    t1: TipsetView,
    t2: TipsetView,
    x: TipsetView,
    z: TipsetView,
)
    requires
        set_wf(bs),
        known(bs, t2),
        joined(bs, t2, x),
        joined(bs, t1, z),
        linked(t2, z),
    ensures
        joined(set_insert(bs, t2), t1, x),
{
    let b = set_insert(bs, t2);
    if z == t1 {
        // `t2` itself is linked to `t1`
        lemma_together_after(bs, t2, x, t2);
        lemma_touches_from(b, t1, x, t2);
    } else {
        // `z` is held together with a tipset `w` that is linked to `t1`;
        // both are brought to `t2`
        let w = lemma_touches_witness(bs, t1, z);
        assert(together(bs, z, z)) by {
            let c = choose|c: int|
                0 <= c < bs.len() && (#[trigger] bs[c]).contains(z) && same_chain(bs[c], t1);
            assert(bs[c].contains(z));
        }
        lemma_touches_from(bs, t2, z, z);
        assert(together(bs, w, z)) by {
            let c = choose|c: int|
                0 <= c < bs.len() && (#[trigger] bs[c]).contains(z) && bs[c].contains(w);
            assert(bs[c].contains(w) && bs[c].contains(z));
        }
        lemma_touches_from(bs, t2, w, z);
        lemma_together_after(bs, t2, x, w);
        lemma_touches_from(b, t1, x, w);
    }
}

/// What two insertions hold together in the one order, they hold together
/// in the other.
proof fn lemma_swap_one_way(
    bs: Seq<Seq<TipsetView>>,
    t1: TipsetView,
    t2: TipsetView,
    x: TipsetView,
    y: TipsetView,
)
    requires
        set_wf(bs),
        known(bs, t1),
        known(bs, t2),
        t1.key == t2.key ==> t1 == t2,
        together(set_insert(set_insert(bs, t1), t2), x, y),
    ensures
        together(set_insert(set_insert(bs, t2), t1), x, y),
{
    let a = set_insert(bs, t1);
    let b = set_insert(bs, t2);
    lemma_insert_grows(bs, t1);
    lemma_insert_grows(bs, t2);
    lemma_known_after(bs, t1, t2);
    lemma_known_after(bs, t2, t1);
    lemma_together_after(a, t2, x, y);
    lemma_together_after(b, t1, x, y);
    lemma_together_after(bs, t1, x, y);
    lemma_together_after(bs, t2, x, y);
    if together(a, x, y) {
        if !together(bs, x, y) {
            lemma_joined_later(bs, t1, t2, x);
            lemma_joined_later(bs, t1, t2, y);
        }
    } else {
        let zx = lemma_joined_through(bs, t1, t2, x);
        let zy = lemma_joined_through(bs, t1, t2, y);
        if joined(bs, t2, x) && joined(bs, t2, y) {
        } else {
            if joined(bs, t2, x) {
                lemma_joined_across(bs, t1, t2, x, zy);
            } else {
                lemma_joined_later(bs, t1, t2, x);
            }
            if joined(bs, t2, y) {
                lemma_joined_across(bs, t1, t2, y, zx);
            } else {
                lemma_joined_later(bs, t1, t2, y);
            }
        }
    }
}

/// Two insertions hold the same tipsets together, whichever comes first.
/// It is asked that an identity stands for one tipset alone.
pub proof fn lemma_insert_order(bs: Seq<Seq<TipsetView>>, t1: TipsetView, t2: TipsetView)
    requires
        set_wf(bs),
        known(bs, t1),
        known(bs, t2),
        t1.key == t2.key ==> t1 == t2,
    ensures
        same_grouping(set_insert(set_insert(bs, t1), t2), set_insert(set_insert(bs, t2), t1)),
{
    assert forall|x: TipsetView, y: TipsetView| #[trigger]
        together(set_insert(set_insert(bs, t1), t2), x, y) <==> together(
            set_insert(set_insert(bs, t2), t1),
            x,
            y,
        ) by {
        if together(set_insert(set_insert(bs, t1), t2), x, y) {
            lemma_swap_one_way(bs, t1, t2, x, y);
        }
        if together(set_insert(set_insert(bs, t2), t1), x, y) {
            lemma_swap_one_way(bs, t2, t1, x, y);
        }
    }
}

/// Insertions keep it that an identity stands for one tipset alone.
pub proof fn lemma_known_after_all(bs: Seq<Seq<TipsetView>>, ts: Seq<TipsetView>, u: TipsetView)
    requires
        known(bs, u),
        forall|i: int| 0 <= i < ts.len() && (#[trigger] ts[i]).key == u.key ==> ts[i] == u,
    ensures
        known(insert_all(bs, ts), u),
    decreases ts.len(),
{
    if ts.len() > 0 {
        let rest = ts.drop_last();
        assert forall|i: int| 0 <= i < rest.len() && (#[trigger] rest[i]).key == u.key implies rest[i]
            == u by {
            assert(rest[i] == ts[i]);
        }
        lemma_known_after_all(bs, rest, u);
        assert(ts[ts.len() - 1] == ts.last());
        lemma_known_after(insert_all(bs, rest), ts.last(), u);
    }
}

/// Sets that hold the same tipsets together do so after the insertion of
/// one tipset into both.
pub proof fn lemma_same_grouping_after(
    s1: Seq<Seq<TipsetView>>,
    s2: Seq<Seq<TipsetView>>,
    t: TipsetView,
)
    requires
        set_wf(s1),
        set_wf(s2),
        known(s1, t),
        known(s2, t),
        same_grouping(s1, s2),
    ensures
        same_grouping(set_insert(s1, t), set_insert(s2, t)),
{
    assert forall|x: TipsetView, y: TipsetView| #[trigger]
        together(set_insert(s1, t), x, y) <==> together(set_insert(s2, t), x, y) by {
        lemma_together_after(s1, t, x, y);
        lemma_together_after(s2, t, x, y);
        lemma_joined_same(s1, s2, t, x);
        lemma_joined_same(s1, s2, t, y);
        lemma_joined_same(s2, s1, t, x);
        lemma_joined_same(s2, s1, t, y);
        assert(together(s1, x, y) <==> together(s2, x, y));
    }
}

/// In sets that hold the same tipsets together, an insertion brings the
/// same tipsets to the inserted one.
proof fn lemma_joined_same(
    s1: Seq<Seq<TipsetView>>,
    s2: Seq<Seq<TipsetView>>,
    t: TipsetView,
    x: TipsetView,
)
    requires
        same_grouping(s1, s2),
    ensures
        joined(s1, t, x) ==> joined(s2, t, x),
{
    if joined(s1, t, x) && x != t {
        let z = lemma_touches_witness(s1, t, x);
        assert(together(s1, x, z) <==> together(s2, x, z));
        lemma_touches_from(s2, t, x, z);
    }
}

/// Grouping does not depend on the order of arrival: the exchange of two
/// neighbours in the list of inserted tipsets leaves it as it is which
/// tipsets are held together. It is asked that an identity stands for one
/// tipset alone.
pub proof fn lemma_arrival_order(bs: Seq<Seq<TipsetView>>, ts: Seq<TipsetView>, k: int)
    requires
        set_wf(bs),
        all_known(bs, ts),
        0 <= k,
        k + 1 < ts.len(),
    ensures
        same_grouping(insert_all(bs, ts), insert_all(bs, exchanged(ts, k))),
    decreases ts.len(),
{
    let other = exchanged(ts, k);
    let n = ts.len() as int;
    if k + 1 == n - 1 {
        let before = ts.take(k);
        let t1 = ts[k];
        let t2 = ts[k + 1];
        let s = insert_all(bs, before);
        assert(ts.drop_last().drop_last() =~= before);
        assert(other.drop_last().drop_last() =~= before);
        assert(ts.drop_last().last() == t1 && ts.last() == t2);
        assert(other.drop_last().last() == t2 && other.last() == t1);
        assert(insert_all(bs, ts.drop_last()) == set_insert(s, t1));
        assert(insert_all(bs, ts) == set_insert(set_insert(s, t1), t2));
        assert(insert_all(bs, other.drop_last()) == set_insert(s, t2));
        assert(insert_all(bs, other) == set_insert(set_insert(s, t2), t1));
        lemma_insert_all_grows(bs, before);
        lemma_known_after_all(bs, before, t1);
        lemma_known_after_all(bs, before, t2);
        lemma_insert_order(s, t1, t2);
    } else {
        let t = ts.last();
        let rest = ts.drop_last();
        assert(other.last() == t);
        assert(other.drop_last() =~= exchanged(rest, k));
        assert(all_known(bs, rest)) by {
            assert forall|i: int| 0 <= i < rest.len() implies known(bs, #[trigger] rest[i]) by {
                assert(rest[i] == ts[i]);
            }
            assert forall|i: int, j: int|
                0 <= i < rest.len() && 0 <= j < rest.len() && (#[trigger] rest[i]).key == (
                #[trigger] rest[j]).key implies rest[i] == rest[j] by {
                assert(rest[i] == ts[i] && rest[j] == ts[j]);
            }
        }
        lemma_arrival_order(bs, rest, k);
        let s1 = insert_all(bs, rest);
        let s2 = insert_all(bs, exchanged(rest, k));
        lemma_insert_all_grows(bs, rest);
        lemma_insert_all_grows(bs, exchanged(rest, k));
        assert(ts[n - 1] == t);
        lemma_known_after_all(bs, rest, t);
        assert forall|i: int|
            0 <= i < exchanged(rest, k).len() && (#[trigger] exchanged(rest, k)[i]).key
                == t.key implies exchanged(rest, k)[i] == t by {
            if i == k {
                assert(exchanged(rest, k)[i] == ts[k + 1]);
            } else if i == k + 1 {
                assert(exchanged(rest, k)[i] == ts[k]);
            } else {
                assert(exchanged(rest, k)[i] == ts[i]);
            }
        }
        lemma_known_after_all(bs, exchanged(rest, k), t);
        lemma_same_grouping_after(s1, s2, t);
    }
}

} // verus!
