//! What holds of the sync manager: how it becomes `Ready`, and that the
//! heads are sorted before the first target is chosen.
use crate::bucket_set::{insert_all, set_heaviest, set_wf, tops};
use crate::bucket_set_laws::lemma_insert_all_grows;
use crate::manager::{
    after_events, announce, by_epoch, manager_wf, sorted_by_epoch, sorted_insert, triage,
    EventView, ManagerView, SyncStatus, MIN_PEERS,
};
use crate::peers::{heads_of, table_set};
use crate::peers_laws::lemma_table_set;
use crate::tipset::TipsetView;
use vstd::prelude::*;

verus! {

/// No event of the inbox makes the manager `Ready`, and none changes the
/// peer head table: a manager in `Init` stays out of `Ready` until a peer
/// announces a head.
pub proof fn lemma_triage_never_makes_ready(m: ManagerView, e: EventView)
    ensures
        triage(m, e).0.status == SyncStatus::Ready ==> m.status == SyncStatus::Ready,
        m.status == SyncStatus::Init ==> triage(m, e).0.status != SyncStatus::Ready,
        triage(m, e).0.peers == m.peers,
{
}

/// Whatever events reach the inbox, a manager that is not `Ready` does not
/// become `Ready`, and its peer head table stays as it is: without a peer
/// that announces a head, a manager in `Init` never becomes `Ready`.
pub proof fn lemma_events_never_make_ready(m: ManagerView, es: Seq<EventView>)
    requires
        m.status != SyncStatus::Ready,
    ensures
        after_events(m, es).status != SyncStatus::Ready,
        after_events(m, es).peers == m.peers,
    decreases es.len(),
{
    if es.len() > 0 {
        lemma_events_never_make_ready(m, es.drop_last());
        lemma_triage_never_makes_ready(after_events(m, es.drop_last()), es.last());
    }
}

/// The steps of the status: an event of the inbox leaves the status as it
/// is, or takes it from `Ready` to `Scheduled` (a new tipset), or to
/// `Completed` (the success of a worker). `Completed` is never left.
pub proof fn lemma_status_steps(m: ManagerView, e: EventView)
    ensures
        triage(m, e).0.status == m.status || (m.status == SyncStatus::Ready && triage(
            m,
            e,
        ).0.status == SyncStatus::Scheduled && e is NewTipsets) || (triage(m, e).0.status
            == SyncStatus::Completed && e is Results && e->Results_1),
        m.status == SyncStatus::Completed ==> triage(m, e).0.status == SyncStatus::Completed,
        e is NewTipsets && m.status == SyncStatus::Ready ==> triage(m, e).0.status
            == SyncStatus::Scheduled,
{
}

/// The announcement of a head to a manager in `Init` makes it `Ready` and
/// puts exactly one event on the inbox: a `NewTipsets` event that carries the
/// heaviest candidate of the bucket set.
pub proof fn lemma_first_announcement_makes_ready(m: ManagerView, p: Seq<u8>, t: TipsetView)
    requires
        manager_wf(m),
        m.status == SyncStatus::Init,
    ensures
        announce(m, p, t).0.status == SyncStatus::Ready,
        announce(m, p, t).0.peers.len() >= MIN_PEERS,
        set_heaviest(announce(m, p, t).0.queue) is Some,
        announce(m, p, t).1 == seq![
            EventView::NewTipsets(set_heaviest(announce(m, p, t).0.queue)->0),
        ],
        manager_wf(announce(m, p, t).0),
{
    lemma_table_set(m.peers, p, t);
    let peers = table_set(m.peers, p, t);
    lemma_by_epoch_len(heads_of(peers));
    lemma_insert_all_grows(m.queue, by_epoch(heads_of(peers)));
    let queue = insert_all(m.queue, by_epoch(heads_of(peers)));
    assert(tops(queue).len() > 0);
}

/// Later announcements leave the status as it is and pass the announced
/// head on as the one event.
pub proof fn lemma_later_announcement_passes_on(m: ManagerView, p: Seq<u8>, t: TipsetView)
    requires
        m.status != SyncStatus::Init,
    ensures
        announce(m, p, t).0.status == m.status,
        announce(m, p, t).0.queue == m.queue,
        announce(m, p, t).0.target == m.target,
        announce(m, p, t).1 == seq![EventView::NewTipsets(t)],
{
}

/// `sorted_insert` puts the tipset at the place behind which every member
/// has a greater epoch, and before which the nearest has not.
pub proof fn lemma_sorted_insert_at(s: Seq<TipsetView>, t: TipsetView, p: int)
    requires
        0 <= p <= s.len(),
        p > 0 ==> s[p - 1].epoch <= t.epoch,
        forall|k: int| p <= k < s.len() ==> (#[trigger] s[k]).epoch > t.epoch,
    ensures
        sorted_insert(s, t) == s.insert(p, t),
    decreases s.len(),
{
    if s.len() == 0 {
        assert(s.insert(p, t) =~= seq![t]);
    } else if p == s.len() {
        assert(s.insert(p, t) =~= s.push(t));
    } else {
        assert(s.last().epoch > t.epoch);
        let rest = s.drop_last();
        lemma_sorted_insert_at(rest, t, p);
        assert(s.insert(p, t) =~= rest.insert(p, t).push(s.last()));
    }
}

/// The place at which `sorted_insert` puts the tipset.
pub proof fn lemma_sorted_insert_place(s: Seq<TipsetView>, t: TipsetView) -> (p: int)
    ensures
        0 <= p <= s.len(),
        p > 0 ==> s[p - 1].epoch <= t.epoch,
        forall|k: int| p <= k < s.len() ==> (#[trigger] s[k]).epoch > t.epoch,
        sorted_insert(s, t) == s.insert(p, t),
    decreases s.len(),
{
    if s.len() == 0 {
        lemma_sorted_insert_at(s, t, 0);
        0
    } else if s.last().epoch <= t.epoch {
        lemma_sorted_insert_at(s, t, s.len() as int);
        s.len() as int
    } else {
        let rest = s.drop_last();
        let p = lemma_sorted_insert_place(rest, t);
        assert forall|k: int| p <= k < s.len() implies (#[trigger] s[k]).epoch > t.epoch by {
            if k < rest.len() {
                assert(rest[k].epoch > t.epoch);
            }
        }
        assert(p > 0 ==> s[p - 1] == rest[p - 1]);
        lemma_sorted_insert_at(s, t, p);
        p
    }
}

/// Putting a tipset into a sorted list leaves the list sorted, and holds
/// what the list held and the tipset.
pub proof fn lemma_sorted_insert_sorts(s: Seq<TipsetView>, t: TipsetView)
    ensures
        sorted_by_epoch(s) ==> sorted_by_epoch(sorted_insert(s, t)),
        sorted_insert(s, t).to_multiset() == s.to_multiset().insert(t),
    decreases s.len(),
{
    let after = sorted_insert(s, t);
    if sorted_by_epoch(s) {
        let p = lemma_sorted_insert_place(s, t);
        assert forall|i: int, j: int| 0 <= i < j < after.len() implies (#[trigger] after[i]).epoch
            <= (#[trigger] after[j]).epoch by {
            if j < p {
                assert(s[i].epoch <= s[j].epoch);
            } else if j == p {
                if i < p - 1 {
                    assert(s[i].epoch <= s[p - 1].epoch);
                }
            } else if i < p {
                if i < p - 1 {
                    assert(s[i].epoch <= s[p - 1].epoch);
                }
                assert(s[j - 1].epoch > t.epoch);
            } else if i == p {
                assert(s[j - 1].epoch > t.epoch);
            } else {
                assert(s[i - 1].epoch <= s[j - 1].epoch);
            }
        }
    }
    if s.len() == 0 {
        assert(after =~= s.push(t));
        vstd::seq_lib::to_multiset_build(s, t);
    } else if s.last().epoch <= t.epoch {
        vstd::seq_lib::to_multiset_build(s, t);
    } else {
        let rest = s.drop_last();
        lemma_sorted_insert_sorts(rest, t);
        vstd::seq_lib::to_multiset_build(sorted_insert(rest, t), s.last());
        vstd::seq_lib::to_multiset_build(rest, s.last());
        assert(rest.push(s.last()) =~= s);
        assert(rest.to_multiset().insert(t).insert(s.last()) =~= rest.to_multiset().insert(
            s.last(),
        ).insert(t));
    }
}

/// The heads sorted by epoch are sorted, and are the heads that were given,
/// each as often as it was given.
pub proof fn lemma_by_epoch_sorts(heads: Seq<TipsetView>)
    ensures
        sorted_by_epoch(by_epoch(heads)),
        by_epoch(heads).to_multiset() == heads.to_multiset(),
    decreases heads.len(),
{
    if heads.len() > 0 {
        let rest = heads.drop_last();
        lemma_by_epoch_sorts(rest);
        lemma_sorted_insert_sorts(by_epoch(rest), heads.last());
        vstd::seq_lib::to_multiset_build(rest, heads.last());
        assert(rest.push(heads.last()) =~= heads);
    }
}

/// Sorting keeps the number of heads.
pub proof fn lemma_by_epoch_len(heads: Seq<TipsetView>)
    ensures
        by_epoch(heads).len() == heads.len(),
    decreases heads.len(),
{
    if heads.len() > 0 {
        lemma_by_epoch_len(heads.drop_last());
        lemma_sorted_insert_len(by_epoch(heads.drop_last()), heads.last());
    }
}

/// Putting a tipset into a sorted list makes the list longer by one.
pub proof fn lemma_sorted_insert_len(s: Seq<TipsetView>, t: TipsetView)
    ensures
        sorted_insert(s, t).len() == s.len() + 1,
    decreases s.len(),
{
    if s.len() > 0 && s.last().epoch > t.epoch {
        lemma_sorted_insert_len(s.drop_last(), t);
    }
}

} // verus!
