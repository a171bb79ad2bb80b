//! The sync manager: the state machine that turns announced heads into sync
//! targets.
//!
//! The manager owns the bucket set, the peer head table and the active sync
//! target. Every operation returns the events that it puts on the inbox, in
//! order; the caller sends them.
use crate::bucket::{
    bucket_add, distinct_keys, has_key, heaviest_index, option_view, same_chain, views_of,
    SyncBucket,
};
use crate::bucket_laws::lemma_heaviest_exists;
use crate::bucket_set::{
    heaviest_bucket, insert_all, set_heaviest, set_insert, set_wf, tops, SyncBucketSet,
};
use crate::bucket_set_laws::lemma_insert_grows;
use crate::manager_laws::{lemma_by_epoch_len, lemma_sorted_insert_at};
use crate::peers::{distinct_peers, heads_of, table_set, PeerHeads};
use crate::peers_laws::lemma_table_set;
use crate::tipset::{Tipset, TipsetView};
use vstd::prelude::*;

verus! {

/// The number of peers that must have announced a head before the first
/// sync target is chosen.
pub const MIN_PEERS: usize = 1;

/// The number of events that the inbox of the manager holds before a sender
/// has to wait.
pub const INBOX_CAPACITY: usize = 20;

/// SyncStatus represents the current state of the sync manager
#[derive(PartialEq, Eq, Structural, Debug, Clone, Copy)]
pub enum SyncStatus {
    /// Initial sync state
    Init,
    /// Indicates target tipsets have been added to the queue
    Ready,
    /// Indicates tipsets will be synced in the near future
    Scheduled,
    /// Indicates the completion of a successful sync
    Completed,
}

/// Sync events
#[derive(Debug)]
pub enum SyncEvents {
    /// New incoming tipsets from the network to be potentially synced
    NewTipsets { tipsets: Tipset },
    /// Reserved for the worker
    _Worker { _tipsets: Tipset },
    /// Tipsets that will be attempted to be synced
    Targets { tipsets: Tipset },
    /// Results of syncing tipsets
    Results { _tipsets: Tipset, _success: bool },
}

/// What an event says, over the views of its tipsets.
pub enum EventView {
    NewTipsets(TipsetView),
    Worker(TipsetView),
    Targets(TipsetView),
    Results(TipsetView, bool),
}

impl View for SyncEvents {
    type V = EventView;

    open spec fn view(&self) -> EventView {
        match *self {
            SyncEvents::NewTipsets { tipsets } => EventView::NewTipsets(tipsets@),
            SyncEvents::_Worker { _tipsets } => EventView::Worker(_tipsets@),
            SyncEvents::Targets { tipsets } => EventView::Targets(tipsets@),
            SyncEvents::Results { _tipsets, _success } => EventView::Results(_tipsets@, _success),
        }
    }
}

impl Clone for SyncEvents {
    fn clone(&self) -> (r: SyncEvents)
        ensures
            r@ == self@,
    {
        match self {
            SyncEvents::NewTipsets { tipsets } => SyncEvents::NewTipsets { tipsets: tipsets.clone() },
            SyncEvents::_Worker { _tipsets } => SyncEvents::_Worker { _tipsets: _tipsets.clone() },
            SyncEvents::Targets { tipsets } => SyncEvents::Targets { tipsets: tipsets.clone() },
            SyncEvents::Results { _tipsets, _success } => SyncEvents::Results {
                _tipsets: _tipsets.clone(),
                _success: *_success,
            },
        }
    }
}

/// The views of a list of events, in order.
pub open spec fn event_views(events: Seq<SyncEvents>) -> Seq<EventView> {
    Seq::new(events.len(), |i: int| events[i]@)
}

/// Results of the sync process
#[derive(Debug)]
pub struct SyncResults {
    tipsets: Tipset,
    success: bool,
}

impl SyncResults {
    /// The result `success` of syncing `ts`.
    pub fn new(ts: Tipset, success: bool) -> (r: SyncResults)
        ensures
            r.tipset_view() == ts@,
            r.succeeded() == success,
    {
        SyncResults { tipsets: ts, success }
    }

    /// The tipset that was synced.
    pub closed spec fn tipset_view(&self) -> TipsetView {
        self.tipsets@
    }

    /// Whether the sync succeeded.
    pub closed spec fn succeeded(&self) -> bool {
        self.success
    }
}

/// The state of the manager, over the views of what it holds.
pub struct ManagerView {
    pub status: SyncStatus,
    pub queue: Seq<Seq<TipsetView>>,
    pub target: Seq<TipsetView>,
    pub peers: Seq<(Seq<u8>, TipsetView)>,
}

/// A list sorted by epoch, after `t` was put behind the last member whose
/// epoch is not above that of `t`.
pub open spec fn sorted_insert(s: Seq<TipsetView>, t: TipsetView) -> Seq<TipsetView>
    decreases s.len(),
{
    if s.len() == 0 {
        seq![t]
    } else if s.last().epoch <= t.epoch {
        s.push(t)
    } else {
        sorted_insert(s.drop_last(), t).push(s.last())
    }
}

/// The heads sorted by epoch, oldest first; heads of one epoch keep their
/// order.
pub open spec fn by_epoch(heads: Seq<TipsetView>) -> Seq<TipsetView>
    decreases heads.len(),
{
    if heads.len() == 0 {
        heads
    } else {
        sorted_insert(by_epoch(heads.drop_last()), heads.last())
    }
}

/// The bucket set after target selection: every peer head was inserted, the
/// oldest first.
pub open spec fn selection_queue(m: ManagerView) -> Seq<Seq<TipsetView>> {
    insert_all(m.queue, by_epoch(heads_of(m.peers)))
}

/// The manager after peer `p` announced `t`, with the events put on the
/// inbox. In `Init` the first sync target is chosen from all known heads and
/// announced, and the manager becomes `Ready`; later the announced head
/// itself goes on the inbox.
pub open spec fn announce(m: ManagerView, p: Seq<u8>, t: TipsetView) -> (
    ManagerView,
    Seq<EventView>,
) {
    let known = ManagerView {
        status: m.status,
        queue: m.queue,
        target: m.target,
        peers: table_set(m.peers, p, t),
    };
    if m.status == SyncStatus::Init {
        if known.peers.len() >= MIN_PEERS {
            let queue = selection_queue(known);
            match set_heaviest(queue) {
                Some(best) => (
                    ManagerView {
                        status: SyncStatus::Ready,
                        queue: queue,
                        target: m.target,
                        peers: known.peers,
                    },
                    seq![EventView::NewTipsets(best)],
                ),
                None => (
                    ManagerView {
                        status: m.status,
                        queue: queue,
                        target: m.target,
                        peers: known.peers,
                    },
                    Seq::empty(),
                ),
            }
        } else {
            (known, Seq::empty())
        }
    } else {
        (known, seq![EventView::NewTipsets(t)])
    }
}

/// The manager after the next target was promoted, with the events put on
/// the inbox: where no target is active and the bucket set is not empty, the
/// heaviest bucket leaves the set and becomes the target, and its heaviest
/// member is handed off.
pub open spec fn promote(m: ManagerView) -> (ManagerView, Seq<EventView>) {
    if m.target.len() == 0 && m.queue.len() > 0 {
        let at = heaviest_bucket(m.queue);
        let bucket = m.queue[at];
        (
            ManagerView {
                status: m.status,
                queue: m.queue.remove(at),
                target: bucket,
                peers: m.peers,
            },
            seq![EventView::Targets(bucket[heaviest_index(bucket)])],
        )
    } else {
        (m, Seq::empty())
    }
}

/// The manager after the tipset `t` was scheduled, with the events put on
/// the inbox.
pub open spec fn schedule(m: ManagerView, t: TipsetView) -> (ManagerView, Seq<EventView>) {
    let status = if m.status == SyncStatus::Ready {
        SyncStatus::Scheduled
    } else {
        m.status
    };
    let handoff = if m.status == SyncStatus::Ready {
        seq![EventView::Targets(t)]
    } else {
        Seq::empty()
    };
    let queue = if status == SyncStatus::Scheduled {
        set_insert(m.queue, t)
    } else {
        m.queue
    };
    if m.target.len() > 0 && same_chain(m.target, t) {
        (
            ManagerView {
                status: status,
                queue: queue,
                target: bucket_add(m.target, t),
                peers: m.peers,
            },
            handoff,
        )
    } else {
        let next = promote(
            ManagerView {
                status: status,
                queue: set_insert(queue, t),
                target: m.target,
                peers: m.peers,
            },
        );
        (next.0, handoff + next.1)
    }
}

/// The manager after a worker reported on `t`, with the events put on the
/// inbox. A report on a tipset that the active target does not hold is
/// stale and changes nothing; so does a failure. A success completes the
/// active target, clears it and promotes the next.
pub open spec fn conclude(m: ManagerView, t: TipsetView, success: bool) -> (
    ManagerView,
    Seq<EventView>,
) {
    if success && has_key(m.target, t.key) {
        promote(
            ManagerView {
                status: SyncStatus::Completed,
                queue: m.queue,
                target: Seq::empty(),
                peers: m.peers,
            },
        )
    } else {
        (m, Seq::empty())
    }
}

/// What the triage of one event leaves: the manager, the events put on the
/// inbox, and the tipset handed to the worker, if any.
pub open spec fn triage(m: ManagerView, e: EventView) -> (
    ManagerView,
    Seq<EventView>,
    Option<TipsetView>,
) {
    match e {
        EventView::NewTipsets(t) => (schedule(m, t).0, schedule(m, t).1, None),
        EventView::Worker(_) => (m, Seq::empty(), None),
        EventView::Targets(t) => (m, Seq::empty(), Some(t)),
        EventView::Results(t, success) => (conclude(m, t, success).0, conclude(m, t, success).1, None),
    }
}

/// The manager after the events of `es` were triaged, first to last.
pub open spec fn after_events(m: ManagerView, es: Seq<EventView>) -> ManagerView
    decreases es.len(),
{
    if es.len() == 0 {
        m
    } else {
        triage(after_events(m, es.drop_last()), es.last()).0
    }
}

/// What the triage of one event asks of the caller.
#[derive(Debug)]
pub struct Triage {
    /// Events to put on the inbox, in order.
    pub events: Vec<SyncEvents>,
    /// The tipset to fetch and validate now; its outcome comes back as a
    /// `Results` event.
    pub dispatch: Option<Tipset>,
}

/// Manages tipsets pulled from network to be synced
#[derive(Debug)]
pub struct SyncManager {
    /// Represents current sync status
    status: SyncStatus,
    /// Queue of candidate forks
    sync_queue: SyncBucketSet,
    /// Represents next tipset to be synced
    next_sync_target: SyncBucket,
    /// Represents peers and proposed tipsets from the network
    peer_heads: PeerHeads,
}

impl View for SyncManager {
    type V = ManagerView;

    closed spec fn view(&self) -> ManagerView {
        ManagerView {
            status: self.status,
            queue: self.sync_queue@,
            target: self.next_sync_target@,
            peers: self.peer_heads@,
        }
    }
}

/// Well-formedness of a manager state: the bucket set is well-formed, the
/// active target holds no two members with the same identity, and no peer
/// has two lines in the table.
pub open spec fn manager_wf(m: ManagerView) -> bool {
    set_wf(m.queue) && distinct_keys(m.target) && distinct_peers(m.peers)
}

impl Default for SyncManager {
    fn default() -> (r: SyncManager)
        ensures
            r.wf(),
            r@ == initial(),
    {
        SyncManager::new()
    }
}

impl Clone for SyncManager {
    fn clone(&self) -> (r: SyncManager)
        ensures
            r@ == self@,
    {
        SyncManager {
            status: self.status,
            sync_queue: self.sync_queue.clone(),
            next_sync_target: self.next_sync_target.clone(),
            peer_heads: self.peer_heads.clone(),
        }
    }
}

/// The state of a manager that was just made.
pub open spec fn initial() -> ManagerView {
    ManagerView {
        status: SyncStatus::Init,
        queue: Seq::empty(),
        target: Seq::empty(),
        peers: Seq::empty(),
    }
}

impl SyncManager {
    /// Well-formedness of the manager.
    pub open spec fn wf(&self) -> bool {
        manager_wf(self@)
    }

    /// A manager in `Init`, without peers, buckets or target.
    pub fn new() -> (r: SyncManager)
        ensures
            r.wf(),
            r@ == initial(),
    {
        SyncManager {
            sync_queue: SyncBucketSet::default(),
            next_sync_target: SyncBucket::default(),
            peer_heads: PeerHeads::new(),
            status: SyncStatus::Init,
        }
    }

    /// Records the head `ts` that `peer` announced, and returns the events for
    /// the inbox. In `Init` this chooses the first sync target and makes the
    /// manager `Ready`; later the announced head is passed on.
    pub fn set_peer_head(&mut self, peer: &Vec<u8>, ts: Tipset) -> (events: Vec<SyncEvents>)
        requires
            old(self).wf(),
        ensures
            final(self).wf(),
            final(self)@ == announce(old(self)@, peer@, ts@).0,
            event_views(events@) == announce(old(self)@, peer@, ts@).1,
            events@.len() == 1,
            old(self)@.status == SyncStatus::Init ==> final(self)@.status == SyncStatus::Ready,
            old(self)@.status != SyncStatus::Init ==> final(self)@.status == old(self)@.status,
    {
        let mut events: Vec<SyncEvents> = Vec::new();
        proof {
            lemma_table_set(self.peer_heads@, peer@, ts@);
        }
        // update peer heads map
        self.peer_heads.set(peer, ts.clone());
        if self.status == SyncStatus::Init {
            // ensure we have at least one peer to begin syncing process
            if self.peer_count() >= MIN_PEERS {
                if let Some(best_target) = self.select_sync_target() {
                    self.set_status(SyncStatus::Ready);
                    events.push(SyncEvents::NewTipsets { tipsets: best_target });
                    assert(event_views(events@) =~= seq![EventView::NewTipsets(best_target@)]);
                }
            }
            return events;
        }
        events.push(SyncEvents::NewTipsets { tipsets: ts });
        assert(event_views(events@) =~= seq![EventView::NewTipsets(ts@)]);
        events
    }

    /// Inserts every known peer head into the bucket set, the oldest first,
    /// and returns the heaviest candidate of the set.
    pub fn select_sync_target(&mut self) -> (r: Option<Tipset>)
        requires
            old(self).wf(),
        ensures
            final(self).wf(),
            final(self)@ == (ManagerView {
                status: old(self)@.status,
                queue: selection_queue(old(self)@),
                target: old(self)@.target,
                peers: old(self)@.peers,
            }),
            option_view(r) == set_heaviest(final(self)@.queue),
            r is None <==> old(self)@.queue.len() == 0 && old(self)@.peers.len() == 0,
    {
        let heads = self.sorted_heads();
        let ghost pending = views_of(heads@);
        let mut i: usize = 0;
        while i < heads.len()
            invariant
                i <= heads.len(),
                pending == views_of(heads@),
                self.sync_queue.wf(),
                self.sync_queue@ == insert_all(old(self)@.queue, pending.take(i as int)),
                self.status == old(self).status,
                self.next_sync_target == old(self).next_sync_target,
                self.peer_heads == old(self).peer_heads,
                i > 0 ==> self.sync_queue@.len() > 0,
                i == 0 ==> self.sync_queue@ == old(self)@.queue,
            decreases heads.len() - i,
        {
            proof {
                assert(pending.take(i as int + 1).drop_last() =~= pending.take(i as int));
                lemma_insert_grows(self.sync_queue@, heads@[i as int]@);
            }
            self.sync_queue.insert(heads[i].clone());
            i += 1;
        }
        proof {
            assert(pending.take(heads.len() as int) =~= pending);
            lemma_by_epoch_len(heads_of(old(self)@.peers));
        }
        self.sync_queue.heaviest()
    }

    /// Tells whether the bucket set holds more than one bucket: the peers
    /// disagree on the chain.
    pub fn multiple_chains_seen(&self) -> (r: bool)
        ensures
            r == (self@.queue.len() > 1),
    {
        self.sync_queue.len() > 1
    }

    /// The known peer heads, sorted by epoch, oldest first.
    fn sorted_heads(&self) -> (r: Vec<Tipset>)
        ensures
            views_of(r@) == by_epoch(heads_of(self@.peers)),
    {
        let heads = self.peer_heads.heads();
        let ghost all = views_of(heads@);
        let mut sorted: Vec<Tipset> = Vec::new();
        let mut i: usize = 0;
        assert(views_of(sorted@) =~= by_epoch(all.take(0)));
        while i < heads.len()
            invariant
                i <= heads.len(),
                all == views_of(heads@),
                views_of(sorted@) == by_epoch(all.take(i as int)),
            decreases heads.len() - i,
        {
            assert(all.take(i as int + 1).drop_last() =~= all.take(i as int));
            insert_by_epoch(&mut sorted, heads[i].clone());
            i += 1;
        }
        assert(all.take(heads.len() as int) =~= all);
        sorted
    }

    /// Handles one event of the inbox.
    pub fn _sync_triage(&mut self, event: SyncEvents) -> (r: Triage)
        requires
            old(self).wf(),
        ensures
            final(self).wf(),
            final(self)@ == triage(old(self)@, event@).0,
            event_views(r.events@) == triage(old(self)@, event@).1,
            option_view(r.dispatch) == triage(old(self)@, event@).2,
    {
        match event {
            SyncEvents::NewTipsets { tipsets } => {
                let events = self.schedule_tipset(tipsets);
                Triage { events, dispatch: None }
            },
            SyncEvents::_Worker { _tipsets } => {
                let events: Vec<SyncEvents> = Vec::new();
                assert(event_views(events@) =~= Seq::<EventView>::empty());
                Triage { events, dispatch: None }
            },
            SyncEvents::Targets { tipsets } => {
                let events: Vec<SyncEvents> = Vec::new();
                assert(event_views(events@) =~= Seq::<EventView>::empty());
                Triage { events, dispatch: Some(tipsets) }
            },
            SyncEvents::Results { _tipsets, _success } => {
                let events = self.process_result(SyncResults::new(_tipsets, _success));
                Triage { events, dispatch: None }
            },
        }
    }

    /// Schedules a new tipset to be handled by the sync manager
    pub fn schedule_tipset(&mut self, tipset: Tipset) -> (events: Vec<SyncEvents>)
        requires
            old(self).wf(),
        ensures
            final(self).wf(),
            final(self)@ == schedule(old(self)@, tipset@).0,
            event_views(events@) == schedule(old(self)@, tipset@).1,
    {
        let mut events: Vec<SyncEvents> = Vec::new();
        assert(event_views(events@) =~= Seq::<EventView>::empty());
        // check sync status if indicates tipsets are ready to be synced
        if self.status == SyncStatus::Ready {
            // set the sync status to scheduled
            self.set_status(SyncStatus::Scheduled);
            // send tipsets to be synced
            events.push(SyncEvents::Targets { tipsets: tipset.clone() });
            assert(event_views(events@) =~= seq![EventView::Targets(tipset@)]);
        }
        // check if status indicates SCHEDULED; insert into bucket for future syncing
        if self.status == SyncStatus::Scheduled {
            self.sync_queue.insert(tipset.clone());
        }
        if !self.next_sync_target._is_empty() && self.next_sync_target.same_chain_as(&tipset) {
            self.next_sync_target.add(tipset);
        } else {
            self.sync_queue.insert(tipset);
            self.promote_next(&mut events);
        }
        events
    }

    /// Process results of synced tipsets from the network
    pub fn process_result(&mut self, results: SyncResults) -> (events: Vec<SyncEvents>)
        requires
            old(self).wf(),
        ensures
            final(self).wf(),
            final(self)@ == conclude(old(self)@, results.tipset_view(), results.succeeded()).0,
            event_views(events@) == conclude(
                old(self)@,
                results.tipset_view(),
                results.succeeded(),
            ).1,
    {
        let mut events: Vec<SyncEvents> = Vec::new();
        assert(event_views(events@) =~= Seq::<EventView>::empty());
        if results.success && self.next_sync_target.contains_key(&results.tipsets) {
            self.set_status(SyncStatus::Completed);
            self.next_sync_target = SyncBucket::default();
            self.promote_next(&mut events);
        }
        events
    }

    /// Where no target is active and the bucket set is not empty, makes the
    /// heaviest bucket the target and hands off its heaviest member.
    fn promote_next(&mut self, events: &mut Vec<SyncEvents>)
        requires
            old(self).wf(),
        ensures
            final(self).wf(),
            final(self)@ == promote(old(self)@).0,
            event_views(final(events)@) == event_views(old(events)@) + promote(old(self)@).1,
    {
        if self.next_sync_target._is_empty() && !self.sync_queue._is_empty() {
            proof {
                lemma_heaviest_exists(tops(self@.queue));
                assert(self@.queue[heaviest_bucket(self@.queue)].len() > 0);
            }
            if let Some(target_bucket) = self.sync_queue._pop() {
                self.next_sync_target = target_bucket;
                if let Some(heaviest_target) = self.next_sync_target.heaviest_tipset() {
                    events.push(SyncEvents::Targets { tipsets: heaviest_target });
                    assert(event_views(events@) =~= event_views(old(events)@) + seq![
                        EventView::Targets(heaviest_target@),
                    ]);
                    return ;
                }
            }
        }
        assert(event_views(events@) =~= event_views(old(events)@) + Seq::<EventView>::empty());
    }

    /// Promotes the next target where none is active, and returns the events
    /// for the inbox.
    pub fn _schedule_work_sent(&mut self) -> (events: Vec<SyncEvents>)
        requires
            old(self).wf(),
        ensures
            final(self).wf(),
            final(self)@ == promote(old(self)@).0,
            event_views(events@) == promote(old(self)@).1,
    {
        let mut events: Vec<SyncEvents> = Vec::new();
        assert(event_views(events@) =~= Seq::<EventView>::empty());
        self.promote_next(&mut events);
        assert(event_views(events@) =~= promote(old(self)@).1);
        events
    }

    /// Returns the number of peers
    pub fn peer_count(&self) -> (r: usize)
        ensures
            r == self@.peers.len(),
    {
        self.peer_heads.len()
    }

    /// The head that `peer` announced last.
    pub fn peer_head(&self, peer: &Vec<u8>) -> (r: Option<Tipset>)
        ensures
            option_view(r) == crate::peers::head_of(self@.peers, peer@),
    {
        self.peer_heads.get(peer)
    }

    /// Returns the managed sync status
    pub fn get_status(&self) -> (r: &SyncStatus)
        ensures
            *r == self@.status,
    {
        &self.status
    }

    /// Sets the managed sync status
    pub fn set_status(&mut self, new_status: SyncStatus)
        ensures
            final(self)@ == (ManagerView {
                status: new_status,
                queue: old(self)@.queue,
                target: old(self)@.target,
                peers: old(self)@.peers,
            }),
    {
        self.status = new_status
    }

    /// The bucket set.
    pub fn sync_queue(&self) -> (r: &SyncBucketSet)
        ensures
            r@ == self@.queue,
    {
        &self.sync_queue
    }

    /// The active sync target; empty where none is active.
    pub fn next_sync_target(&self) -> (r: &SyncBucket)
        ensures
            r@ == self@.target,
    {
        &self.next_sync_target
    }
}

/// Puts `t` into a list sorted by epoch, behind the last member whose epoch
/// is not above its own.
fn insert_by_epoch(sorted: &mut Vec<Tipset>, t: Tipset)
    ensures
        views_of(final(sorted)@) == sorted_insert(views_of(old(sorted)@), t@),
{
    let mut p: usize = sorted.len();
    while p > 0 && sorted[p - 1].epoch() > t.epoch()
        invariant
            p <= sorted.len(),
            *sorted == *old(sorted),
            forall|k: int| p <= k < sorted.len() ==> (#[trigger] views_of(sorted@)[k]).epoch > t@.epoch,
        decreases p,
    {
        p -= 1;
    }
    proof {
        lemma_sorted_insert_at(views_of(sorted@), t@, p as int);
    }
    sorted.insert(p, t);
    assert(views_of(sorted@) =~= views_of(old(sorted)@).insert(p as int, t@));
}

/// The epochs of the list do not fall from one member to the next.
pub open spec fn sorted_by_epoch(s: Seq<TipsetView>) -> bool {
    forall|i: int, j: int| 0 <= i < j < s.len() ==> (#[trigger] s[i]).epoch <= (#[trigger] s[j]).epoch
}

} // verus!
