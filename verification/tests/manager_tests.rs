use chain_sync::manager::{SyncEvents, SyncManager, SyncResults, SyncStatus, MIN_PEERS};
use chain_sync::tipset::{Tipset, TipsetKeys};
use num_bigint::BigUint;

fn ids(id: &[u8]) -> TipsetKeys {
    TipsetKeys::new(vec![id.to_vec()])
}

fn head(key: &[u8], parent: &[u8], weight: u64, epoch: u64) -> Tipset {
    Tipset::new(ids(key), ids(parent), BigUint::from(weight).to_bytes_be(), epoch)
}

fn peer(n: u8) -> Vec<u8> {
    vec![0x12, 0x20, n]
}

fn new_tipset(e: &SyncEvents) -> Tipset {
    match e {
        SyncEvents::NewTipsets { tipsets } => tipsets.clone(),
        _ => panic!("not a NewTipsets event"),
    }
}

fn target(e: &SyncEvents) -> Tipset {
    match e {
        SyncEvents::Targets { tipsets } => tipsets.clone(),
        _ => panic!("not a Targets event"),
    }
}

#[test]
fn new_manager_is_in_init() {
    let m = SyncManager::new();
    assert_eq!(*m.get_status(), SyncStatus::Init);
    assert_eq!(m.peer_count(), 0);
    assert!(m.sync_queue()._is_empty());
    assert!(m.next_sync_target()._is_empty());
    let d = SyncManager::default();
    assert_eq!(*d.get_status(), SyncStatus::Init);
    assert_eq!(MIN_PEERS, 1);
}

#[test]
fn without_peers_no_event_makes_ready() {
    let t = head(b"a", b"z", 3, 1);
    let events = vec![
        SyncEvents::NewTipsets { tipsets: t.clone() },
        SyncEvents::_Worker { _tipsets: t.clone() },
        SyncEvents::Targets { tipsets: t.clone() },
        SyncEvents::Results { _tipsets: t.clone(), _success: true },
        SyncEvents::Results { _tipsets: t.clone(), _success: false },
        SyncEvents::Results { _tipsets: head(b"q", b"r", 1, 1), _success: true },
    ];
    for first in events.iter() {
        let mut m = SyncManager::new();
        m._sync_triage(first.clone());
        assert_ne!(*m.get_status(), SyncStatus::Ready);
        for e in events.iter() {
            m._sync_triage(e.clone());
            assert_ne!(*m.get_status(), SyncStatus::Ready);
            assert_eq!(m.peer_count(), 0);
        }
    }
}

#[test]
fn first_peer_head_makes_ready() {
    let mut m = SyncManager::new();
    let t = head(b"a", b"z", 3, 1);
    let events = m.set_peer_head(&peer(1), t.clone());
    assert_eq!(*m.get_status(), SyncStatus::Ready);
    assert_eq!(m.peer_count(), 1);
    assert_eq!(events.len(), 1);
    assert!(new_tipset(&events[0]).same_as(&t));
    assert_eq!(m.sync_queue().len(), 1);
}

#[test]
fn later_peer_heads_are_passed_on() {
    let mut m = SyncManager::new();
    m.set_peer_head(&peer(1), head(b"a", b"z", 3, 1));
    let light = head(b"b", b"y", 1, 1);
    let events = m.set_peer_head(&peer(2), light.clone());
    assert_eq!(*m.get_status(), SyncStatus::Ready);
    assert_eq!(m.peer_count(), 2);
    assert_eq!(events.len(), 1);
    assert!(new_tipset(&events[0]).same_as(&light));
    // the selection ran once: the second head is not in the bucket set yet
    assert_eq!(m.sync_queue().len(), 1);
}

#[test]
fn second_head_of_a_peer_replaces_the_first() {
    let mut m = SyncManager::new();
    let first = head(b"a", b"z", 3, 1);
    let second = head(b"b", b"a", 4, 2);
    m.set_peer_head(&peer(1), first.clone());
    assert!(m.peer_head(&peer(1)).unwrap().same_as(&first));
    m.set_peer_head(&peer(1), second.clone());
    assert_eq!(m.peer_count(), 1);
    assert!(m.peer_head(&peer(1)).unwrap().same_as(&second));
    assert!(m.peer_head(&peer(2)).is_none());
}

#[test]
fn three_peers_two_forks() {
    let mut m = SyncManager::new();
    // one fork: a <- b, of weight 3; another: x, of weight 7
    let a = head(b"a", b"g", 2, 1);
    let b = head(b"b", b"a", 3, 2);
    let x = head(b"x", b"w", 7, 2);
    let e1 = m.set_peer_head(&peer(1), a.clone());
    let e2 = m.set_peer_head(&peer(2), b.clone());
    let e3 = m.set_peer_head(&peer(3), x.clone());
    assert_eq!((e1.len(), e2.len(), e3.len()), (1, 1, 1));
    assert_eq!(m.peer_count(), 3);
    let best = m.select_sync_target().unwrap();
    assert!(best.same_as(&x));
    assert_eq!(BigUint::from_bytes_be(best.weight()), BigUint::from(7u8));
    assert!(m.multiple_chains_seen());
    assert_eq!(m.sync_queue().len(), 2);
    assert_eq!(m.sync_queue().buckets()[0].len(), 2);
    assert_eq!(m.sync_queue().buckets()[1].len(), 1);
}

#[test]
fn one_fork_is_not_flagged() {
    let mut m = SyncManager::new();
    m.set_peer_head(&peer(1), head(b"a", b"g", 2, 1));
    m.set_peer_head(&peer(2), head(b"b", b"a", 3, 2));
    let best = m.select_sync_target().unwrap();
    assert!(best.key().equals(&ids(b"b")));
    assert!(!m.multiple_chains_seen());
}

#[test]
fn selection_without_peers_finds_nothing() {
    let mut m = SyncManager::new();
    assert!(m.select_sync_target().is_none());
    assert!(!m.multiple_chains_seen());
    assert_eq!(*m.get_status(), SyncStatus::Init);
}

#[test]
fn selection_inserts_oldest_first() {
    let mut m = SyncManager::new();
    m.set_status(SyncStatus::Scheduled);
    m.set_peer_head(&peer(1), head(b"n", b"m", 3, 9));
    m.set_peer_head(&peer(2), head(b"c", b"b", 5, 4));
    m.set_peer_head(&peer(3), head(b"k", b"j", 1, 9));
    m.set_peer_head(&peer(4), head(b"e", b"d", 1, 4));
    assert!(m.sync_queue()._is_empty());
    m.select_sync_target();
    let q = m.sync_queue();
    assert_eq!(q.len(), 4);
    assert!(q.buckets()[0].get(0).unwrap().key().equals(&ids(b"c")));
    assert!(q.buckets()[1].get(0).unwrap().key().equals(&ids(b"e")));
    assert!(q.buckets()[2].get(0).unwrap().key().equals(&ids(b"n")));
    assert!(q.buckets()[3].get(0).unwrap().key().equals(&ids(b"k")));
}

#[test]
fn ready_schedules_and_hands_off() {
    let mut m = SyncManager::new();
    let t = head(b"a", b"z", 3, 1);
    let events = m.set_peer_head(&peer(1), t.clone());
    let out = m._sync_triage(events[0].clone());
    assert!(out.dispatch.is_none());
    assert_eq!(*m.get_status(), SyncStatus::Scheduled);
    // the hand-off of the tipset, and that of the promoted bucket
    assert_eq!(out.events.len(), 2);
    assert!(target(&out.events[0]).same_as(&t));
    assert!(target(&out.events[1]).same_as(&t));
    assert!(m.sync_queue()._is_empty());
    assert_eq!(m.next_sync_target().len(), 1);

    // a Targets event is handed to the worker
    let out = m._sync_triage(out.events[0].clone());
    assert!(out.events.is_empty());
    assert!(out.dispatch.unwrap().same_as(&t));
    assert_eq!(*m.get_status(), SyncStatus::Scheduled);
}

#[test]
fn scheduled_extends_the_active_target() {
    let mut m = SyncManager::new();
    let t = head(b"a", b"z", 3, 1);
    let events = m.set_peer_head(&peer(1), t.clone());
    m._sync_triage(events[0].clone());
    // a child of the active target: goes to the bucket set, being scheduled,
    // and extends the target
    let child = head(b"b", b"a", 4, 2);
    let events = m.schedule_tipset(child.clone());
    assert!(events.is_empty());
    assert_eq!(m.next_sync_target().len(), 2);
    assert_eq!(m.sync_queue().len(), 1);
    // a tipset of another fork is queued
    let other = head(b"x", b"w", 9, 2);
    let events = m.schedule_tipset(other.clone());
    assert!(events.is_empty());
    assert_eq!(m.next_sync_target().len(), 2);
    assert_eq!(m.sync_queue().len(), 2);
    assert_eq!(*m.get_status(), SyncStatus::Scheduled);
}

#[test]
fn init_schedule_promotes_without_status_change() {
    let mut m = SyncManager::new();
    let t = head(b"a", b"z", 3, 1);
    let events = m.schedule_tipset(t.clone());
    assert_eq!(*m.get_status(), SyncStatus::Init);
    assert_eq!(events.len(), 1);
    assert!(target(&events[0]).same_as(&t));
    assert_eq!(m.next_sync_target().len(), 1);
    assert!(m.sync_queue()._is_empty());
}

#[test]
fn success_completes_and_promotes_the_next() {
    let mut m = SyncManager::new();
    let t = head(b"a", b"z", 3, 1);
    let events = m.set_peer_head(&peer(1), t.clone());
    m._sync_triage(events[0].clone());
    m.schedule_tipset(head(b"x", b"w", 9, 2));
    m.schedule_tipset(head(b"m", b"l", 5, 2));
    assert_eq!(m.sync_queue().len(), 2);

    let events = m.process_result(SyncResults::new(t.clone(), true));
    assert_eq!(*m.get_status(), SyncStatus::Completed);
    assert_eq!(events.len(), 1);
    assert!(target(&events[0]).key().equals(&ids(b"x")));
    assert!(m.next_sync_target().get(0).unwrap().key().equals(&ids(b"x")));
    assert_eq!(m.sync_queue().len(), 1);

    // a second report on the finished target is stale
    let events = m.process_result(SyncResults::new(t.clone(), true));
    assert!(events.is_empty());
    assert!(m.next_sync_target().get(0).unwrap().key().equals(&ids(b"x")));
    assert_eq!(m.sync_queue().len(), 1);
}

#[test]
fn success_with_empty_queue_clears_the_target() {
    let mut m = SyncManager::new();
    let t = head(b"a", b"z", 3, 1);
    let events = m.set_peer_head(&peer(1), t.clone());
    m._sync_triage(events[0].clone());
    let out = m._sync_triage(SyncEvents::Results { _tipsets: t.clone(), _success: true });
    assert!(out.events.is_empty());
    assert!(out.dispatch.is_none());
    assert_eq!(*m.get_status(), SyncStatus::Completed);
    assert!(m.next_sync_target()._is_empty());
    // the next tipset is promoted at once
    let next = head(b"b", b"a", 4, 2);
    let events = m.schedule_tipset(next.clone());
    assert_eq!(events.len(), 1);
    assert!(target(&events[0]).same_as(&next));
    assert_eq!(*m.get_status(), SyncStatus::Completed);
}

#[test]
fn failure_keeps_the_target() {
    let mut m = SyncManager::new();
    let t = head(b"a", b"z", 3, 1);
    let events = m.set_peer_head(&peer(1), t.clone());
    m._sync_triage(events[0].clone());
    m.schedule_tipset(head(b"x", b"w", 9, 2));
    let events = m.process_result(SyncResults::new(t.clone(), false));
    assert!(events.is_empty());
    assert_eq!(*m.get_status(), SyncStatus::Scheduled);
    assert!(m.next_sync_target().get(0).unwrap().key().equals(&ids(b"a")));
    assert_eq!(m.sync_queue().len(), 1);
}

#[test]
fn unknown_result_is_ignored() {
    let mut m = SyncManager::new();
    let t = head(b"a", b"z", 3, 1);
    let events = m.set_peer_head(&peer(1), t.clone());
    m._sync_triage(events[0].clone());
    let events = m.process_result(SyncResults::new(head(b"q", b"r", 1, 1), true));
    assert!(events.is_empty());
    assert_eq!(*m.get_status(), SyncStatus::Scheduled);
    assert_eq!(m.next_sync_target().len(), 1);

    // no target at all
    let mut m = SyncManager::new();
    let events = m.process_result(SyncResults::new(t.clone(), true));
    assert!(events.is_empty());
    assert_eq!(*m.get_status(), SyncStatus::Init);
}

#[test]
fn work_sent_promotes_when_idle() {
    let mut m = SyncManager::new();
    assert!(m._schedule_work_sent().is_empty());
    m.set_peer_head(&peer(1), head(b"a", b"z", 3, 1));
    m.set_peer_head(&peer(2), head(b"x", b"w", 9, 1));
    m.select_sync_target();
    assert_eq!(m.sync_queue().len(), 2);
    let events = m._schedule_work_sent();
    assert_eq!(events.len(), 1);
    assert!(target(&events[0]).key().equals(&ids(b"x")));
    assert_eq!(m.sync_queue().len(), 1);
    assert!(m._schedule_work_sent().is_empty());
}
