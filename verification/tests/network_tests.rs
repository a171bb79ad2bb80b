use chain_sync::manager::{SyncManager, SyncStatus};
use chain_sync::network_handler::{after_fetch, route, HandlerAction, NetworkEvent};
use chain_sync::rpc::{
    BehaviourAction, BlockSyncProtocol, RPCError, RPCEvent, RPCMessage, RPCOutbound, RPC,
};
use chain_sync::tipset::{Tipset, TipsetKeys};

fn peer() -> Vec<u8> {
    vec![0x12, 0x20, 7]
}

fn claimed() -> TipsetKeys {
    TipsetKeys::new(vec![b"head".to_vec()])
}

fn hello() -> NetworkEvent {
    NetworkEvent::Hello { source: peer(), heaviest_tip_set: claimed() }
}

fn head() -> Tipset {
    Tipset::new(claimed(), TipsetKeys::new(vec![b"parent".to_vec()]), vec![9], 3)
}

fn is_forward(a: &HandlerAction) -> bool {
    matches!(a, HandlerAction::ForwardEvent)
}

#[test]
fn responses_go_to_the_rpc_channel() {
    for full in [false, true] {
        let actions = route(&NetworkEvent::RPCResponse { req_id: 41 }, full);
        assert_eq!(actions.len(), 1);
        match &actions[0] {
            HandlerAction::SendResponse { req_id } => assert_eq!(*req_id, 41),
            _ => panic!("not sent to the response channel"),
        }
    }
}

#[test]
fn greetings_are_never_dropped() {
    for full in [false, true] {
        let actions = route(&hello(), full);
        assert_eq!(actions.len(), 2);
        match &actions[0] {
            HandlerAction::AddPeer { peer: p } => assert_eq!(*p, peer()),
            _ => panic!("peer not registered first"),
        }
        match &actions[1] {
            HandlerAction::FetchTipset { peer: p, keys } => {
                assert_eq!(*p, peer());
                assert!(keys.equals(&claimed()));
            }
            _ => panic!("head not fetched"),
        }
    }
}

#[test]
fn fetched_head_goes_to_the_manager() {
    let actions = after_fetch(&peer(), Some(head()), false);
    assert_eq!(actions.len(), 2);
    match &actions[0] {
        HandlerAction::InformNewHead { peer: p, head: h } => {
            assert_eq!(*p, peer());
            assert!(h.same_as(&head()));
        }
        _ => panic!("manager not informed"),
    }
    assert!(is_forward(&actions[1]));
    // with a full event channel the greeting is not forwarded, the head
    // still reaches the manager
    let actions = after_fetch(&peer(), Some(head()), true);
    assert_eq!(actions.len(), 1);
    assert!(matches!(&actions[0], HandlerAction::InformNewHead { .. }));

    let mut manager = SyncManager::new();
    for a in after_fetch(&peer(), Some(head()), true) {
        if let HandlerAction::InformNewHead { peer: p, head: h } = a {
            manager.set_peer_head(&p, h);
        }
    }
    assert_eq!(manager.peer_count(), 1);
    assert_eq!(*manager.get_status(), SyncStatus::Ready);
}

#[test]
fn failed_fetch_evicts_the_peer() {
    for full in [false, true] {
        let actions = after_fetch(&peer(), None, full);
        assert_eq!(actions.len(), 1);
        match &actions[0] {
            HandlerAction::RemovePeer { peer: p } => assert_eq!(*p, peer()),
            _ => panic!("peer not removed"),
        }
    }
}

#[test]
fn other_events_are_dropped_when_the_channel_is_full() {
    assert!(route(&NetworkEvent::Other, true).is_empty());
    let actions = route(&NetworkEvent::Other, false);
    assert_eq!(actions.len(), 1);
    assert!(is_forward(&actions[0]));
    // the handler goes on after a drop
    assert!(route(&NetworkEvent::Other, true).is_empty());
    assert_eq!(route(&hello(), true).len(), 2);
    assert_eq!(route(&NetworkEvent::Other, false).len(), 1);
}

#[test]
fn event_id() {
    let req: RPCEvent<u8, u8> = RPCEvent::Request(4, 1);
    let res: RPCEvent<u8, u8> = RPCEvent::Response(5, 2);
    let err: RPCEvent<u8, u8> = RPCEvent::Error(6, RPCError::Custom("gone".to_string()));
    assert_eq!(req.id(), 4);
    assert_eq!(res.id(), 5);
    assert_eq!(err.id(), 6);
    assert_ne!(RPCError::Codec("x".to_string()), RPCError::Custom("x".to_string()));
}

#[test]
fn codecs_frame_bytes() {
    let mut inbound = BlockSyncProtocol.inbound_codec();
    let mut outbound = BlockSyncProtocol.outbound_codec();
    let mut dst = vec![9u8, 9, 9];
    inbound.encode(&vec![1, 2], &mut dst);
    assert_eq!(dst, vec![1, 2]);
    outbound.encode(&vec![3], &mut dst);
    assert_eq!(dst, vec![3]);
    assert_eq!(inbound.decode(&Vec::new()), None);
    assert_eq!(outbound.decode(&Vec::new()), None);
    assert_eq!(inbound.decode(&vec![7, 8]), Some(vec![7, 8]));
    assert_eq!(outbound.decode(&vec![7]), Some(vec![7]));
}

#[test]
fn behaviour_hands_out_actions_in_order() {
    let mut rpc: RPC<u8, u8> = RPC::new();
    assert!(rpc.poll().is_none());
    rpc.send_rpc(vec![1], RPCEvent::Request(1, 10));
    rpc.inject_connected(vec![2], false);
    rpc.inject_connected(vec![3], true);
    rpc.inject_disconnected(vec![4], false);
    rpc.inject_disconnected(vec![5], true);
    rpc.inject_node_event(vec![6], RPCEvent::Response(2, 20));
    match rpc.poll() {
        Some(BehaviourAction::SendEvent { peer_id, event }) => {
            assert_eq!(peer_id, vec![1]);
            assert_eq!(event, RPCEvent::Request(1, 10));
        }
        _ => panic!("the request is the oldest action"),
    }
    match rpc.poll() {
        Some(BehaviourAction::GenerateEvent(RPCMessage::PeerDialed(p))) => assert_eq!(p, vec![3]),
        _ => panic!("the dialed peer comes next"),
    }
    match rpc.poll() {
        Some(BehaviourAction::GenerateEvent(RPCMessage::PeerDisconnected(p))) => {
            assert_eq!(p, vec![5])
        }
        _ => panic!("the lost peer comes next"),
    }
    match rpc.poll() {
        Some(BehaviourAction::GenerateEvent(RPCMessage::RPC(p, event))) => {
            assert_eq!(p, vec![6]);
            assert_eq!(event.id(), 2);
        }
        _ => panic!("the handler's event comes last"),
    }
    assert!(rpc.poll().is_none());
}

#[test]
fn outbound_protocol_name() {
    let out = RPCOutbound { req: vec![1, 2, 3] };
    assert_eq!(out.protocol_info(), vec!["/fil/sync/blk/0.0.1"]);
    assert_eq!(out.upgrade_outbound(), vec![1, 2, 3]);
}
