//! The decisions of the network handler: what is to be done with an inbound
//! network event, and what follows the fetch that a peer greeting starts.
//!
//! The handler itself owns channels and awaits the network. It asks these
//! functions what to do and performs the answer, action by action.
use crate::bucket::option_view;
use crate::rpc::RequestId;
use crate::tipset::{copy_bytes, Tipset, TipsetKeys, TipsetView};
use vstd::prelude::*;

verus! {

/// An inbound network event, as far as the handler reads it.
#[derive(Debug)]
pub enum NetworkEvent {
    /// The response to an earlier request
    RPCResponse { req_id: RequestId },
    /// The greeting of the peer `source`, with the head that it claims
    Hello { source: Vec<u8>, heaviest_tip_set: TipsetKeys },
    /// Any other event
    Other,
}

/// What the handler is to do.
#[derive(Debug)]
pub enum HandlerAction {
    /// Send the request id and the response to the response channel.
    SendResponse { req_id: RequestId },
    /// Register the peer.
    AddPeer { peer: Vec<u8> },
    /// Fetch the tipset with these keys from the peer, and report the
    /// outcome to `after_fetch`.
    FetchTipset { peer: Vec<u8>, keys: TipsetKeys },
    /// Hand the fetched head of the peer to the sync manager.
    InformNewHead { peer: Vec<u8>, head: Tipset },
    /// Remove the peer.
    RemovePeer { peer: Vec<u8> },
    /// Send the event to the event channel.
    ForwardEvent,
}

/// A network event over the views of what it holds.
pub enum NetworkEventView {
    RPCResponse(RequestId),
    Hello(Seq<u8>, Set<Seq<u8>>),
    Other,
}

/// An action over the views of what it holds.
pub enum ActionView {
    SendResponse(RequestId),
    AddPeer(Seq<u8>),
    FetchTipset(Seq<u8>, Set<Seq<u8>>),
    InformNewHead(Seq<u8>, TipsetView),
    RemovePeer(Seq<u8>),
    ForwardEvent,
}

impl View for NetworkEvent {
    type V = NetworkEventView;

    open spec fn view(&self) -> NetworkEventView {
        match *self {
            NetworkEvent::RPCResponse { req_id } => NetworkEventView::RPCResponse(req_id),
            NetworkEvent::Hello { source, heaviest_tip_set } => NetworkEventView::Hello(
                source@,
                heaviest_tip_set@,
            ),
            NetworkEvent::Other => NetworkEventView::Other,
        }
    }
}

impl View for HandlerAction {
    type V = ActionView;

    open spec fn view(&self) -> ActionView {
        match *self {
            HandlerAction::SendResponse { req_id } => ActionView::SendResponse(req_id),
            HandlerAction::AddPeer { peer } => ActionView::AddPeer(peer@),
            HandlerAction::FetchTipset { peer, keys } => ActionView::FetchTipset(peer@, keys@),
            HandlerAction::InformNewHead { peer, head } => ActionView::InformNewHead(peer@, head@),
            HandlerAction::RemovePeer { peer } => ActionView::RemovePeer(peer@),
            HandlerAction::ForwardEvent => ActionView::ForwardEvent,
        }
    }
}

/// The views of a list of actions, in order.
pub open spec fn action_views(actions: Seq<HandlerAction>) -> Seq<ActionView> {
    Seq::new(actions.len(), |i: int| actions[i]@)
}

/// What an inbound event asks for. A response goes to the response channel.
/// A greeting has the peer registered and its claimed head fetched, whatever
/// the state of the event channel. Any other event goes to the event
/// channel, or is dropped where that channel is full.
pub open spec fn routed(event: NetworkEventView, event_channel_full: bool) -> Seq<ActionView> {
    match event {
        NetworkEventView::RPCResponse(req_id) => seq![ActionView::SendResponse(req_id)],
        NetworkEventView::Hello(source, keys) => seq![
            ActionView::AddPeer(source),
            ActionView::FetchTipset(source, keys),
        ],
        NetworkEventView::Other => if event_channel_full {
            Seq::empty()
        } else {
            seq![ActionView::ForwardEvent]
        },
    }
}

/// What follows the fetch of the head that peer `source` claimed. A fetched
/// head is handed to the sync manager, and the greeting goes to the event
/// channel unless that channel is full. After a failed fetch the peer is
/// removed and the greeting is dropped.
pub open spec fn fetched(source: Seq<u8>, head: Option<TipsetView>, event_channel_full: bool) -> Seq<
    ActionView,
> {
    match head {
        Some(head) => if event_channel_full {
            seq![ActionView::InformNewHead(source, head)]
        } else {
            seq![ActionView::InformNewHead(source, head), ActionView::ForwardEvent]
        },
        None => seq![ActionView::RemovePeer(source)],
    }
}

/// Decides what is to be done with an inbound event.
pub fn route(event: &NetworkEvent, event_channel_full: bool) -> (actions: Vec<HandlerAction>)
    ensures
        action_views(actions@) == routed(event@, event_channel_full),
{
    let mut actions: Vec<HandlerAction> = Vec::new();
    match event {
        NetworkEvent::RPCResponse { req_id } => {
            actions.push(HandlerAction::SendResponse { req_id: *req_id });
        },
        NetworkEvent::Hello { source, heaviest_tip_set } => {
            actions.push(HandlerAction::AddPeer { peer: copy_bytes(source) });
            actions.push(
                HandlerAction::FetchTipset {
                    peer: copy_bytes(source),
                    keys: heaviest_tip_set.clone(),
                },
            );
        },
        NetworkEvent::Other => {
            if !event_channel_full {
                actions.push(HandlerAction::ForwardEvent);
            }
        },
    }
    assert(action_views(actions@) =~= routed(event@, event_channel_full));
    actions
}

/// Decides what follows the fetch of the head that peer `source` claimed;
/// `head` is the fetched tipset, or `None` where the fetch failed.
pub fn after_fetch(source: &Vec<u8>, head: Option<Tipset>, event_channel_full: bool) -> (actions:
    Vec<HandlerAction>)
    ensures
        action_views(actions@) == fetched(source@, option_view(head), event_channel_full),
{
    let mut actions: Vec<HandlerAction> = Vec::new();
    match head {
        Some(head) => {
            actions.push(HandlerAction::InformNewHead { peer: copy_bytes(source), head });
            if !event_channel_full {
                actions.push(HandlerAction::ForwardEvent);
            }
        },
        None => {
            actions.push(HandlerAction::RemovePeer { peer: copy_bytes(source) });
        },
    }
    assert(action_views(actions@) =~= fetched(source@, option_view(head), event_channel_full));
    actions
}

/// A greeting is never dropped, and an event other than a response or a
/// greeting is dropped exactly when the event channel is full.
pub proof fn lemma_only_other_events_are_dropped(event: NetworkEventView, full: bool)
    ensures
        routed(event, full).len() == 0 <==> event is Other && full,
        event is Hello ==> routed(event, full) == routed(event, !full),
{
}

} // verus!
