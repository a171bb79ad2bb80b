//! Events and errors of the request/response protocol, and the framing of
//! its messages.
use vstd::prelude::*;

verus! {

pub type RequestId = usize;

/// Errors of the request/response protocol.
#[derive(Debug, PartialEq)]
pub enum RPCError {
    Codec(String),
    Custom(String),
}

impl Clone for RPCError {
    fn clone(&self) -> (r: RPCError)
        ensures
            r == *self,
    {
        match self {
            RPCError::Codec(err) => RPCError::Codec(err.clone()),
            RPCError::Custom(err) => RPCError::Custom(err.clone()),
        }
    }
}

/// The return type used in the behaviour and the resultant event from the protocols handler.
#[derive(Debug, PartialEq)]
pub enum RPCEvent<Req, Res> {
    /// An inbound/outbound request for RPC protocol. The first parameter is a sequential
    /// id which tracks an awaiting substream for the response.
    Request(RequestId, Req),
    /// A response that is being sent or has been received from the RPC protocol. The first parameter returns
    /// that which was sent with the corresponding request, the second is a single chunk of a
    /// response.
    Response(RequestId, Res),
    /// Error in RPC request
    Error(RequestId, RPCError),
}

impl<Req: Clone, Res: Clone> Clone for RPCEvent<Req, Res> {
    fn clone(&self) -> (r: RPCEvent<Req, Res>)
        ensures
            r.request_id() == self.request_id(),
    {
        match self {
            RPCEvent::Request(id, req) => RPCEvent::Request(*id, req.clone()),
            RPCEvent::Response(id, res) => RPCEvent::Response(*id, res.clone()),
            RPCEvent::Error(id, err) => RPCEvent::Error(*id, err.clone()),
        }
    }
}

impl<Req, Res> RPCEvent<Req, Res> {
    /// The id that the event carries.
    pub open spec fn request_id(&self) -> RequestId {
        match *self {
            RPCEvent::Request(id, _) => id,
            RPCEvent::Response(id, _) => id,
            RPCEvent::Error(id, _) => id,
        }
    }

    /// Returns the id which is used to track the substream
    pub fn id(&self) -> (r: usize)
        ensures
            r == self.request_id(),
    {
        match self {
            RPCEvent::Request(id, _) => *id,
            RPCEvent::Response(id, _) => *id,
            RPCEvent::Error(id, _) => *id,
        }
    }
}

/// Messages sent to the user from the RPC protocol. A peer is given by the
/// bytes of its identity.
#[derive(Debug)]
pub enum RPCMessage<Req, Res> {
    RPC(Vec<u8>, RPCEvent<Req, Res>),
    PeerDialed(Vec<u8>),
    PeerDisconnected(Vec<u8>),
}

/// What the behaviour asks of the swarm.
#[derive(Debug)]
pub enum BehaviourAction<Req, Res> {
    /// Send the event to the handler of the peer.
    SendEvent { peer_id: Vec<u8>, event: RPCEvent<Req, Res> },
    /// Report the message to the user.
    GenerateEvent(RPCMessage<Req, Res>),
}

/// The RPC behaviour that gets consumed by the Swarm: a queue of actions,
/// handed out in the order in which they were queued.
#[derive(Debug)]
pub struct RPC<Req, Res> {
    /// Queue of events to processed.
    events: Vec<BehaviourAction<Req, Res>>,
}

impl<Req, Res> RPC<Req, Res> {
    /// The queued actions, the oldest first.
    pub closed spec fn queue(&self) -> Seq<BehaviourAction<Req, Res>> {
        self.events@
    }

    /// Creates a new RPC behaviour
    pub fn new() -> (r: Self)
        ensures
            r.queue() == Seq::<BehaviourAction<Req, Res>>::empty(),
    {
        RPC { events: Vec::new() }
    }

    /// Send an RPCEvent to a peer specified by peer_id.
    pub fn send_rpc(&mut self, peer_id: Vec<u8>, event: RPCEvent<Req, Res>)
        ensures
            final(self).queue() == old(self).queue().push(
                BehaviourAction::SendEvent { peer_id, event },
            ),
    {
        self.events.push(BehaviourAction::SendEvent { peer_id, event });
    }

    /// A connection to the peer was made; it is reported where this node
    /// dialed.
    pub fn inject_connected(&mut self, peer_id: Vec<u8>, dialer: bool)
        ensures
            final(self).queue() == if dialer {
                old(self).queue().push(BehaviourAction::GenerateEvent(RPCMessage::PeerDialed(peer_id)))
            } else {
                old(self).queue()
            },
    {
        if dialer {
            self.events.push(BehaviourAction::GenerateEvent(RPCMessage::PeerDialed(peer_id)));
        }
    }

    /// The connection to the peer was lost; it is reported where this node
    /// had dialed.
    pub fn inject_disconnected(&mut self, peer_id: Vec<u8>, dialer: bool)
        ensures
            final(self).queue() == if dialer {
                old(self).queue().push(
                    BehaviourAction::GenerateEvent(RPCMessage::PeerDisconnected(peer_id)),
                )
            } else {
                old(self).queue()
            },
    {
        if dialer {
            self.events.push(BehaviourAction::GenerateEvent(RPCMessage::PeerDisconnected(peer_id)));
        }
    }

    /// The handler of the peer produced an event: it is reported.
    pub fn inject_node_event(&mut self, peer_id: Vec<u8>, event: RPCEvent<Req, Res>)
        ensures
            final(self).queue() == old(self).queue().push(
                BehaviourAction::GenerateEvent(RPCMessage::RPC(peer_id, event)),
            ),
    {
        self.events.push(BehaviourAction::GenerateEvent(RPCMessage::RPC(peer_id, event)));
    }

    /// Takes the oldest queued action; `None` where nothing is queued.
    pub fn poll(&mut self) -> (r: Option<BehaviourAction<Req, Res>>)
        ensures
            match r {
                Some(action) => old(self).queue().len() > 0 && action == old(self).queue()[0]
                    && final(self).queue() == old(self).queue().remove(0),
                None => old(self).queue().len() == 0 && final(self).queue() == old(self).queue(),
            },
    {
        if self.events.len() > 0 {
            return Some(self.events.remove(0));
        }
        None
    }
}

/// Protocol upgrade for outbound RPC requests. Currently supports Blocksync.
#[derive(Debug)]
pub struct RPCOutbound {
    /// The encoded request
    pub req: Vec<u8>,
}

impl RPCOutbound {
    /// The names of the protocols that the request can speak.
    pub fn protocol_info(&self) -> (r: Vec<&'static str>)
        ensures
            r@.len() == 1,
            r@[0]@ == "/fil/sync/blk/0.0.1"@,
    {
        let mut names: Vec<&'static str> = Vec::new();
        names.push("/fil/sync/blk/0.0.1");
        names
    }

    /// The bytes to write to the peer: the frame of the request.
    pub fn upgrade_outbound(self) -> (r: Vec<u8>)
        ensures
            r@ == self.req@,
    {
        let mut frame: Vec<u8> = Vec::new();
        let mut codec = OutboundCodec;
        codec.encode(&self.req, &mut frame);
        frame
    }
}

/// The frame that a buffer holds: the whole buffer, unless it is empty.
pub open spec fn frame_of(buffer: Seq<u8>) -> Option<Seq<u8>> {
    if buffer.len() == 0 {
        None
    } else {
        Some(buffer)
    }
}

/// The view of an optional byte string.
pub open spec fn bytes_view(frame: Option<Vec<u8>>) -> Option<Seq<u8>> {
    match frame {
        Some(f) => Some(f@),
        None => None,
    }
}

/// Replaces what `dst` holds by the bytes of `item`.
fn write_frame(item: &Vec<u8>, dst: &mut Vec<u8>)
    ensures
        final(dst)@ == item@,
{
    dst.clear();
    let mut i: usize = 0;
    while i < item.len()
        invariant
            i <= item.len(),
            dst@ == item@.take(i as int),
        decreases item.len() - i,
    {
        dst.push(item[i]);
        assert(item@.take(i as int + 1) =~= item@.take(i as int).push(item@[i as int]));
        i += 1;
    }
    assert(item@.take(item.len() as int) =~= item@);
}

/// Takes the frame out of a buffer.
fn read_frame(bz: &Vec<u8>) -> (r: Option<Vec<u8>>)
    ensures
        bytes_view(r) == frame_of(bz@),
{
    if bz.len() == 0 {
        return None;
    }
    let mut out: Vec<u8> = Vec::new();
    write_frame(bz, &mut out);
    Some(out)
}

/// Codec used for inbound connections. Frames the encoded responses that are
/// sent, and takes the encoded requests out of what was received.
#[derive(Debug)]
pub struct InboundCodec;

/// Codec used for outbound connections. Frames the encoded requests that are
/// sent, and takes the encoded responses out of what was received.
#[derive(Debug)]
pub struct OutboundCodec;

impl InboundCodec {
    /// Puts the encoded response `item` into `dst`, in place of what it held.
    pub fn encode(&mut self, item: &Vec<u8>, dst: &mut Vec<u8>)
        ensures
            final(dst)@ == item@,
    {
        write_frame(item, dst)
    }

    /// The encoded request that `bz` holds; `None` for an empty buffer.
    pub fn decode(&mut self, bz: &Vec<u8>) -> (r: Option<Vec<u8>>)
        ensures
            bytes_view(r) == frame_of(bz@),
    {
        read_frame(bz)
    }
}

impl OutboundCodec {
    /// Puts the encoded request `item` into `dst`, in place of what it held.
    pub fn encode(&mut self, item: &Vec<u8>, dst: &mut Vec<u8>)
        ensures
            final(dst)@ == item@,
    {
        write_frame(item, dst)
    }

    /// The encoded response that `bz` holds; `None` for an empty buffer.
    pub fn decode(&mut self, bz: &Vec<u8>) -> (r: Option<Vec<u8>>)
        ensures
            bytes_view(r) == frame_of(bz@),
    {
        read_frame(bz)
    }
}

/// The block sync protocol: its codecs.
#[derive(Debug)]
pub struct BlockSyncProtocol;

impl BlockSyncProtocol {
    /// The codec for inbound connections.
    pub fn inbound_codec(&self) -> InboundCodec {
        InboundCodec
    }

    /// The codec for outbound connections.
    pub fn outbound_codec(&self) -> OutboundCodec {
        OutboundCodec
    }
}

} // verus!
