//! One session: its identity, its options, its heartbeat timestamps, its
//! callback slots and its polling transport's outbound queue. Callbacks are
//! held as opaque handles; a method that would invoke one returns the handle
//! instead, and the embedder dispatches it.
use vstd::prelude::*;

use crate::packet::{
    encode_payload,
    spec_encode_payload,
    views,
    Packet,
    PacketV,
    Payload,
    ID,
};

verus! {

/// Why a session was closed.
#[derive(Copy, Clone, Debug, PartialEq, Eq, Structural)]
pub enum CloseReason {
    /// The client sent a Close packet.
    ClientRequested,
    /// No pong arrived within the ping timeout.
    PingTimeout,
    /// The whole server is closing.
    ServerClosing,
}

impl CloseReason {
    /// The reason as the string handed to `on_close`.
    pub fn text(&self) -> (r: &'static str)
        ensures
            *self == CloseReason::ClientRequested ==> r@ == "close requested by client"@,
            *self == CloseReason::PingTimeout ==> r@ == "ping timeout"@,
            *self == CloseReason::ServerClosing ==> r@ == "closing server"@,
    {
        proof {
            reveal_strlit("close requested by client");
            reveal_strlit("ping timeout");
            reveal_strlit("closing server");
        }
        match self {
            CloseReason::ClientRequested => "close requested by client",
            CloseReason::PingTimeout => "ping timeout",
            CloseReason::ServerClosing => "closing server",
        }
    }
}

/// A session's transport: the polling kind holds the outbound queue that
/// the next poll will drain.
pub enum Transport {
    Polling(Vec<Packet>),
}

/// One session.
pub struct Socket {
    pub transport: Transport,
    pub sid: String,
    pub last_pong: u64,
    pub last_ping: u64,
    pub closed: bool,
    pub b64: bool,
    pub xhr2: bool,
    pub jsonp: Option<i32>,
    pub on_close: Option<u64>,
    pub on_message: Option<u64>,
    pub on_packet: Option<u64>,
    pub on_flush: Option<u64>,
}

/// What one drain of the outbound queue produced: the encoded payload, the
/// packets inside it in order, and the flush callback to hand them to, if
/// one is registered and the session is open.
pub struct Drain {
    pub payload: Payload,
    pub packets: Vec<Packet>,
    pub on_flush: Option<u64>,
}

impl Socket {
    /// The models of the packets waiting in the outbound queue.
    pub open spec fn write_buf(&self) -> Seq<PacketV> {
        match self.transport {
            Transport::Polling(q) => views(q@),
        }
    }

    /// Everything of the socket but the queue and the pong timestamp.
    pub open spec fn same_but_buf_and_pong(&self, other: Socket) -> bool {
        &&& self.sid@ == other.sid@
        &&& self.last_ping == other.last_ping
        &&& self.closed == other.closed
        &&& self.b64 == other.b64
        &&& self.xhr2 == other.xhr2
        &&& self.jsonp == other.jsonp
        &&& self.on_close == other.on_close
        &&& self.on_message == other.on_message
        &&& self.on_packet == other.on_packet
        &&& self.on_flush == other.on_flush
    }

    /// Well-formed: the JSONP index is non-negative, the XHR2 capability is
    /// the complement of the Base64 flag, and every queued packet's data
    /// leaves room for its tag byte.
    pub open spec fn wf(&self) -> bool {
        &&& (self.jsonp matches Some(j) ==> j >= 0)
        &&& self.xhr2 == !self.b64
        &&& forall|k: int|
            0 <= k < self.write_buf().len() ==> (#[trigger] self.write_buf()[k]).data.len()
                < usize::MAX
    }

    /// A fresh open session: both heartbeat timestamps start at `now`, the
    /// queue is empty, no callback is registered.
    pub fn new(sid: String, b64: bool, jsonp: Option<i32>, now: u64) -> (r: Socket)
        requires
            jsonp matches Some(j) ==> j >= 0,
        ensures
            r.wf(),
            r.sid@ == sid@,
            r.b64 == b64,
            r.xhr2 == !b64,
            r.jsonp == jsonp,
            !r.closed,
            r.last_pong == now,
            r.last_ping == now,
            r.write_buf() == Seq::<PacketV>::empty(),
            r.on_close is None && r.on_message is None && r.on_packet is None && r.on_flush
                is None,
    {
        let r = Socket {
            transport: Transport::Polling(Vec::new()),
            sid,
            last_pong: now,
            last_ping: now,
            closed: false,
            b64,
            xhr2: !b64,
            jsonp,
            on_close: None,
            on_message: None,
            on_packet: None,
            on_flush: None,
        };
        proof {
            assert(r.write_buf() =~= Seq::<PacketV>::empty());
        }
        r
    }

    /// The session id, as a fresh string.
    pub fn id(&self) -> (r: String)
        ensures
            r@ == self.sid@,
    {
        self.sid.clone()
    }

    /// A sign of life arrived: move the pong timestamp forward to `now`.
    /// It never moves backward.
    pub fn reset_timeout(&mut self, now: u64)
        ensures
            final(self).last_pong == if now > old(self).last_pong {
                now
            } else {
                old(self).last_pong
            },
            final(self).same_but_buf_and_pong(*old(self)),
            final(self).write_buf() == old(self).write_buf(),
            old(self).wf() ==> final(self).wf(),
    {
        if now > self.last_pong {
            self.last_pong = now;
        }
    }

    /// A ping went out: move the ping timestamp forward to `now`. It never
    /// moves backward.
    pub fn reset_last_ping(&mut self, now: u64)
        ensures
            final(self).last_ping == if now > old(self).last_ping {
                now
            } else {
                old(self).last_ping
            },
            final(self).last_pong == old(self).last_pong,
            final(self).sid@ == old(self).sid@,
            final(self).closed == old(self).closed,
            final(self).b64 == old(self).b64,
            final(self).xhr2 == old(self).xhr2,
            final(self).jsonp == old(self).jsonp,
            final(self).on_close == old(self).on_close,
            final(self).on_message == old(self).on_message,
            final(self).on_packet == old(self).on_packet,
            final(self).on_flush == old(self).on_flush,
            final(self).write_buf() == old(self).write_buf(),
            old(self).wf() ==> final(self).wf(),
    {
        if now > self.last_ping {
            self.last_ping = now;
        }
    }

    /// When the last pong arrived.
    pub fn get_last_pong(&self) -> (r: u64)
        ensures
            r == self.last_pong,
    {
        self.last_pong
    }

    /// When the last ping was sent.
    pub fn get_last_ping(&self) -> (r: u64)
        ensures
            r == self.last_ping,
    {
        self.last_ping
    }

    /// Whether the client forced Base64 for binary data.
    pub fn b64(&self) -> (r: bool)
        ensures
            r == self.b64,
    {
        self.b64
    }

    /// Whether binary data may go out in the XHR2 framing.
    pub fn xhr2(&self) -> (r: bool)
        ensures
            r == self.xhr2,
    {
        self.xhr2
    }

    /// The JSONP index the client asked for, if any.
    pub fn jsonp_index(&self) -> (r: Option<i32>)
        ensures
            r == self.jsonp,
    {
        self.jsonp
    }

    /// Whether the session is closed.
    pub fn closed(&self) -> (r: bool)
        ensures
            r == self.closed,
    {
        self.closed
    }

    /// The close callback that one `close` call fires: the registered slot
    /// the first time, nothing once the session is already closed.
    pub open spec fn spec_close_fires(&self) -> Option<u64> {
        if self.closed {
            None
        } else {
            self.on_close
        }
    }

    /// Closes the session: marks it closed and discards the outbound
    /// queue. Returns the close callback to invoke, if the session was
    /// still open and one is registered; on an already-closed session it
    /// does nothing and returns nothing.
    pub fn close(&mut self, reason: CloseReason) -> (r: Option<u64>)
        ensures
            r == old(self).spec_close_fires(),
            final(self).closed,
            old(self).closed ==> *final(self) == *old(self),
            !old(self).closed ==> final(self).write_buf() == Seq::<PacketV>::empty(),
            final(self).sid@ == old(self).sid@,
            final(self).last_pong == old(self).last_pong,
            final(self).last_ping == old(self).last_ping,
            final(self).b64 == old(self).b64,
            final(self).xhr2 == old(self).xhr2,
            final(self).jsonp == old(self).jsonp,
            final(self).on_close == old(self).on_close,
            final(self).on_message == old(self).on_message,
            final(self).on_packet == old(self).on_packet,
            final(self).on_flush == old(self).on_flush,
            old(self).wf() ==> final(self).wf(),
    {
        if self.closed {
            return None;
        }
        self.closed = true;
        self.transport = Transport::Polling(Vec::new());
        proof {
            assert(self.write_buf() =~= Seq::<PacketV>::empty());
        }
        self.on_close
    }

    /// Queues a packet for the next poll. On a closed session the packet is
    /// discarded silently.
    pub fn emit(&mut self, data: Packet)
        requires
            old(self).wf(),
            data@.data.len() < usize::MAX,
        ensures
            final(self).wf(),
            old(self).closed ==> *final(self) == *old(self),
            !old(self).closed ==> final(self).write_buf() == old(self).write_buf().push(data@),
            final(self).same_but_buf_and_pong(*old(self)),
            final(self).last_pong == old(self).last_pong,
    {
        if self.closed {
            return ;
        }
        let ghost pre = self.write_buf();
        match &mut self.transport {
            Transport::Polling(q) => {
                q.push(data);
                proof {
                    assert(views(q@) =~= pre.push(data@));
                }
            },
        }
    }

    /// Queues one Message packet carrying these bytes: a convenience over
    /// `emit`. On a closed session the bytes are discarded silently.
    pub fn send(&mut self, data: Vec<u8>)
        requires
            old(self).wf(),
            data@.len() < usize::MAX,
        ensures
            final(self).wf(),
            old(self).closed ==> *final(self) == *old(self),
            !old(self).closed ==> final(self).write_buf() == old(self).write_buf().push(
                (PacketV { id: ID::Message, data: data@ }),
            ),
            final(self).same_but_buf_and_pong(*old(self)),
            final(self).last_pong == old(self).last_pong,
    {
        self.emit(Packet { id: ID::Message, data });
    }

    /// Registers the packet callback slot, replacing any earlier one.
    pub fn on_packet(&mut self, handler: u64)
        ensures
            *final(self) == (Socket { on_packet: Some(handler), ..*old(self) }),
    {
        self.on_packet = Some(handler);
    }

    /// Registers the flush callback slot, replacing any earlier one.
    pub fn on_flush(&mut self, handler: u64)
        ensures
            *final(self) == (Socket { on_flush: Some(handler), ..*old(self) }),
    {
        self.on_flush = Some(handler);
    }

    /// Registers the close callback slot, replacing any earlier one.
    pub fn on_close(&mut self, handler: u64)
        ensures
            *final(self) == (Socket { on_close: Some(handler), ..*old(self) }),
    {
        self.on_close = Some(handler);
    }

    /// Registers the message callback slot, replacing any earlier one.
    pub fn on_message(&mut self, handler: u64)
        ensures
            *final(self) == (Socket { on_message: Some(handler), ..*old(self) }),
    {
        self.on_message = Some(handler);
    }

    /// The message callback to invoke for an inbound message: the
    /// registered slot, or nothing when none is registered or the session
    /// is closed.
    pub fn call_on_message(&self) -> (r: Option<u64>)
        ensures
            r == (if self.closed {
                None
            } else {
                self.on_message
            }),
    {
        if self.closed {
            None
        } else {
            self.on_message
        }
    }

    /// The packet callback to invoke for an outbound packet: the registered
    /// slot, or nothing when none is registered or the session is closed.
    pub fn call_on_packet(&self) -> (r: Option<u64>)
        ensures
            r == (if self.closed {
                None
            } else {
                self.on_packet
            }),
    {
        if self.closed {
            None
        } else {
            self.on_packet
        }
    }

    /// The flush callback to invoke after a drain: the registered slot, or
    /// nothing when none is registered or the session is closed.
    pub fn call_on_flush(&self) -> (r: Option<u64>)
        ensures
            r == (if self.closed {
                None
            } else {
                self.on_flush
            }),
    {
        if self.closed {
            None
        } else {
            self.on_flush
        }
    }

    /// Drains the outbound queue and encodes it as one payload under the
    /// session's options. The queue is left empty: each queued packet is
    /// handed out by exactly this one drain.
    pub fn encode_write_buffer(&mut self) -> (r: Drain)
        requires
            old(self).wf(),
        ensures
            final(self).wf(),
            views(r.packets@) == old(self).write_buf(),
            final(self).write_buf() == Seq::<PacketV>::empty(),
            r.payload@ == spec_encode_payload(
                old(self).write_buf(),
                old(self).jsonp,
                old(self).b64,
                old(self).xhr2,
            ),
            r.on_flush == (if old(self).closed {
                None
            } else {
                old(self).on_flush
            }),
            final(self).same_but_buf_and_pong(*old(self)),
            final(self).last_pong == old(self).last_pong,
    {
        let mut taken: Vec<Packet> = Vec::new();
        match &mut self.transport {
            Transport::Polling(q) => {
                core::mem::swap(q, &mut taken);
            },
        }
        proof {
            assert(self.write_buf() =~= Seq::<PacketV>::empty());
            assert(views(taken@) == old(self).write_buf());
            assert forall|k: int| 0 <= k < taken@.len() implies (#[trigger] taken@[k]).data@.len()
                < usize::MAX by {
                assert(views(taken@)[k] == taken@[k]@);
                assert(old(self).write_buf()[k].data.len() < usize::MAX);
            }
        }
        let payload = encode_payload(&taken, self.jsonp, self.b64, self.xhr2);
        let on_flush = self.call_on_flush();
        Drain { payload, packets: taken, on_flush }
    }
}

/// Closing twice fires `on_close` at most once: whatever state a session is
/// in, `close` leaves it closed, and on a closed session `close` fires
/// nothing.
pub proof fn lemma_close_idempotent(after_first_close: Socket)
    requires
        after_first_close.closed,
    ensures
        after_first_close.spec_close_fires() is None,
{
}

/// At-most-once delivery: one `emit` puts the packet into the queue once
/// more; a drain hands out the whole queue and leaves it empty, and no
/// packet at all stands in what the empty queue yields.
pub proof fn lemma_at_most_once_delivery(buf: Seq<PacketV>, p: PacketV)
    ensures
        buf.push(p).to_multiset().count(p) == buf.to_multiset().count(p) + 1,
        Seq::<PacketV>::empty().to_multiset().count(p) == 0,
{
    buf.to_multiset_ensures();
    Seq::<PacketV>::empty().to_multiset_ensures();
    assert(Seq::<PacketV>::empty().to_multiset().len() == 0);
}

} // verus!
