//! The capability set a transport offers the session core: send a packet
//! out, take delivered packets in, close. Polling is the one transport
//! here; the trait keeps the surface stable for further ones.
use vstd::prelude::*;

use crate::packet::{Packet, PacketV};

pub mod polling;

verus! {

/// What a transport does. `outbound` models the packets queued to go out,
/// `inbound` the packets received and not yet taken.
pub trait Transport: Sized {
    /// The packets queued to go out, oldest first.
    spec fn outbound(&self) -> Seq<PacketV>;

    /// The packets received and not yet taken, oldest first.
    spec fn inbound(&self) -> Seq<PacketV>;

    /// The transport's own well-formedness.
    spec fn twf(&self) -> bool;

    /// The transport's name.
    fn name(&self) -> (r: &'static str)
        ensures
            r@.len() > 0,
    ;

    /// Queues one packet to go out.
    fn send(&mut self, packet: Packet)
        requires
            old(self).twf(),
            packet@.data.len() < usize::MAX,
        ensures
            final(self).twf(),
            final(self).outbound() == old(self).outbound().push(packet@),
            final(self).inbound() == old(self).inbound(),
    ;

    /// Takes the oldest received packet, if one is waiting.
    fn receive(&mut self) -> (r: Option<Packet>)
        requires
            old(self).twf(),
        ensures
            final(self).twf(),
            final(self).outbound() == old(self).outbound(),
            old(self).inbound().len() == 0 ==> r is None && final(self).inbound() == old(
                self,
            ).inbound(),
            old(self).inbound().len() > 0 ==> (r matches Some(p) && p@ == old(
                self,
            ).inbound().first() && final(self).inbound() == old(self).inbound().drop_first()),
    ;

    /// Takes every received packet, oldest first.
    fn receive_all(&mut self) -> (r: Vec<Packet>)
        requires
            old(self).twf(),
        ensures
            final(self).twf(),
            final(self).outbound() == old(self).outbound(),
            final(self).inbound() == Seq::<PacketV>::empty(),
            crate::packet::views(r@) == old(self).inbound(),
    ;

    /// Closes the transport, discarding whatever was queued to go out.
    fn close(&mut self)
        requires
            old(self).twf(),
        ensures
            final(self).twf(),
            final(self).outbound() == Seq::<PacketV>::empty(),
            final(self).inbound() == old(self).inbound(),
    ;
}

} // verus!
