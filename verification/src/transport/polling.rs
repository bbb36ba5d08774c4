//! The polling transport: an outbound queue a GET drains into one encoded
//! payload, and an inbound queue a POST body decodes into.
use vstd::prelude::*;

use crate::packet::{
    decode_payload,
    encode_payload,
    result_views,
    spec_decode_payload,
    spec_encode_payload,
    views,
    Error,
    Packet,
    PacketV,
    Payload,
};
use crate::transport::Transport;

verus! {

/// A session's polling transport.
pub struct Polling {
    pub send: Vec<Packet>,
    pub recv: Vec<Packet>,
    pub jsonp: Option<i32>,
    pub b64: bool,
    pub xhr2: bool,
}

impl Polling {
    /// An empty transport with the client's options.
    pub fn new(jsonp: Option<i32>, b64: bool, xhr2: bool) -> (r: Polling)
        requires
            jsonp matches Some(j) ==> j >= 0,
        ensures
            r.twf(),
            r.outbound() == Seq::<PacketV>::empty(),
            r.inbound() == Seq::<PacketV>::empty(),
            r.jsonp == jsonp,
            r.b64 == b64,
            r.xhr2 == xhr2,
    {
        let r = Polling { send: Vec::new(), recv: Vec::new(), jsonp, b64, xhr2 };
        proof {
            assert(r.outbound() =~= Seq::<PacketV>::empty());
            assert(r.inbound() =~= Seq::<PacketV>::empty());
        }
        r
    }

    /// Answers one poll: encodes everything queued to go out as one
    /// payload, under the client's options, and leaves the queue empty.
    pub fn on_get(&mut self) -> (r: Payload)
        requires
            old(self).twf(),
        ensures
            final(self).twf(),
            r@ == spec_encode_payload(
                old(self).outbound(),
                old(self).jsonp,
                old(self).b64,
                old(self).xhr2,
            ),
            final(self).outbound() == Seq::<PacketV>::empty(),
            final(self).inbound() == old(self).inbound(),
            final(self).jsonp == old(self).jsonp,
            final(self).b64 == old(self).b64,
            final(self).xhr2 == old(self).xhr2,
    {
        proof {
            assert forall|k: int| 0 <= k < self.send@.len() implies (
            #[trigger] self.send@[k]).data@.len() < usize::MAX by {
                assert(views(self.send@)[k] == self.send@[k]@);
                assert(views(self.send@)[k].data.len() < usize::MAX);
            }
        }
        let payload = encode_payload(&self.send, self.jsonp, self.b64, self.xhr2);
        self.send.clear();
        proof {
            assert(self.outbound() =~= Seq::<PacketV>::empty());
        }
        payload
    }

    /// Takes one POST body: decodes it under the client's options and
    /// appends the packets to the inbound queue; a body that does not
    /// decode is refused with its error and changes nothing.
    pub fn on_post(&mut self, body: Vec<u8>) -> (r: Result<(), Error>)
        requires
            old(self).twf(),
        ensures
            final(self).twf(),
            final(self).outbound() == old(self).outbound(),
            final(self).jsonp == old(self).jsonp,
            final(self).b64 == old(self).b64,
            final(self).xhr2 == old(self).xhr2,
            (match spec_decode_payload(body@, old(self).b64, old(self).xhr2) {
                Ok(ps) => r is Ok && final(self).inbound() == old(self).inbound() + ps,
                Err(e) => r == Err::<(), Error>(e) && final(self).inbound() == old(self).inbound(),
            }),
    {
        let ghost pre = self.inbound();
        match decode_payload(body, self.b64, self.xhr2) {
            Ok(mut ps) => {
                let ghost psv = views(ps@);
                self.recv.append(&mut ps);
                proof {
                    assert(self.inbound() =~= pre + psv);
                }
                Ok(())
            },
            Err(e) => Err(e),
        }
    }
}

impl Transport for Polling {
    open spec fn outbound(&self) -> Seq<PacketV> {
        views(self.send@)
    }

    open spec fn inbound(&self) -> Seq<PacketV> {
        views(self.recv@)
    }

    open spec fn twf(&self) -> bool {
        &&& (self.jsonp matches Some(j) ==> j >= 0)
        &&& forall|k: int|
            0 <= k < views(self.send@).len() ==> (#[trigger] views(self.send@)[k]).data.len()
                < usize::MAX
    }

    fn name(&self) -> (r: &'static str) {
        proof {
            reveal_strlit("polling");
        }
        "polling"
    }

    fn send(&mut self, packet: Packet) {
        let ghost pre = views(self.send@);
        self.send.push(packet);
        proof {
            assert(views(self.send@) =~= pre.push(packet@));
        }
    }

    fn receive(&mut self) -> (r: Option<Packet>) {
        if self.recv.len() == 0 {
            None
        } else {
            let ghost pre = views(self.recv@);
            let p = self.recv.remove(0);
            proof {
                assert(views(self.recv@) =~= pre.drop_first());
                assert(p@ == pre.first());
            }
            Some(p)
        }
    }

    fn receive_all(&mut self) -> (r: Vec<Packet>) {
        let mut taken: Vec<Packet> = Vec::new();
        core::mem::swap(&mut self.recv, &mut taken);
        proof {
            assert(views(self.recv@) =~= Seq::<PacketV>::empty());
        }
        taken
    }

    fn close(&mut self) {
        self.send.clear();
        proof {
            assert(views(self.send@) =~= Seq::<PacketV>::empty());
        }
    }
}

} // verus!
