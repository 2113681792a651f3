//! The sending half of the protocol: number the packet, stream its frames,
//! then answer the receiver's requests until the acknowledgement arrives.

use crate::frame::{
    decode_header, lemma_frame_round_trip, parse_header, Header, FRAME_SZ, MAX_PKT_SZ,
};
use crate::packet::{
    data_frame, frame_count, spec_ack_frame, spec_data_frame, spec_frame_count, spec_nack_frame,
};
use vstd::prelude::*;

verus! {

/// What a sender does about a datagram that arrived.
pub enum Reply {
    /// Nothing: the datagram does not concern the packet in flight.
    Ignore,
    /// Send this frame again.
    Retransmit(Seq<u8>),
    /// Stop: the packet was acknowledged.
    Acked,
}

/// What a sender does about a datagram that arrived.
pub enum SendAction {
    /// Nothing: the datagram does not concern the packet in flight.
    Ignore,
    /// Send this frame again.
    Retransmit(Vec<u8>),
    /// Stop: the packet was acknowledged.
    Acked,
}

impl View for SendAction {
    type V = Reply;

    open spec fn view(&self) -> Reply {
        match *self {
            SendAction::Ignore => Reply::Ignore,
            SendAction::Retransmit(frame) => Reply::Retransmit(frame@),
            SendAction::Acked => Reply::Acked,
        }
    }
}

/// What a sender stands for.
pub struct Sending {
    /// The packet in flight, or the last one sent; 0 before the first.
    pub pkt_id: u64,
    /// Number of frames of the packet in flight that were handed out for
    /// the first transmission.
    pub sent: nat,
}

impl Sending {
    /// The sender of a fresh connection.
    pub open spec fn idle() -> Sending {
        Sending { pkt_id: 0, sent: 0 }
    }

    /// No more frames were handed out than can be addressed.
    pub open spec fn wf(self) -> bool {
        self.sent <= 65_536
    }

    /// The sender after it took up the next packet.
    pub open spec fn begin(self) -> Sending {
        Sending { pkt_id: (self.pkt_id + 1) as u64, sent: 0 }
    }

    /// Whether frames of `pkt` are still to be handed out.
    pub open spec fn streaming(self, pkt: Seq<u8>) -> bool {
        self.sent < spec_frame_count(pkt.len())
    }

    /// The sender after it handed out one more frame.
    pub open spec fn advance(self) -> Sending {
        Sending { pkt_id: self.pkt_id, sent: self.sent + 1 }
    }

    /// What the sender of `pkt` does about `datagram`: a frame for another
    /// packet, or no frame at all, is ignored; a frame for this packet that
    /// announces length 0 acknowledges it; any other frame for this packet
    /// asks for the frame it names, and is ignored if `pkt` has no such
    /// frame.
    pub open spec fn reply_to(self, pkt: Seq<u8>, datagram: Seq<u8>) -> Reply {
        let header = parse_header(datagram);
        if datagram.len() != FRAME_SZ || header.pkt_id != self.pkt_id {
            Reply::Ignore
        } else if header.pkt_sz == 0 {
            Reply::Acked
        } else if (header.frame_no as nat) < spec_frame_count(pkt.len()) {
            Reply::Retransmit(spec_data_frame(self.pkt_id, pkt, header.frame_no))
        } else {
            Reply::Ignore
        }
    }
}

/// The sender of a connection.
pub struct Sender {
    pkt_id: u64,
    sent: u32,
}

impl View for Sender {
    type V = Sending;

    closed spec fn view(&self) -> Sending {
        Sending { pkt_id: self.pkt_id, sent: self.sent as nat }
    }
}

impl Sender {
    /// The sender's invariant.
    pub open spec fn wf(&self) -> bool {
        self@.wf()
    }

    /// The sender of a fresh connection.
    pub fn new() -> (sender: Sender)
        ensures
            sender.wf(),
            sender@ == Sending::idle(),
    {
        Sender { pkt_id: 0, sent: 0 }
    }

    /// The packet in flight, or the last one sent.
    pub fn pkt_id(&self) -> (pkt_id: u64)
        ensures
            pkt_id == self@.pkt_id,
    {
        self.pkt_id
    }

    /// Takes up `pkt`: it gets the next identifier, and none of its frames
    /// has been handed out.
    pub fn begin(&mut self, pkt: &[u8])
        requires
            old(self)@.pkt_id < u64::MAX,
            1 <= pkt@.len() <= MAX_PKT_SZ,
        ensures
            final(self).wf(),
            final(self)@ == old(self)@.begin(),
            final(self)@.pkt_id == old(self)@.pkt_id + 1,
            final(self)@.streaming(pkt@),
    {
        self.pkt_id = self.pkt_id + 1;
        self.sent = 0;
    }

    /// Hands out the next frame of the first transmission of `pkt`, until
    /// all were handed out.
    pub fn next_frame(&mut self, pkt: &[u8]) -> (frame: Option<Vec<u8>>)
        requires
            old(self).wf(),
            pkt@.len() <= MAX_PKT_SZ,
        ensures
            final(self).wf(),
            frame is Some <==> old(self)@.streaming(pkt@),
            frame matches Some(bytes) ==> bytes@ == spec_data_frame(
                old(self)@.pkt_id,
                pkt@,
                old(self)@.sent as u16,
            ) && final(self)@ == old(self)@.advance(),
            frame is None ==> final(self)@ == old(self)@,
    {
        let count: u32 = frame_count(pkt.len() as u32);
        if self.sent < count {
            let frame = data_frame(self.pkt_id, pkt, self.sent as u16);
            self.sent = self.sent + 1;
            Some(frame)
        } else {
            None
        }
    }

    /// Decides what to do about a datagram that arrived while `pkt` is in
    /// flight.
    pub fn on_datagram(&self, pkt: &[u8], datagram: &[u8]) -> (action: SendAction)
        requires
            pkt@.len() <= MAX_PKT_SZ,
        ensures
            action@ == self@.reply_to(pkt@, datagram@),
    {
        match decode_header(datagram) {
            Some(header) => {
                if header.pkt_id != self.pkt_id {
                    SendAction::Ignore
                } else if header.pkt_sz == 0 {
                    SendAction::Acked
                } else if (header.frame_no as u32) < frame_count(pkt.len() as u32) {
                    SendAction::Retransmit(data_frame(self.pkt_id, pkt, header.frame_no))
                } else {
                    SendAction::Ignore
                }
            },
            None => SendAction::Ignore,
        }
    }
}

/// A sender stops only on an acknowledgement: on a frame that names the
/// packet in flight and announces length 0.
pub proof fn lemma_acked_only_by_ack(sender: Sending, pkt: Seq<u8>, datagram: Seq<u8>)
    ensures
        sender.reply_to(pkt, datagram) is Acked <==> datagram.len() == FRAME_SZ && parse_header(
            datagram,
        ).pkt_id == sender.pkt_id && parse_header(datagram).pkt_sz == 0,
        sender.reply_to(pkt, spec_ack_frame(sender.pkt_id)) is Acked,
{
    lemma_frame_round_trip(
        Header { pkt_id: sender.pkt_id, pkt_sz: 0, frame_no: 0 },
        Seq::<u8>::empty(),
    );
}

/// A request for a frame of the packet in flight is answered with that
/// frame.
pub proof fn lemma_nack_is_answered(sender: Sending, pkt: Seq<u8>, frame_no: u16)
    requires
        1 <= pkt.len() <= MAX_PKT_SZ,
        (frame_no as nat) < spec_frame_count(pkt.len()),
    ensures
        sender.reply_to(pkt, spec_nack_frame(sender.pkt_id, pkt.len() as u32, frame_no))
            == Reply::Retransmit(spec_data_frame(sender.pkt_id, pkt, frame_no)),
{
    lemma_frame_round_trip(
        Header { pkt_id: sender.pkt_id, pkt_sz: pkt.len() as u32, frame_no },
        Seq::<u8>::empty(),
    );
}

/// Each packet gets a larger identifier than the one before it.
pub proof fn lemma_pkt_id_increases(sender: Sending)
    requires
        sender.pkt_id < u64::MAX,
    ensures
        sender.begin().pkt_id == sender.pkt_id + 1,
        sender.begin().pkt_id > sender.pkt_id,
        sender.begin().advance().pkt_id == sender.begin().pkt_id,
{
}

} // verus!
