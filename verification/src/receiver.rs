//! The receiving half of the protocol: collect the frames of one packet,
//! ask again for those that a timeout finds missing, acknowledge the packet
//! when it is whole.

use crate::frame::{
    decode_header, frame_payload, parse_header, payload_of, zeros, FRAME_SZ, MAX_PKT_SZ,
};
use crate::packet::{ack_frame, nack_frame, spec_ack_frame, spec_nack_frame};
use crate::reassembly::{
    ascending, lemma_blank_agrees, lemma_insert_shrinks, PktState, Reassembly,
};
use vstd::prelude::*;

verus! {

/// Number of receive timeouts that end a reception, and the largest number
/// of frames that may be missing when a timeout strikes.
pub const MAX_LOST_SIZE: usize = 10;

/// Why a reception was abandoned.
#[derive(Clone, Copy, Debug, PartialEq, Eq, Structural)]
pub enum RecvError {
    /// The timeouts were used up, or a timeout found more frames missing
    /// than may be asked for again.
    TooManyFramesLost,
}

/// What a receiver stands for while it collects a packet.
pub struct Collecting {
    /// The reassembly state of the packet.
    pub state: Reassembly,
    /// Number of timeouts left, the one that ends the reception included.
    pub retry: nat,
}

impl Collecting {
    /// A datagram opens a reception if it is a frame, and the packet it
    /// announces is no longer than frames can address.
    pub open spec fn opens(datagram: Seq<u8>) -> bool {
        datagram.len() == FRAME_SZ && parse_header(datagram).pkt_sz <= MAX_PKT_SZ
    }

    /// The reception that `datagram` opens: its header fixes the packet's
    /// identity and length, and its payload is the first to be taken in.
    pub open spec fn start(datagram: Seq<u8>) -> Collecting {
        let header = parse_header(datagram);
        Collecting {
            state: Reassembly::blank(header.pkt_id, header.pkt_sz as nat).insert(
                header.frame_no,
                frame_payload(datagram),
            ),
            retry: MAX_LOST_SIZE as nat,
        }
    }

    /// The packet can be addressed and the retry budget was not exceeded.
    pub open spec fn wf(self) -> bool {
        self.state.wf() && self.retry <= MAX_LOST_SIZE
    }

    /// A datagram belongs to the packet if it is a frame whose header names
    /// the packet's identity and length.
    pub open spec fn accepts(self, datagram: Seq<u8>) -> bool {
        &&& datagram.len() == FRAME_SZ
        &&& parse_header(datagram).pkt_id == self.state.pkt_id
        &&& parse_header(datagram).pkt_sz == self.state.pkt_sz()
    }

    /// The receiver after `datagram` arrived: a frame of the packet is
    /// taken in, anything else is ignored. The retry budget is untouched.
    pub open spec fn on_datagram(self, datagram: Seq<u8>) -> Collecting {
        if self.accepts(datagram) {
            Collecting {
                state: self.state.insert(parse_header(datagram).frame_no, frame_payload(datagram)),
                retry: self.retry,
            }
        } else {
            self
        }
    }

    /// A timeout ends the reception if it is the last of the budget, or if
    /// it finds more than `MAX_LOST_SIZE` frames missing.
    pub open spec fn gives_up(self) -> bool {
        self.retry <= 1 || self.state.missing.len() > MAX_LOST_SIZE
    }

    /// The receiver after a timeout: one retry less.
    pub open spec fn on_timeout(self) -> Collecting {
        Collecting {
            state: self.state,
            retry: if self.retry > 0 {
                (self.retry - 1) as nat
            } else {
                0
            },
        }
    }

    /// The receiver after `count` timeouts in a row.
    pub open spec fn after_timeouts(self, count: nat) -> Collecting
        decreases count,
    {
        if count == 0 {
            self
        } else {
            self.after_timeouts((count - 1) as nat).on_timeout()
        }
    }

    /// The requests that a timeout sends: one for each missing frame,
    /// smallest index first.
    pub open spec fn nacks(self) -> Seq<Seq<u8>> {
        let frames = ascending(self.state.missing);
        Seq::new(
            frames.len(),
            |i: int| spec_nack_frame(self.state.pkt_id, self.state.pkt_sz() as u32, frames[i]),
        )
    }
}

/// The retry budget: a receiver with its full budget, and with no more
/// frames missing than may be asked for again, gets through nine timeouts
/// in a row and gives up at the tenth. The timeouts leave the reassembly
/// state as it was.
pub proof fn lemma_retry_budget(rx: Collecting, count: nat)
    requires
        rx.retry == MAX_LOST_SIZE,
        rx.state.missing.len() <= MAX_LOST_SIZE,
    ensures
        rx.after_timeouts(count).state == rx.state,
        rx.after_timeouts(count).retry == if count <= MAX_LOST_SIZE {
            MAX_LOST_SIZE - count
        } else {
            0
        },
        rx.after_timeouts(count).gives_up() <==> count >= MAX_LOST_SIZE - 1,
    decreases count,
{
    if count > 0 {
        lemma_retry_budget(rx, (count - 1) as nat);
    }
}

/// The first frame pins the packet: the reception that it opens is for the
/// identity and the length that its header names, with the full retry
/// budget, and the index that the frame names is not missing.
pub proof fn lemma_start_pins(datagram: Seq<u8>)
    requires
        Collecting::opens(datagram),
    ensures
        Collecting::start(datagram).wf(),
        Collecting::start(datagram).state.pkt_id == parse_header(datagram).pkt_id,
        Collecting::start(datagram).state.pkt_sz() == parse_header(datagram).pkt_sz,
        Collecting::start(datagram).retry == MAX_LOST_SIZE,
        !Collecting::start(datagram).state.missing.contains(parse_header(datagram).frame_no),
        Collecting::start(datagram).accepts(datagram),
{
    let header = parse_header(datagram);
    lemma_blank_agrees(header.pkt_id, zeros(header.pkt_sz as nat));
    lemma_insert_shrinks(
        Reassembly::blank(header.pkt_id, header.pkt_sz as nat),
        header.frame_no,
        frame_payload(datagram),
    );
}

/// A datagram that is no frame of the packet, because it has another
/// length, names another packet or announces another size, leaves the
/// receiver as it was.
pub proof fn lemma_foreign_is_ignored(rx: Collecting, datagram: Seq<u8>)
    requires
        datagram.len() != FRAME_SZ || parse_header(datagram).pkt_id != rx.state.pkt_id
            || parse_header(datagram).pkt_sz != rx.state.pkt_sz(),
    ensures
        rx.on_datagram(datagram) == rx,
{
}

/// No datagram touches the retry budget, adds a missing frame, or changes
/// the packet's identity or length.
pub proof fn lemma_datagram_keeps_budget(rx: Collecting, datagram: Seq<u8>)
    requires
        rx.wf(),
    ensures
        rx.on_datagram(datagram).wf(),
        rx.on_datagram(datagram).retry == rx.retry,
        rx.on_datagram(datagram).state.pkt_id == rx.state.pkt_id,
        rx.on_datagram(datagram).state.pkt_sz() == rx.state.pkt_sz(),
        rx.on_datagram(datagram).state.missing.subset_of(rx.state.missing),
{
    lemma_insert_shrinks(rx.state, parse_header(datagram).frame_no, frame_payload(datagram));
}

/// `frames` holds the byte strings `bytes`, in order.
pub open spec fn holds_frames(frames: Seq<Vec<u8>>, bytes: Seq<Seq<u8>>) -> bool {
    &&& frames.len() == bytes.len()
    &&& forall|i: int| 0 <= i < frames.len() ==> (#[trigger] frames[i])@ == bytes[i]
}

/// What a completed reception hands over.
pub struct Delivery {
    /// The acknowledgement to send to the peer.
    pub ack: Vec<u8>,
    /// The packet.
    pub packet: Vec<u8>,
}

/// The receiver of one packet.
pub struct Receiver {
    state: PktState,
    retry: usize,
}

impl View for Receiver {
    type V = Collecting;

    closed spec fn view(&self) -> Collecting {
        Collecting { state: self.state@, retry: self.retry as nat }
    }
}

impl Receiver {
    /// The receiver's invariant.
    pub open spec fn wf(&self) -> bool {
        self@.wf()
    }

    /// Opens a reception with the first datagram that arrived, if that
    /// datagram can open one.
    pub fn start(datagram: &[u8]) -> (receiver: Option<Receiver>)
        ensures
            receiver is Some <==> Collecting::opens(datagram@),
            receiver matches Some(rx) ==> rx.wf() && rx@ == Collecting::start(datagram@),
    {
        match decode_header(datagram) {
            Some(header) => {
                if header.pkt_sz > MAX_PKT_SZ {
                    return None;
                }
                let state = PktState::new(
                    header.pkt_id,
                    header.pkt_sz,
                    header.frame_no,
                    payload_of(datagram),
                );
                Some(Receiver { state, retry: MAX_LOST_SIZE })
            },
            None => None,
        }
    }

    /// The packet that is being collected.
    pub fn pkt_id(&self) -> (pkt_id: u64)
        ensures
            pkt_id == self@.state.pkt_id,
    {
        self.state.pkt_id()
    }

    /// The packet's length.
    pub fn pkt_sz(&self) -> (pkt_sz: u32)
        requires
            self.wf(),
        ensures
            pkt_sz == self@.state.pkt_sz(),
    {
        self.state.pkt_sz()
    }

    /// Number of timeouts left.
    pub fn retries_left(&self) -> (retry: usize)
        ensures
            retry == self@.retry,
    {
        self.retry
    }

    /// Number of frames that have not arrived.
    pub fn missing_count(&self) -> (count: usize)
        requires
            self.wf(),
        ensures
            count == self@.state.missing.len(),
    {
        self.state.missing_count()
    }

    /// Whether every frame has arrived.
    pub fn is_complete(&self) -> (complete: bool)
        ensures
            complete == self@.state.is_complete(),
    {
        self.state.is_complete()
    }

    /// Takes a datagram that arrived.
    pub fn on_datagram(&mut self, datagram: &[u8])
        requires
            old(self).wf(),
        ensures
            final(self).wf(),
            final(self)@ == old(self)@.on_datagram(datagram@),
    {
        match decode_header(datagram) {
            Some(header) => {
                if header.pkt_id == self.state.pkt_id() && header.pkt_sz == self.state.pkt_sz() {
                    self.state.insert(header.frame_no, payload_of(datagram));
                }
            },
            None => {},
        }
    }

    /// Takes a receive timeout: either the reception is abandoned, or the
    /// requests for the missing frames are handed out for sending.
    pub fn on_timeout(&mut self) -> (outcome: Result<Vec<Vec<u8>>, RecvError>)
        requires
            old(self).wf(),
        ensures
            final(self).wf(),
            final(self)@ == old(self)@.on_timeout(),
            outcome is Err <==> old(self)@.gives_up(),
            outcome matches Ok(nacks) ==> holds_frames(nacks@, old(self)@.nacks()),
            outcome matches Err(error) ==> error == RecvError::TooManyFramesLost,
    {
        if self.retry > 0 {
            self.retry -= 1;
        }
        if self.retry == 0 {
            return Err(RecvError::TooManyFramesLost);
        }
        if self.state.missing_count() > MAX_LOST_SIZE {
            return Err(RecvError::TooManyFramesLost);
        }
        let pkt_id: u64 = self.state.pkt_id();
        let pkt_sz: u32 = self.state.pkt_sz();
        let frames: Vec<u16> = self.state.missing_frames();
        let mut nacks: Vec<Vec<u8>> = Vec::new();
        let mut i: usize = 0;
        while i < frames.len()
            invariant
                i <= frames.len(),
                nacks@.len() == i,
                forall|j: int|
                    0 <= j < i ==> (#[trigger] nacks@[j])@ == spec_nack_frame(
                        pkt_id,
                        pkt_sz,
                        frames@[j],
                    ),
            decreases frames.len() - i,
        {
            nacks.push(nack_frame(pkt_id, pkt_sz, frames[i]));
            i += 1;
        }
        Ok(nacks)
    }

    /// Ends a completed reception: hands over the packet together with the
    /// acknowledgement that is owed for it.
    pub fn finish(self) -> (delivery: Delivery)
        requires
            self.wf(),
            self@.state.is_complete(),
        ensures
            delivery.ack@ == spec_ack_frame(self@.state.pkt_id),
            delivery.packet@ == self@.state.buffer,
            delivery.packet@.len() == self@.state.pkt_sz(),
    {
        let ack = ack_frame(self.state.pkt_id());
        Delivery { ack, packet: self.state.into_packet() }
    }
}

} // verus!
