//! What the two halves achieve together: whatever the channel does to the
//! frames of a packet, the receiver ends up with that packet or with none.

use crate::frame::{
    frame_payload, lemma_frame_round_trip, parse_header, Header, FRAME_SZ, MAX_PKT_SZ,
};
use crate::packet::{packet_slice, slice_len, spec_data_frame, spec_frame_count};
use crate::reassembly::{
    lemma_blank_agrees, lemma_complete_is_packet, lemma_insert_keeps_agreement,
    lemma_insert_shrinks, Reassembly,
};
use crate::receiver::{Collecting, MAX_LOST_SIZE};
use vstd::prelude::*;

verus! {

/// What can happen to a receiver that collects a packet.
pub enum Arrival {
    /// The frame with this index of the packet arrives.
    Frame(u16),
    /// Some other datagram arrives.
    Stray(Seq<u8>),
    /// Nothing arrives in time.
    Timeout,
}

/// An arrival is admissible for packet `pkt_id` with contents `pkt` if a
/// frame is one of the packet's, and a stray datagram is not taken for one:
/// it is no frame, or names another packet or another length.
pub open spec fn admissible(pkt_id: u64, pkt: Seq<u8>, arrival: Arrival) -> bool {
    match arrival {
        Arrival::Frame(frame_no) => (frame_no as nat) < spec_frame_count(pkt.len()),
        Arrival::Stray(datagram) => !(datagram.len() == FRAME_SZ && parse_header(datagram).pkt_id
            == pkt_id && parse_header(datagram).pkt_sz == pkt.len()),
        Arrival::Timeout => true,
    }
}

/// The receiver after one arrival.
pub open spec fn step(rx: Collecting, pkt_id: u64, pkt: Seq<u8>, arrival: Arrival) -> Collecting {
    match arrival {
        Arrival::Frame(frame_no) => rx.on_datagram(spec_data_frame(pkt_id, pkt, frame_no)),
        Arrival::Stray(datagram) => rx.on_datagram(datagram),
        Arrival::Timeout => rx.on_timeout(),
    }
}

/// The receiver after a run of arrivals.
pub open spec fn collect(
    rx: Collecting,
    pkt_id: u64,
    pkt: Seq<u8>,
    arrivals: Seq<Arrival>,
) -> Collecting
    decreases arrivals.len(),
{
    if arrivals.len() == 0 {
        rx
    } else {
        step(collect(rx, pkt_id, pkt, arrivals.drop_last()), pkt_id, pkt, arrivals.last())
    }
}

/// Number of timeouts in a run of arrivals.
pub open spec fn timeouts(arrivals: Seq<Arrival>) -> nat
    decreases arrivals.len(),
{
    if arrivals.len() == 0 {
        0
    } else if arrivals.last() is Timeout {
        timeouts(arrivals.drop_last()) + 1
    } else {
        timeouts(arrivals.drop_last())
    }
}

/// A frame of a packet decodes to the packet's identity, its length and the
/// frame's index, and its payload field begins with the frame's slice of
/// the packet.
pub proof fn lemma_data_frame_decodes(pkt_id: u64, pkt: Seq<u8>, frame_no: u16)
    requires
        pkt.len() <= MAX_PKT_SZ,
    ensures
        spec_data_frame(pkt_id, pkt, frame_no).len() == FRAME_SZ,
        parse_header(spec_data_frame(pkt_id, pkt, frame_no)) == (Header {
            pkt_id,
            pkt_sz: pkt.len() as u32,
            frame_no,
        }),
        packet_slice(pkt, frame_no as nat).len() == slice_len(pkt.len(), frame_no as nat),
        frame_payload(spec_data_frame(pkt_id, pkt, frame_no)).len() == 512,
        frame_payload(spec_data_frame(pkt_id, pkt, frame_no)).subrange(
            0,
            slice_len(pkt.len(), frame_no as nat) as int,
        ) == packet_slice(pkt, frame_no as nat),
{
    let header = Header { pkt_id, pkt_sz: pkt.len() as u32, frame_no };
    let slice = packet_slice(pkt, frame_no as nat);
    lemma_frame_round_trip(header, slice);
    assert(frame_payload(spec_data_frame(pkt_id, pkt, frame_no)).subrange(0, slice.len() as int)
        =~= slice);
}

/// The receiver that a frame of a packet opens collects that packet: it
/// knows the packet's identity and length, its buffer agrees with the
/// packet, and exactly the other frames are missing.
pub proof fn lemma_start_collects(pkt_id: u64, pkt: Seq<u8>, first: u16)
    requires
        pkt.len() <= MAX_PKT_SZ,
        (first as nat) < spec_frame_count(pkt.len()),
    ensures
        Collecting::opens(spec_data_frame(pkt_id, pkt, first)),
        Collecting::start(spec_data_frame(pkt_id, pkt, first)).wf(),
        Collecting::start(spec_data_frame(pkt_id, pkt, first)).retry == MAX_LOST_SIZE,
        Collecting::start(spec_data_frame(pkt_id, pkt, first)).state.pkt_id == pkt_id,
        Collecting::start(spec_data_frame(pkt_id, pkt, first)).state.agrees_with(pkt),
        forall|k: u16|
            Collecting::start(spec_data_frame(pkt_id, pkt, first)).state.missing.contains(k) <==> (
            k as nat) < spec_frame_count(pkt.len()) && k != first,
{
    let frame = spec_data_frame(pkt_id, pkt, first);
    let blank = Reassembly::blank(pkt_id, pkt.len());
    lemma_data_frame_decodes(pkt_id, pkt, first);
    lemma_blank_agrees(pkt_id, pkt);
    lemma_insert_shrinks(blank, first, frame_payload(frame));
    lemma_insert_keeps_agreement(blank, pkt, first, frame_payload(frame));
}

/// One admissible arrival keeps what a receiver of the packet has: the
/// packet's identity, and a buffer that agrees with the packet. A frame
/// leaves the set of missing frames; nothing else changes that set.
pub proof fn lemma_step_collects(rx: Collecting, pkt_id: u64, pkt: Seq<u8>, arrival: Arrival)
    requires
        pkt.len() <= MAX_PKT_SZ,
        rx.wf(),
        rx.state.pkt_id == pkt_id,
        rx.state.agrees_with(pkt),
        admissible(pkt_id, pkt, arrival),
    ensures
        step(rx, pkt_id, pkt, arrival).wf(),
        step(rx, pkt_id, pkt, arrival).state.pkt_id == pkt_id,
        step(rx, pkt_id, pkt, arrival).state.agrees_with(pkt),
        arrival matches Arrival::Frame(frame_no) ==> step(rx, pkt_id, pkt, arrival).state.missing
            == rx.state.missing.remove(frame_no),
        !(arrival is Frame) ==> step(rx, pkt_id, pkt, arrival).state == rx.state,
        arrival is Timeout ==> step(rx, pkt_id, pkt, arrival).retry + 1 == rx.retry || rx.retry
            == 0,
        !(arrival is Timeout) ==> step(rx, pkt_id, pkt, arrival).retry == rx.retry,
{
    match arrival {
        Arrival::Frame(frame_no) => {
            let frame = spec_data_frame(pkt_id, pkt, frame_no);
            lemma_data_frame_decodes(pkt_id, pkt, frame_no);
            lemma_insert_shrinks(rx.state, frame_no, frame_payload(frame));
            lemma_insert_keeps_agreement(rx.state, pkt, frame_no, frame_payload(frame));
            assert(rx.state.insert(frame_no, frame_payload(frame)).missing
                =~= rx.state.missing.remove(frame_no));
        },
        Arrival::Stray(datagram) => {},
        Arrival::Timeout => {},
    }
}

/// Delivery: let a frame of a packet open a reception, and let any run of
/// admissible arrivals follow, frames in any order, some perhaps never,
/// some twice, stray datagrams and timeouts among them. Then the buffer
/// agrees with the packet throughout, the frames that did not arrive are
/// exactly those missing, and once none is missing the buffer is the
/// packet, byte for byte and of the packet's length.
pub proof fn lemma_delivery(pkt_id: u64, pkt: Seq<u8>, first: u16, arrivals: Seq<Arrival>)
    requires
        1 <= pkt.len() <= MAX_PKT_SZ,
        (first as nat) < spec_frame_count(pkt.len()),
        forall|i: int| 0 <= i < arrivals.len() ==> admissible(pkt_id, pkt, #[trigger] arrivals[i]),
    ensures
        ({
            let rx = collect(
                Collecting::start(spec_data_frame(pkt_id, pkt, first)),
                pkt_id,
                pkt,
                arrivals,
            );
            &&& Collecting::opens(spec_data_frame(pkt_id, pkt, first))
            &&& rx.wf()
            &&& rx.state.pkt_id == pkt_id
            &&& rx.state.buffer.len() == pkt.len()
            &&& rx.state.agrees_with(pkt)
            &&& forall|k: u16|
                rx.state.missing.contains(k) <==> (k as nat) < spec_frame_count(pkt.len()) && k
                    != first && !arrivals.contains(Arrival::Frame(k))
            &&& rx.state.is_complete() ==> rx.state.buffer == pkt
            &&& (forall|k: u16|
                (k as nat) < spec_frame_count(pkt.len()) ==> k == first || arrivals.contains(
                    Arrival::Frame(k),
                )) ==> rx.state.is_complete() && rx.state.buffer == pkt
            &&& rx.retry == if timeouts(arrivals) <= MAX_LOST_SIZE {
                MAX_LOST_SIZE - timeouts(arrivals)
            } else {
                0
            }
        }),
    decreases arrivals.len(),
{
    let rx0 = Collecting::start(spec_data_frame(pkt_id, pkt, first));
    let rx = collect(rx0, pkt_id, pkt, arrivals);
    lemma_start_collects(pkt_id, pkt, first);
    if arrivals.len() > 0 {
        let earlier = arrivals.drop_last();
        let before = collect(rx0, pkt_id, pkt, earlier);
        lemma_delivery(pkt_id, pkt, first, earlier);
        lemma_step_collects(before, pkt_id, pkt, arrivals.last());
        assert forall|k: u16|
            rx.state.missing.contains(k) <==> (k as nat) < spec_frame_count(pkt.len()) && k != first
                && !arrivals.contains(Arrival::Frame(k)) by {
            if earlier.contains(Arrival::Frame(k)) {
                let i = choose|i: int| 0 <= i < earlier.len() && earlier[i] == Arrival::Frame(k);
                assert(arrivals[i] == Arrival::Frame(k));
            }
            if arrivals.contains(Arrival::Frame(k)) {
                let i = choose|i: int| 0 <= i < arrivals.len() && arrivals[i] == Arrival::Frame(k);
                if i < earlier.len() {
                    assert(earlier[i] == Arrival::Frame(k));
                }
            }
            assert(arrivals[arrivals.len() - 1] == arrivals.last());
        }
    }
    if forall|k: u16|
        (k as nat) < spec_frame_count(pkt.len()) ==> k == first || arrivals.contains(
            Arrival::Frame(k),
        ) {
        assert forall|k: u16| !rx.state.missing.contains(k) by {
            if (k as nat) < spec_frame_count(pkt.len()) {
                assert(k == first || arrivals.contains(Arrival::Frame(k)));
            }
        }
        assert(rx.state.missing =~= Set::<u16>::empty());
    }
    if rx.state.is_complete() {
        lemma_complete_is_packet(rx.state, pkt);
    }
}

} // verus!
