//! How a packet is cut into frames, and the frames that each side emits.

use crate::frame::{
    be_bytes, encode_frame, frame_bytes, zeros, Header, DATA_SZ, FRAME_SZ, MAX_FRAMES, MAX_PKT_SZ,
};
use vstd::prelude::*;

verus! {

/// Number of frames that carry a packet of `pkt_sz` bytes.
pub open spec fn spec_frame_count(pkt_sz: nat) -> nat {
    (pkt_sz + 511) / 512
}

/// Number of bytes of a packet of `pkt_sz` bytes that frame `frame_no`
/// carries: 512, or what is left of the packet behind the frame's offset.
pub open spec fn slice_len(pkt_sz: nat, frame_no: nat) -> nat {
    if frame_no * 512 >= pkt_sz {
        0
    } else if pkt_sz - frame_no * 512 < 512 {
        (pkt_sz - frame_no * 512) as nat
    } else {
        512
    }
}

/// The bytes of `pkt` that frame `frame_no` carries.
pub open spec fn packet_slice(pkt: Seq<u8>, frame_no: nat) -> Seq<u8> {
    if frame_no * 512 >= pkt.len() {
        Seq::empty()
    } else {
        pkt.subrange(
            (frame_no * 512) as int,
            (frame_no * 512 + slice_len(pkt.len(), frame_no)) as int,
        )
    }
}

/// The frame count is the ceiling of `pkt_sz / 512`: the payloads of that
/// many frames hold the packet, and those of no smaller number `n` do.
pub proof fn lemma_frame_count_is_ceiling(pkt_sz: nat, n: nat)
    ensures
        spec_frame_count(pkt_sz) * 512 >= pkt_sz,
        n * 512 >= pkt_sz ==> spec_frame_count(pkt_sz) <= n,
        pkt_sz % 512 == 0 ==> spec_frame_count(pkt_sz) == pkt_sz / 512,
        pkt_sz % 512 != 0 ==> spec_frame_count(pkt_sz) == pkt_sz / 512 + 1,
{
}

/// A packet within the size limit needs no more frames than the header can
/// address.
pub proof fn lemma_frame_count_bound(pkt_sz: nat)
    ensures
        pkt_sz <= MAX_PKT_SZ <==> spec_frame_count(pkt_sz) <= MAX_FRAMES,
        pkt_sz >= 1 <==> spec_frame_count(pkt_sz) >= 1,
{
}

/// Every frame before the last carries 512 bytes; the last carries
/// `pkt_sz mod 512` bytes, or 512 where that is 0; an index past the last
/// carries none.
pub proof fn lemma_slice_len_rule(pkt_sz: nat, frame_no: nat)
    ensures
        frame_no + 1 < spec_frame_count(pkt_sz) ==> slice_len(pkt_sz, frame_no) == 512,
        frame_no + 1 == spec_frame_count(pkt_sz) && pkt_sz % 512 != 0 ==> slice_len(
            pkt_sz,
            frame_no,
        ) == pkt_sz % 512,
        frame_no + 1 == spec_frame_count(pkt_sz) && pkt_sz % 512 == 0 ==> slice_len(
            pkt_sz,
            frame_no,
        ) == 512,
        frame_no + 1 == spec_frame_count(pkt_sz) ==> slice_len(pkt_sz, frame_no) == pkt_sz - (
        spec_frame_count(pkt_sz) - 1) * 512,
        frame_no >= spec_frame_count(pkt_sz) ==> slice_len(pkt_sz, frame_no) == 0,
        frame_no * 512 + slice_len(pkt_sz, frame_no) <= pkt_sz || slice_len(pkt_sz, frame_no) == 0,
{
}

/// Every byte of a packet lies in exactly one frame's slice: byte `i` in
/// that of frame `i / 512`, and in that of no other frame `k`.
pub proof fn lemma_slices_partition(pkt_sz: nat, i: nat, k: nat)
    requires
        i < pkt_sz,
    ensures
        i / 512 < spec_frame_count(pkt_sz),
        (i / 512) * 512 <= i < (i / 512) * 512 + slice_len(pkt_sz, i / 512),
        k * 512 <= i < k * 512 + slice_len(pkt_sz, k) ==> k == i / 512,
{
}

/// Number of frames that carry a packet of `pkt_sz` bytes.
pub fn frame_count(pkt_sz: u32) -> (n: u32)
    ensures
        n == spec_frame_count(pkt_sz as nat),
{
    if pkt_sz % 512 == 0 {
        pkt_sz / 512
    } else {
        pkt_sz / 512 + 1
    }
}

/// The frame that carries slice `frame_no` of packet `pkt_id` with contents
/// `pkt`.
pub open spec fn spec_data_frame(pkt_id: u64, pkt: Seq<u8>, frame_no: u16) -> Seq<u8>
    recommends
        pkt.len() <= MAX_PKT_SZ,
{
    frame_bytes(
        Header { pkt_id, pkt_sz: pkt.len() as u32, frame_no },
        packet_slice(pkt, frame_no as nat),
    )
}

/// The frame by which a receiver asks again for frame `frame_no` of packet
/// `pkt_id` of `pkt_sz` bytes.
pub open spec fn spec_nack_frame(pkt_id: u64, pkt_sz: u32, frame_no: u16) -> Seq<u8> {
    frame_bytes(Header { pkt_id, pkt_sz, frame_no }, Seq::empty())
}

/// The frame by which a receiver acknowledges packet `pkt_id`.
pub open spec fn spec_ack_frame(pkt_id: u64) -> Seq<u8> {
    frame_bytes(Header { pkt_id, pkt_sz: 0, frame_no: 0 }, Seq::empty())
}

/// The frame that opens a connection, and the listener's answer to it:
/// 526 zero bytes.
pub open spec fn spec_hello_frame() -> Seq<u8> {
    frame_bytes(Header { pkt_id: 0, pkt_sz: 0, frame_no: 0 }, Seq::empty())
}

/// Builds the frame that carries slice `frame_no` of `pkt`.
pub fn data_frame(pkt_id: u64, pkt: &[u8], frame_no: u16) -> (frame: Vec<u8>)
    requires
        pkt@.len() <= MAX_PKT_SZ,
    ensures
        frame@ == spec_data_frame(pkt_id, pkt@, frame_no),
{
    let size: usize = pkt.len();
    let start: usize = frame_no as usize * DATA_SZ;
    let header = Header { pkt_id, pkt_sz: size as u32, frame_no };
    if start >= size {
        let nothing: Vec<u8> = Vec::new();
        assert(nothing@ =~= Seq::<u8>::empty());
        encode_frame(header, nothing.as_slice())
    } else {
        let end: usize = if size - start < DATA_SZ {
            size
        } else {
            start + DATA_SZ
        };
        encode_frame(header, &pkt[start..end])
    }
}

/// Builds the request to send frame `frame_no` again.
pub fn nack_frame(pkt_id: u64, pkt_sz: u32, frame_no: u16) -> (frame: Vec<u8>)
    ensures
        frame@ == spec_nack_frame(pkt_id, pkt_sz, frame_no),
{
    let nothing: Vec<u8> = Vec::new();
    assert(nothing@ =~= Seq::<u8>::empty());
    encode_frame(Header { pkt_id, pkt_sz, frame_no }, nothing.as_slice())
}

/// Builds the acknowledgement of packet `pkt_id`.
pub fn ack_frame(pkt_id: u64) -> (frame: Vec<u8>)
    ensures
        frame@ == spec_ack_frame(pkt_id),
{
    nack_frame(pkt_id, 0, 0)
}

/// Builds the frame that opens a connection.
pub fn hello_frame() -> (frame: Vec<u8>)
    ensures
        frame@ == spec_hello_frame(),
        frame@ == zeros(FRAME_SZ as nat),
{
    let frame = ack_frame(0);
    proof {
        lemma_hello_is_zero();
    }
    frame
}

/// The hello frame is all zero.
pub proof fn lemma_hello_is_zero()
    ensures
        spec_hello_frame() == zeros(FRAME_SZ as nat),
{
    reveal_with_fuel(be_bytes, 9);
    assert(spec_hello_frame() =~= zeros(FRAME_SZ as nat));
}

} // verus!
