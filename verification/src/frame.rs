//! The wire format: a 14-byte big-endian header followed by 512 payload bytes.

use vstd::prelude::*;

verus! {

/// Number of payload bytes in a frame.
pub const DATA_SZ: usize = 512;

/// Number of header bytes in a frame.
pub const HEADER_SZ: usize = 14;

/// Length of every frame on the wire.
pub const FRAME_SZ: usize = 526;

/// Number of frame indices that the header can address.
pub const MAX_FRAMES: u32 = 65_536;

/// Length of the largest packet whose frames can all be addressed.
pub const MAX_PKT_SZ: u32 = 33_554_432;

/// The number that a byte string denotes when read as base-256 digits,
/// most significant digit first.
pub open spec fn be_value(bytes: Seq<u8>) -> nat
    decreases bytes.len(),
{
    if bytes.len() == 0 {
        0
    } else {
        be_value(bytes.drop_last()) * 256 + bytes.last() as nat
    }
}

/// The `width` least significant base-256 digits of `value`, most
/// significant digit first.
pub open spec fn be_bytes(value: nat, width: nat) -> Seq<u8>
    decreases width,
{
    if width == 0 {
        Seq::empty()
    } else {
        be_bytes(value / 256, (width - 1) as nat).push((value % 256) as u8)
    }
}

/// 256 raised to the power `width`.
pub open spec fn radix_pow(width: nat) -> nat
    decreases width,
{
    if width == 0 {
        1
    } else {
        256 * radix_pow((width - 1) as nat)
    }
}

/// `be_bytes` yields exactly `width` digits.
pub proof fn lemma_be_bytes_len(value: nat, width: nat)
    ensures
        be_bytes(value, width).len() == width,
    decreases width,
{
    if width > 0 {
        lemma_be_bytes_len(value / 256, (width - 1) as nat);
    }
}

/// A byte string of length `n` denotes a number below `256^n`.
pub proof fn lemma_be_value_bound(bytes: Seq<u8>)
    ensures
        be_value(bytes) < radix_pow(bytes.len()),
    decreases bytes.len(),
{
    if bytes.len() > 0 {
        lemma_be_value_bound(bytes.drop_last());
    }
}

/// Reading back the digits of a number that fits in `width` digits gives
/// the number.
pub proof fn lemma_be_value_of_bytes(value: nat, width: nat)
    requires
        value < radix_pow(width),
    ensures
        be_value(be_bytes(value, width)) == value,
    decreases width,
{
    if width > 0 {
        let rest = be_bytes(value / 256, (width - 1) as nat);
        lemma_be_value_of_bytes(value / 256, (width - 1) as nat);
        assert(be_bytes(value, width).drop_last() =~= rest);
    }
}

/// Writing out the number that a byte string denotes, with as many digits
/// as the string has, gives the string.
pub proof fn lemma_be_bytes_of_value(bytes: Seq<u8>)
    ensures
        be_bytes(be_value(bytes), bytes.len()) == bytes,
    decreases bytes.len(),
{
    if bytes.len() > 0 {
        lemma_be_bytes_of_value(bytes.drop_last());
        assert(be_value(bytes) / 256 == be_value(bytes.drop_last()));
        assert(be_value(bytes) % 256 == bytes.last() as nat);
        assert(be_bytes(be_value(bytes), bytes.len()) =~= bytes);
    } else {
        assert(be_bytes(be_value(bytes), bytes.len()) =~= bytes);
    }
}

/// The powers of 256 that the header's field widths reach.
pub proof fn lemma_radix_pow_values()
    ensures
        radix_pow(0) == 1,
        radix_pow(1) == 0x100,
        radix_pow(2) == 0x1_0000,
        radix_pow(3) == 0x100_0000,
        radix_pow(4) == 0x1_0000_0000,
        radix_pow(5) == 0x100_0000_0000,
        radix_pow(6) == 0x1_0000_0000_0000,
        radix_pow(7) == 0x100_0000_0000_0000,
        radix_pow(8) == 0x1_0000_0000_0000_0000,
{
    reveal_with_fuel(radix_pow, 9);
}

/// Reads `width` bytes at `start` as one big-endian number.
fn load_be(buf: &[u8], start: usize, width: usize) -> (value: u64)
    requires
        width <= 8,
        start + width <= buf.len(),
    ensures
        value as nat == be_value(buf@.subrange(start as int, start + width)),
{
    let mut value: u64 = 0;
    let mut i: usize = 0;
    while i < width
        invariant
            i <= width <= 8,
            start + width <= buf.len(),
            value as nat == be_value(buf@.subrange(start as int, start + i)),
        decreases width - i,
    {
        proof {
            lemma_be_value_bound(buf@.subrange(start as int, start + i));
            lemma_radix_pow_values();
            assert(i == 0 || i == 1 || i == 2 || i == 3 || i == 4 || i == 5 || i == 6 || i == 7);
            assert(buf@.subrange(start as int, start + i + 1).drop_last() =~= buf@.subrange(
                start as int,
                start + i,
            ));
        }
        value = value * 256 + buf[start + i] as u64;
        i += 1;
    }
    value
}

/// Writes the `width` low digits of `value` at `start`, most significant
/// digit first, and leaves the other bytes as they were.
fn store_be(buf: &mut Vec<u8>, start: usize, width: usize, value: u64)
    requires
        width <= 8,
        start + width <= old(buf).len(),
    ensures
        final(buf)@ == old(buf)@.subrange(0, start as int) + be_bytes(value as nat, width as nat)
            + old(buf)@.subrange(start + width, old(buf)@.len() as int),
{
    let mut rest: u64 = value;
    let mut i: usize = width;
    while i > 0
        invariant
            i <= width <= 8,
            start + width <= buf.len(),
            buf@.len() == old(buf)@.len(),
            be_bytes(value as nat, width as nat) == be_bytes(rest as nat, i as nat) + buf@.subrange(
                start + i,
                start + width,
            ),
            buf@.subrange(0, start as int) == old(buf)@.subrange(0, start as int),
            buf@.subrange(start + width, buf@.len() as int) == old(buf)@.subrange(
                start + width,
                old(buf)@.len() as int,
            ),
        decreases i,
    {
        let ghost before = buf@;
        i -= 1;
        buf[start + i] = (rest % 256) as u8;
        proof {
            assert(buf@.subrange(start + i, start + width) =~= seq![(rest % 256) as u8]
                + before.subrange(start + i + 1, start + width));
            assert(be_bytes(rest as nat, (i + 1) as nat) + before.subrange(
                start + i + 1,
                start + width,
            ) =~= be_bytes(rest as nat / 256, i as nat) + buf@.subrange(start + i, start + width));
            assert(buf@.subrange(0, start as int) =~= before.subrange(0, start as int));
            assert(buf@.subrange(start + width, buf@.len() as int) =~= before.subrange(
                start + width,
                before.len() as int,
            ));
        }
        rest = rest / 256;
    }
    proof {
        lemma_be_bytes_len(value as nat, width as nat);
        assert(buf@ =~= old(buf)@.subrange(0, start as int) + be_bytes(value as nat, width as nat)
            + old(buf)@.subrange(start + width, old(buf)@.len() as int));
    }
}

/// The three header fields of a frame.
#[derive(Clone, Copy, Debug, PartialEq, Eq, Structural)]
pub struct Header {
    /// Identifies the packet within its connection; 0 in a handshake frame.
    pub pkt_id: u64,
    /// Length of the whole packet in bytes; 0 in an acknowledgement.
    pub pkt_sz: u32,
    /// Zero-based index of the frame within the packet.
    pub frame_no: u16,
}

/// `n` zero bytes.
pub open spec fn zeros(n: nat) -> Seq<u8> {
    Seq::new(n, |i: int| 0u8)
}

/// The 14 bytes that carry `header` on the wire.
pub open spec fn header_bytes(header: Header) -> Seq<u8> {
    be_bytes(header.pkt_id as nat, 8) + be_bytes(header.pkt_sz as nat, 4) + be_bytes(
        header.frame_no as nat,
        2,
    )
}

/// The frame that carries `header` and `payload`: the header, the payload,
/// and zero bytes up to the fixed frame length.
pub open spec fn frame_bytes(header: Header, payload: Seq<u8>) -> Seq<u8>
    recommends
        payload.len() <= DATA_SZ,
{
    header_bytes(header) + payload + zeros((DATA_SZ - payload.len()) as nat)
}

/// The header that the first 14 bytes of `frame` denote.
pub open spec fn parse_header(frame: Seq<u8>) -> Header
    recommends
        frame.len() >= HEADER_SZ,
{
    Header {
        pkt_id: be_value(frame.subrange(0, 8)) as u64,
        pkt_sz: be_value(frame.subrange(8, 12)) as u32,
        frame_no: be_value(frame.subrange(12, 14)) as u16,
    }
}

/// The 512 bytes that follow the header of `frame`.
pub open spec fn frame_payload(frame: Seq<u8>) -> Seq<u8>
    recommends
        frame.len() == FRAME_SZ,
{
    frame.subrange(HEADER_SZ as int, FRAME_SZ as int)
}

/// A frame has the fixed length; decoding it gives back the header, and its
/// payload field begins with the payload and ends in zeros.
pub proof fn lemma_frame_round_trip(header: Header, payload: Seq<u8>)
    requires
        payload.len() <= DATA_SZ,
    ensures
        frame_bytes(header, payload).len() == FRAME_SZ,
        parse_header(frame_bytes(header, payload)) == header,
        frame_payload(frame_bytes(header, payload)) == payload + zeros(
            (DATA_SZ - payload.len()) as nat,
        ),
{
    let frame = frame_bytes(header, payload);
    lemma_be_bytes_len(header.pkt_id as nat, 8);
    lemma_be_bytes_len(header.pkt_sz as nat, 4);
    lemma_be_bytes_len(header.frame_no as nat, 2);
    lemma_radix_pow_values();
    lemma_be_value_of_bytes(header.pkt_id as nat, 8);
    lemma_be_value_of_bytes(header.pkt_sz as nat, 4);
    lemma_be_value_of_bytes(header.frame_no as nat, 2);
    assert(frame.subrange(0, 8) =~= be_bytes(header.pkt_id as nat, 8));
    assert(frame.subrange(8, 12) =~= be_bytes(header.pkt_sz as nat, 4));
    assert(frame.subrange(12, 14) =~= be_bytes(header.frame_no as nat, 2));
    assert(frame_payload(frame) =~= payload + zeros((DATA_SZ - payload.len()) as nat));
}

/// Builds the frame that carries `header` and `payload`.
pub fn encode_frame(header: Header, payload: &[u8]) -> (frame: Vec<u8>)
    requires
        payload@.len() <= DATA_SZ,
    ensures
        frame@ == frame_bytes(header, payload@),
{
    let mut frame: Vec<u8> = vec![0u8; FRAME_SZ];
    assert(frame@ =~= zeros(FRAME_SZ as nat));
    store_be(&mut frame, 0, 8, header.pkt_id);
    store_be(&mut frame, 8, 4, header.pkt_sz as u64);
    store_be(&mut frame, 12, 2, header.frame_no as u64);
    proof {
        lemma_be_bytes_len(header.pkt_id as nat, 8);
        lemma_be_bytes_len(header.pkt_sz as nat, 4);
        lemma_be_bytes_len(header.frame_no as nat, 2);
        assert(frame@ =~= header_bytes(header) + zeros(DATA_SZ as nat));
    }
    let n: usize = payload.len();
    let mut i: usize = 0;
    while i < n
        invariant
            i <= n <= DATA_SZ,
            n == payload@.len(),
            frame@ == header_bytes(header) + payload@.subrange(0, i as int) + zeros(
                (DATA_SZ - i) as nat,
            ),
        decreases n - i,
    {
        proof {
            lemma_be_bytes_len(header.pkt_id as nat, 8);
            lemma_be_bytes_len(header.pkt_sz as nat, 4);
            lemma_be_bytes_len(header.frame_no as nat, 2);
        }
        let ghost before = frame@;
        frame[HEADER_SZ + i] = payload[i];
        i += 1;
        assert(frame@ =~= header_bytes(header) + payload@.subrange(0, i as int) + zeros(
            (DATA_SZ - i) as nat,
        ));
    }
    assert(payload@.subrange(0, n as int) =~= payload@);
    frame
}

/// Reads the header of a datagram; a datagram of any other length than a
/// frame's is no frame.
pub fn decode_header(datagram: &[u8]) -> (header: Option<Header>)
    ensures
        header == if datagram@.len() == FRAME_SZ {
            Some(parse_header(datagram@))
        } else {
            None
        },
{
    if datagram.len() != FRAME_SZ {
        return None;
    }
    let pkt_id: u64 = load_be(datagram, 0, 8);
    let pkt_sz: u64 = load_be(datagram, 8, 4);
    let frame_no: u64 = load_be(datagram, 12, 2);
    proof {
        lemma_radix_pow_values();
        lemma_be_value_bound(datagram@.subrange(0, 8));
        lemma_be_value_bound(datagram@.subrange(8, 12));
        lemma_be_value_bound(datagram@.subrange(12, 14));
    }
    Some(Header { pkt_id, pkt_sz: pkt_sz as u32, frame_no: frame_no as u16 })
}

/// The payload field of a frame.
pub fn payload_of(frame: &[u8]) -> (payload: &[u8])
    requires
        frame@.len() == FRAME_SZ,
    ensures
        payload@ == frame_payload(frame@),
{
    &frame[HEADER_SZ..FRAME_SZ]
}

} // verus!
