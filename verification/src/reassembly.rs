//! The receiver's scratch for one packet: the buffer that the frames fill,
//! and the set of frame indices that have not arrived yet.

use crate::frame::{zeros, DATA_SZ, MAX_PKT_SZ};
use crate::packet::{frame_count, packet_slice, slice_len, spec_frame_count};
use std::collections::BTreeSet;
use vstd::prelude::*;

verus! {

/// `buffer` with the bytes from `offset` on replaced by `data`.
pub open spec fn write_at(buffer: Seq<u8>, offset: int, data: Seq<u8>) -> Seq<u8> {
    Seq::new(
        buffer.len(),
        |i: int|
            if offset <= i < offset + data.len() {
                data[i - offset]
            } else {
                buffer[i]
            },
    )
}

/// The members of `set` below `bound`, smallest first.
pub open spec fn ascending_below(set: Set<u16>, bound: nat) -> Seq<u16>
    decreases bound,
{
    if bound == 0 {
        Seq::empty()
    } else {
        let rest = ascending_below(set, (bound - 1) as nat);
        if bound <= 65_536 && set.contains((bound - 1) as u16) {
            rest.push((bound - 1) as u16)
        } else {
            rest
        }
    }
}

/// The members of `set`, smallest first.
pub open spec fn ascending(set: Set<u16>) -> Seq<u16> {
    ascending_below(set, 65_536)
}

/// `ascending_below` lists members of the set below the bound, and each of
/// them: `k` occurs in it if and only if it is such a member.
pub proof fn lemma_ascending_below_members(set: Set<u16>, bound: nat, k: u16)
    ensures
        ascending_below(set, bound).contains(k) <==> set.contains(k) && (k as nat) < bound,
    decreases bound,
{
    if bound > 0 {
        let rest = ascending_below(set, (bound - 1) as nat);
        lemma_ascending_below_members(set, (bound - 1) as nat, k);
        if bound <= 65_536 && set.contains((bound - 1) as u16) {
            let last = (bound - 1) as u16;
            assert(rest.push(last)[rest.len() as int] == last);
            assert forall|i: int| 0 <= i < rest.len() implies rest.push(last)[i] == rest[i] by {}
            if rest.contains(k) {
                let i = choose|i: int| 0 <= i < rest.len() && rest[i] == k;
                assert(rest.push(last)[i] == k);
            }
        }
    }
}

/// `ascending_below` is strictly increasing, and all its entries are below
/// the bound.
pub proof fn lemma_ascending_below_sorted(set: Set<u16>, bound: nat)
    ensures
        forall|i: int, j: int|
            0 <= i < j < ascending_below(set, bound).len() ==> ascending_below(set, bound)[i]
                < ascending_below(set, bound)[j],
        forall|i: int|
            0 <= i < ascending_below(set, bound).len() ==> (ascending_below(set, bound)[i] as nat)
                < bound,
    decreases bound,
{
    if bound > 0 {
        let rest = ascending_below(set, (bound - 1) as nat);
        let all = ascending_below(set, bound);
        lemma_ascending_below_sorted(set, (bound - 1) as nat);
        assert forall|i: int| 0 <= i < all.len() implies (all[i] as nat) < bound by {
            if i < rest.len() {
                assert(all[i] == rest[i]);
            }
        }
        assert forall|i: int, j: int| 0 <= i < j < all.len() implies all[i] < all[j] by {
            assert(all[i] == rest[i]);
            if j < rest.len() {
                assert(all[j] == rest[j]);
            }
        }
    }
}

/// Raising the bound past every member of the set adds nothing.
pub proof fn lemma_ascending_below_saturates(set: Set<u16>, low: nat, high: nat)
    requires
        low <= high,
        forall|k: u16| set.contains(k) ==> (k as nat) < low,
    ensures
        ascending_below(set, high) == ascending_below(set, low),
    decreases high - low,
{
    if low < high {
        lemma_ascending_below_saturates(set, low, (high - 1) as nat);
    }
}

/// `ascending_below` has as many entries as the set has members below the
/// bound.
pub proof fn lemma_ascending_below_len(set: Set<u16>, bound: nat)
    requires
        set.finite(),
    ensures
        ascending_below(set, bound).len() == set.filter(|k: u16| (k as nat) < bound).len(),
    decreases bound,
{
    let below = set.filter(|k: u16| (k as nat) < bound);
    if bound == 0 {
        assert(below =~= Set::<u16>::empty());
    } else {
        let lower = set.filter(|k: u16| (k as nat) < (bound - 1) as nat);
        lemma_ascending_below_len(set, (bound - 1) as nat);
        if bound <= 65_536 && set.contains((bound - 1) as u16) {
            assert(below =~= lower.insert((bound - 1) as u16));
        } else {
            assert(below =~= lower);
        }
    }
}

/// `ascending` lists the set: it holds the members of the set and nothing
/// else, each once and smallest first, so it is as long as the set is
/// large.
pub proof fn lemma_ascending_lists_the_set(set: Set<u16>)
    ensures
        forall|k: u16| ascending(set).contains(k) <==> set.contains(k),
        forall|i: int, j: int|
            0 <= i < j < ascending(set).len() ==> ascending(set)[i] < ascending(set)[j],
        set.finite() ==> ascending(set).len() == set.len(),
{
    assert forall|k: u16| ascending(set).contains(k) <==> set.contains(k) by {
        lemma_ascending_below_members(set, 65_536, k);
    }
    lemma_ascending_below_sorted(set, 65_536);
    if set.finite() {
        lemma_ascending_below_len(set, 65_536);
        assert(set.filter(|k: u16| (k as nat) < 65_536) =~= set);
    }
}

/// What a reassembly state stands for.
pub struct Reassembly {
    /// The packet that is being collected.
    pub pkt_id: u64,
    /// As many bytes as the packet has; those of the frames that arrived
    /// hold the packet's bytes, the others are zero.
    pub buffer: Seq<u8>,
    /// The indices of the frames that have not arrived.
    pub missing: Set<u16>,
}

impl Reassembly {
    /// The state in which no frame of a packet of `pkt_sz` bytes has arrived.
    pub open spec fn blank(pkt_id: u64, pkt_sz: nat) -> Reassembly {
        Reassembly {
            pkt_id,
            buffer: zeros(pkt_sz),
            missing: Set::new(|k: u16| (k as nat) < spec_frame_count(pkt_sz)),
        }
    }

    /// The packet's length.
    pub open spec fn pkt_sz(self) -> nat {
        self.buffer.len()
    }

    /// The packet can be addressed, and only frames of the packet are missing.
    pub open spec fn wf(self) -> bool {
        &&& self.buffer.len() <= MAX_PKT_SZ
        &&& self.missing.finite()
        &&& forall|k: u16| self.missing.contains(k) ==> (k as nat) < spec_frame_count(self.pkt_sz())
    }

    /// No frame is missing.
    pub open spec fn is_complete(self) -> bool {
        self.missing == Set::<u16>::empty()
    }

    /// The buffer holds the bytes of `pkt` wherever a frame has arrived.
    pub open spec fn agrees_with(self, pkt: Seq<u8>) -> bool {
        &&& self.buffer.len() == pkt.len()
        &&& forall|i: int|
            0 <= i < pkt.len() && !self.missing.contains((i / 512) as u16) ==> self.buffer[i]
                == pkt[i]
    }

    /// The state after frame `frame_no` arrived with payload field `data`:
    /// a frame that is not missing changes nothing; one that is missing
    /// leaves the set, and its slice of `data` is written at its offset.
    pub open spec fn insert(self, frame_no: u16, data: Seq<u8>) -> Reassembly {
        if self.missing.contains(frame_no) {
            Reassembly {
                pkt_id: self.pkt_id,
                buffer: write_at(
                    self.buffer,
                    frame_no * 512,
                    data.subrange(0, slice_len(self.pkt_sz(), frame_no as nat) as int),
                ),
                missing: self.missing.remove(frame_no),
            }
        } else {
            self
        }
    }
}

/// The reassembly state of one packet.
pub struct PktState {
    pkt_id: u64,
    pkt: Vec<u8>,
    set: BTreeSet<u16>,
}

impl View for PktState {
    type V = Reassembly;

    closed spec fn view(&self) -> Reassembly {
        Reassembly { pkt_id: self.pkt_id, buffer: self.pkt@, missing: self.set@ }
    }
}

impl PktState {
    /// The state's invariant.
    pub open spec fn wf(&self) -> bool {
        self@.wf()
    }

    /// Starts the reassembly of packet `pkt_id` of `pkt_sz` bytes with the
    /// frame that announced it.
    pub fn new(pkt_id: u64, pkt_sz: u32, frame_no: u16, data: &[u8]) -> (state: PktState)
        requires
            pkt_sz <= MAX_PKT_SZ,
            slice_len(pkt_sz as nat, frame_no as nat) <= data@.len(),
        ensures
            state.wf(),
            state@ == Reassembly::blank(pkt_id, pkt_sz as nat).insert(frame_no, data@),
    {
        let pkt: Vec<u8> = vec![0u8; pkt_sz as usize];
        let mut set: BTreeSet<u16> = BTreeSet::new();
        let frame_num: u32 = frame_count(pkt_sz);
        let mut i: u32 = 0;
        while i < frame_num
            invariant
                i <= frame_num <= 65_536,
                set@.finite(),
                set@ =~= Set::new(|k: u16| k < i),
            decreases frame_num - i,
        {
            set.insert(i as u16);
            i += 1;
        }
        let mut state = PktState { pkt_id, pkt, set };
        assert(state@.buffer =~= zeros(pkt_sz as nat));
        assert(state@ == Reassembly::blank(pkt_id, pkt_sz as nat));
        state.insert(frame_no, data);
        state
    }

    /// Takes in frame `frame_no` with payload field `data`.
    pub fn insert(&mut self, frame_no: u16, data: &[u8])
        requires
            old(self).wf(),
            slice_len(old(self)@.pkt_sz(), frame_no as nat) <= data@.len(),
        ensures
            final(self).wf(),
            final(self)@ == old(self)@.insert(frame_no, data@),
    {
        if !self.set.contains(&frame_no) {
            return;
        }
        let offset: usize = frame_no as usize * DATA_SZ;
        let left: usize = self.pkt.len() - offset;
        let len: usize = if left < DATA_SZ {
            left
        } else {
            DATA_SZ
        };
        let mut i: usize = 0;
        while i < len
            invariant
                i <= len,
                len == slice_len(old(self)@.pkt_sz(), frame_no as nat),
                len <= data@.len(),
                offset == frame_no * 512,
                offset + len <= self.pkt.len(),
                self.pkt_id == old(self).pkt_id,
                self.set == old(self).set,
                self.pkt@ == write_at(old(self).pkt@, offset as int, data@.subrange(0, i as int)),
            decreases len - i,
        {
            self.pkt[offset + i] = data[i];
            i += 1;
            assert(self.pkt@ =~= write_at(
                old(self).pkt@,
                offset as int,
                data@.subrange(0, i as int),
            ));
        }
        self.set.remove(&frame_no);
    }

    /// The packet that is being collected.
    pub fn pkt_id(&self) -> (pkt_id: u64)
        ensures
            pkt_id == self@.pkt_id,
    {
        self.pkt_id
    }

    /// The packet's length.
    pub fn pkt_sz(&self) -> (pkt_sz: u32)
        requires
            self.wf(),
        ensures
            pkt_sz == self@.pkt_sz(),
    {
        self.pkt.len() as u32
    }

    /// Whether every frame has arrived.
    pub fn is_complete(&self) -> (complete: bool)
        ensures
            complete == self@.is_complete(),
    {
        let complete = self.set.is_empty();
        assert(self.set@.is_empty() == (self.set@ =~= Set::<u16>::empty()));
        complete
    }

    /// Number of frames that have not arrived.
    pub fn missing_count(&self) -> (count: usize)
        requires
            self.wf(),
        ensures
            count == self@.missing.len(),
    {
        self.set.len()
    }

    /// The indices of the frames that have not arrived, smallest first.
    pub fn missing_frames(&self) -> (frames: Vec<u16>)
        requires
            self.wf(),
        ensures
            frames@ == ascending(self@.missing),
    {
        let bound: u32 = frame_count(self.pkt.len() as u32);
        let mut frames: Vec<u16> = Vec::new();
        let mut k: u32 = 0;
        while k < bound
            invariant
                k <= bound <= 65_536,
                frames@ == ascending_below(self.set@, k as nat),
            decreases bound - k,
        {
            let frame_no: u16 = k as u16;
            if self.set.contains(&frame_no) {
                frames.push(frame_no);
            }
            k += 1;
        }
        proof {
            lemma_ascending_below_saturates(self.set@, bound as nat, 65_536);
        }
        frames
    }

    /// Gives up the state for the buffer.
    pub fn into_packet(self) -> (packet: Vec<u8>)
        ensures
            packet@ == self@.buffer,
    {
        self.pkt
    }
}

/// A frame that is not missing changes nothing; a frame that is missing
/// leaves the set, which loses exactly that one member. In either case no
/// index joins the set, the packet's identity and length stay, and the
/// state stays well formed.
pub proof fn lemma_insert_shrinks(state: Reassembly, frame_no: u16, data: Seq<u8>)
    requires
        state.wf(),
    ensures
        state.insert(frame_no, data).wf(),
        state.insert(frame_no, data).pkt_id == state.pkt_id,
        state.insert(frame_no, data).pkt_sz() == state.pkt_sz(),
        state.insert(frame_no, data).missing.subset_of(state.missing),
        !state.insert(frame_no, data).missing.contains(frame_no),
        state.missing.contains(frame_no) ==> state.insert(frame_no, data).missing.len() + 1
            == state.missing.len(),
        !state.missing.contains(frame_no) ==> state.insert(frame_no, data) == state,
{
}

/// A frame that arrives again changes nothing, whatever it carries.
pub proof fn lemma_insert_idempotent(
    state: Reassembly,
    frame_no: u16,
    data: Seq<u8>,
    again: Seq<u8>,
)
    ensures
        state.insert(frame_no, data).insert(frame_no, again) == state.insert(frame_no, data),
{
}

/// Frames may arrive in either order: two frames with different indices
/// leave the same state whichever comes first.
pub proof fn lemma_insert_commutes(
    state: Reassembly,
    first: u16,
    first_data: Seq<u8>,
    second: u16,
    second_data: Seq<u8>,
)
    requires
        state.wf(),
        first != second,
        slice_len(state.pkt_sz(), first as nat) <= first_data.len(),
        slice_len(state.pkt_sz(), second as nat) <= second_data.len(),
    ensures
        state.insert(first, first_data).insert(second, second_data) == state.insert(
            second,
            second_data,
        ).insert(first, first_data),
{
    let one = state.insert(first, first_data).insert(second, second_data);
    let other = state.insert(second, second_data).insert(first, first_data);
    assert(one.missing =~= other.missing);
    assert(one.buffer =~= other.buffer);
}

/// The frame indices below `bound` are finitely many: `bound` of them, or
/// all 65 536.
pub proof fn lemma_indices_below(bound: nat)
    ensures
        Set::new(|k: u16| (k as nat) < bound).finite(),
        Set::new(|k: u16| (k as nat) < bound).len() == if bound <= 65_536 {
            bound
        } else {
            65_536
        },
    decreases bound,
{
    let indices = Set::new(|k: u16| (k as nat) < bound);
    if bound == 0 {
        assert(indices =~= Set::<u16>::empty());
    } else {
        let lower = Set::new(|k: u16| (k as nat) < (bound - 1) as nat);
        lemma_indices_below((bound - 1) as nat);
        if bound <= 65_536 {
            assert(indices =~= lower.insert((bound - 1) as u16));
        } else {
            assert(indices =~= lower);
        }
    }
}

/// Before any frame has arrived the buffer agrees with every packet of its
/// length.
pub proof fn lemma_blank_agrees(pkt_id: u64, pkt: Seq<u8>)
    requires
        pkt.len() <= MAX_PKT_SZ,
    ensures
        Reassembly::blank(pkt_id, pkt.len()).wf(),
        Reassembly::blank(pkt_id, pkt.len()).agrees_with(pkt),
{
    let state = Reassembly::blank(pkt_id, pkt.len());
    lemma_indices_below(spec_frame_count(pkt.len()));
    assert forall|i: int|
        0 <= i < pkt.len() && !state.missing.contains((i / 512) as u16) implies state.buffer[i]
        == pkt[i] by {
        assert(state.missing.contains((i / 512) as u16));
    }
}

/// A frame that carries its slice of `pkt` keeps the buffer in agreement
/// with `pkt`.
pub proof fn lemma_insert_keeps_agreement(
    state: Reassembly,
    pkt: Seq<u8>,
    frame_no: u16,
    data: Seq<u8>,
)
    requires
        state.wf(),
        state.agrees_with(pkt),
        slice_len(pkt.len(), frame_no as nat) <= data.len(),
        data.subrange(0, slice_len(pkt.len(), frame_no as nat) as int) == packet_slice(
            pkt,
            frame_no as nat,
        ),
    ensures
        state.insert(frame_no, data).agrees_with(pkt),
{
    let after = state.insert(frame_no, data);
    assert forall|i: int|
        0 <= i < pkt.len() && !after.missing.contains((i / 512) as u16) implies after.buffer[i]
        == pkt[i] by {
        if state.missing.contains(frame_no) && i / 512 == frame_no {
            assert(packet_slice(pkt, frame_no as nat)[i - frame_no * 512] == pkt[i]);
        }
    }
}

/// When no frame is missing, a buffer that agrees with `pkt` is `pkt`.
pub proof fn lemma_complete_is_packet(state: Reassembly, pkt: Seq<u8>)
    requires
        state.agrees_with(pkt),
        state.is_complete(),
    ensures
        state.buffer == pkt,
{
    assert(state.buffer =~= pkt);
}

} // verus!
