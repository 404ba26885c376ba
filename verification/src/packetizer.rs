//! Packets that carry a stream from its beginning on.
//!
//! A packet holds, all little-endian:
//!
//! - 32 bits: the packet's number in the upper 24, how many fragments follow in the lower 8
//! - 32 bits per fragment: its stream offset, modulo 2^32
//! - 16 bits per fragment: its size
//! - the bytes of each fragment

use crate::circ;
use crate::error::ErrorKind;
use crate::pipe::CircRead;
use crate::sende;
use crate::sequence::Sequence;
use crate::wire;
use circbuf::CircBuf;
use std::cmp::Ordering;
use vstd::prelude::*;

verus! {

/// A fragment is only put into a packet where this many bytes are left for it.
pub const MIN_FRAGMENT_ROOM: usize = 7;

/// A piece of the stream, known by its offset.
#[derive(Clone, Copy, Debug)]
pub struct Fragment {
    /// Offset from the start of the stream.
    pub offset: u64,
    pub size: usize,
}

impl vstd::std_specs::cmp::PartialEqSpecImpl for Fragment {
    open spec fn obeys_eq_spec() -> bool {
        true
    }

    open spec fn eq_spec(&self, other: &Fragment) -> bool {
        self.offset == other.offset
    }
}

/// Fragments are the same where their offsets are, whatever their sizes.
impl PartialEq for Fragment {
    fn eq(&self, other: &Fragment) -> (r: bool) {
        self.offset == other.offset
    }
}

impl Eq for Fragment {

}

impl vstd::std_specs::cmp::PartialOrdSpecImpl for Fragment {
    open spec fn obeys_partial_cmp_spec() -> bool {
        true
    }

    open spec fn partial_cmp_spec(&self, other: &Fragment) -> Option<Ordering> {
        if self.offset < other.offset {
            Some(Ordering::Less)
        } else if self.offset > other.offset {
            Some(Ordering::Greater)
        } else {
            Some(Ordering::Equal)
        }
    }
}

/// Fragments are ordered by their offsets.
impl PartialOrd for Fragment {
    fn partial_cmp(&self, other: &Fragment) -> (r: Option<Ordering>) {
        if self.offset < other.offset {
            Some(Ordering::Less)
        } else if self.offset > other.offset {
            Some(Ordering::Greater)
        } else {
            Some(Ordering::Equal)
        }
    }
}

/// What a [`Packetizer`] holds.
#[verifier::ext_equal]
pub struct PacketizerState {
    /// The stream so far.
    pub bytes: Seq<u8>,
    /// How many bytes can be kept.
    pub cap: nat,
    /// Whether a source was read, even if it gave nothing.
    pub started: bool,
    /// The number of the next packet.
    pub next_seq: u32,
}

impl PacketizerState {
    /// How many bytes of the stream go into a packet of at most `room` bytes, if a fragment
    /// goes into it at all.
    pub open spec fn carried(self, room: int) -> Option<nat> {
        if !self.started || room - 4 < MIN_FRAGMENT_ROOM {
            None
        } else if self.bytes.len() < room - 10 {
            Some(self.bytes.len())
        } else {
            Some((room - 10) as nat)
        }
    }

    /// The packet that is made where there is room for `room` bytes.
    pub open spec fn packet(self, room: int) -> Seq<u8> {
        let number = (self.next_seq % 0x100_0000) * 0x100;
        match self.carried(room) {
            None => wire::le_bytes(number as nat, 4),
            Some(size) => wire::le_bytes((number + 1) as nat, 4) + wire::le_bytes(0, 4)
                + wire::le_bytes(size, 2) + self.bytes.take(size as int),
        }
    }
}

/// Sends a stream from its beginning on, in one fragment per packet.
///
/// The stream is kept whole, so that all of it is one fragment: the first read makes the
/// fragment, and later reads extend it.
pub struct Packetizer {
    buffer: CircBuf,
    packet_seq: Sequence,
    fragment: Option<Fragment>,
    buffered_bytes: u64,
}

impl View for Packetizer {
    type V = PacketizerState;

    closed spec fn view(&self) -> PacketizerState {
        PacketizerState {
            bytes: circ::circ_bytes(self.buffer),
            cap: circ::circ_cap(self.buffer),
            started: self.fragment is Some,
            next_seq: self.packet_seq@,
        }
    }
}

impl Packetizer {
    pub closed spec fn wf(&self) -> bool {
        &&& circ::circ_slots(self.buffer) > 0
        &&& self@.bytes.len() <= self@.cap < isize::MAX
        &&& self.buffered_bytes == self@.bytes.len()
        &&& match self.fragment {
            Some(fragment) => fragment.offset == 0 && fragment.size == self@.bytes.len(),
            None => self@.bytes.len() == 0,
        }
    }

    /// A packetizer at the beginning of the stream. It keeps one byte less than the smallest
    /// power of two that is not below `buffer_capacity`.
    pub fn new(buffer_capacity: usize) -> (r: Packetizer)
        requires
            buffer_capacity <= isize::MAX / 2 + 1,
        ensures
            r.wf(),
            r@.bytes == Seq::<u8>::empty(),
            circ::rounds_up_to(buffer_capacity as nat, r@.cap + 1),
            !r@.started,
            r@.next_seq == 0,
    {
        let r = Packetizer {
            buffer: circ::with_capacity(buffer_capacity),
            packet_seq: Sequence::new(),
            fragment: None,
            buffered_bytes: 0,
        };
        proof {
            circ::lemma_rounded(
                buffer_capacity as nat,
                circ::circ_slots(r.buffer),
                (isize::MAX / 2 + 1) as nat,
            );
        }
        r
    }

    /// Takes in what the source has, as far as there is room. Returns how many bytes that
    /// was.
    pub fn write_from<S: CircRead>(&mut self, source: &mut S) -> (r: Result<usize, ErrorKind>)
        requires
            old(self).wf(),
        ensures
            final(self).wf(),
            match old(source).next_read(
                old(self)@.cap,
                (old(self)@.cap - old(self)@.bytes.len()) as nat,
            ) {
                Ok(more) => {
                    &&& r == Ok::<usize, ErrorKind>(more.len() as usize)
                    &&& final(self)@ == (PacketizerState {
                        bytes: old(self)@.bytes + more,
                        started: true,
                        ..old(self)@
                    })
                },
                Err(error) => {
                    &&& r == Err::<usize, ErrorKind>(error)
                    &&& final(self)@ == old(self)@
                },
            },
    {
        let read: usize = match source.read(&mut self.buffer) {
            Ok(read) => read,
            Err(error) => {
                return Err(error);
            },
        };
        self.fragment = match self.fragment {
            None => Some(Fragment { offset: self.buffered_bytes, size: read }),
            Some(fragment) => Some(
                Fragment { offset: fragment.offset, size: fragment.size + read },
            ),
        };
        self.buffered_bytes = self.buffered_bytes + read as u64;
        Ok(read)
    }

    /// Writes a packet into `buf` and returns its size.
    pub fn generate(&mut self, buf: &mut [u8]) -> (r: Result<usize, ErrorKind>)
        requires
            old(self).wf(),
            old(buf)@.len() >= 4,
            old(self)@.carried(old(buf)@.len() as int) matches Some(size) ==> size < 65535,
        ensures
            final(self).wf(),
            ({
                let packet = old(self)@.packet(old(buf)@.len() as int);
                &&& r == Ok::<usize, ErrorKind>(packet.len() as usize)
                &&& packet.len() <= old(buf)@.len()
                &&& final(buf)@ == wire::overwrite(old(buf)@, 0, packet)
            }),
            final(self)@ == (PacketizerState {
                next_seq: ((old(self)@.next_seq + 1) % 0x1_0000_0000) as u32,
                ..old(self)@
            }),
    {
        let ghost pre = self@;
        let ghost buf0 = buf@;
        let room: usize = buf.len();
        let sequence: u32 = self.packet_seq.next();
        proof {
            let number = (sequence % 0x100_0000) * 0x100;
            assert(sequence << 8 == (sequence % 0x100_0000) * 0x100 && (sequence << 8) | 1u32 == (
            sequence % 0x100_0000) * 0x100 + 1) by (bit_vector);
            wire::lemma_le_bytes_len(number as nat, 4);
            wire::lemma_le_bytes_len((number + 1) as nat, 4);
        }
        if room - 4 >= MIN_FRAGMENT_ROOM {
            if let Some(fragment) = self.fragment {
                let to_write: usize = if fragment.size < room - 10 {
                    fragment.size
                } else {
                    room - 10
                };
                wire::write_u32(buf, 0, (sequence << 8) | 1);
                wire::write_u32(buf, 4, (fragment.offset & 0xffff_ffff) as u32);
                wire::write_u16(buf, 8, to_write as u16);
                let _ = sende::write_from_offset(&self.buffer, 0, buf, 10, to_write);
                proof {
                    assert(0u64 & 0xffff_ffff == 0) by (bit_vector);
                    let number = wire::le_bytes(((sequence << 8) | 1u32) as nat, 4);
                    let offset = wire::le_bytes(0, 4);
                    let size = wire::le_bytes(to_write as nat, 2);
                    let data = pre.bytes.take(to_write as int);
                    wire::lemma_le_bytes_len(0, 4);
                    wire::lemma_le_bytes_len(to_write as nat, 2);
                    wire::lemma_overwrite_append(buf0, 0, number, offset);
                    wire::lemma_overwrite_append(buf0, 0, number + offset, size);
                    wire::lemma_overwrite_append(buf0, 0, number + offset + size, data);
                    if to_write == 0 {
                        assert(data =~= Seq::empty());
                    } else {
                        assert(data =~= pre.bytes.subrange(0, to_write as int));
                    }
                }
                return Ok(10 + to_write);
            }
        }
        wire::write_u32(buf, 0, sequence << 8);
        Ok(4)
    }
}

/// What a packet carries is what it says: the sequence number, the count, the offset, the size
/// and the stream from its beginning on can be read back.
pub proof fn law_packet_round_trip(state: PacketizerState, room: int)
    requires
        state.carried(room) matches Some(size) ==> size < 0x1_0000,
    ensures
        ({
            let packet = state.packet(room);
            let header = wire::le_value(packet.take(4));
            &&& header / 0x100 == state.next_seq as nat % 0x100_0000
            &&& match state.carried(room) {
                None => header % 0x100 == 0 && packet.len() == 4,
                Some(size) => {
                    &&& header % 0x100 == 1
                    &&& packet.len() == 10 + size
                    &&& wire::le_value(packet.subrange(4, 8)) == 0
                    &&& wire::le_value(packet.subrange(8, 10)) == size
                    &&& packet.skip(10) == state.bytes.take(size as int)
                },
            }
        }),
{
    let packet = state.packet(room);
    let number = (state.next_seq % 0x100_0000) * 0x100;
    wire::lemma_le_ranges();
    match state.carried(room) {
        None => {
            wire::lemma_le_bytes_len(number as nat, 4);
            wire::law_number_round_trip(number as nat, 4);
            assert(packet.take(4) =~= packet);
        },
        Some(size) => {
            wire::lemma_le_bytes_len((number + 1) as nat, 4);
            wire::lemma_le_bytes_len(0, 4);
            wire::lemma_le_bytes_len(size, 2);
            wire::law_number_round_trip((number + 1) as nat, 4);
            wire::law_number_round_trip(0, 4);
            wire::law_number_round_trip(size, 2);
            assert(packet.take(4) =~= wire::le_bytes((number + 1) as nat, 4));
            assert(packet.subrange(4, 8) =~= wire::le_bytes(0, 4));
            assert(packet.subrange(8, 10) =~= wire::le_bytes(size, 2));
            assert(packet.skip(10) =~= state.bytes.take(size as int));
        },
    }
}

/// A packet carries the stream as far as it fits: it carries all of it, or it is full. It carries
/// a fragment wherever a source was read and there is room for a byte of it.
pub proof fn law_packet_is_filled(state: PacketizerState, room: int)
    requires
        4 <= room,
        state.carried(room) matches Some(size) ==> size < 0x1_0000,
    ensures
        state.carried(room) is Some <==> state.started && room >= 4 + 4 + 2 + 1,
        state.carried(room) matches Some(size) ==> {
            &&& size <= state.bytes.len()
            &&& size < state.bytes.len() ==> state.packet(room).len() == room
        },
        state.packet(room).len() <= room,
{
    law_packet_round_trip(state, room);
}

/// Fragments are the same, and are ordered, by their offsets alone.
pub proof fn law_fragments_are_ordered_by_offset(a: Fragment, b: Fragment)
    ensures
        vstd::std_specs::cmp::PartialEqSpec::eq_spec(&a, &b) <==> a.offset - b.offset == 0,
        vstd::std_specs::cmp::PartialOrdSpec::partial_cmp_spec(&a, &b) == Some(Ordering::Less)
            <==> b.offset - a.offset > 0,
        vstd::std_specs::cmp::PartialOrdSpec::partial_cmp_spec(&a, &b) == Some(Ordering::Greater)
            <==> a.offset - b.offset > 0,
        vstd::std_specs::cmp::PartialOrdSpec::partial_cmp_spec(&a, &b) == Some(Ordering::Equal)
            <==> a.offset - b.offset == 0,
{
}

} // verus!
