//! The bytes of a packet: little-endian numbers and chunk heads.
//!
//! A chunk starts with a 16-bit head, whose upper 5 bits give the chunk's type and whose
//! lower 11 bits give the size of the data that follows.

use byteorder::{LittleEndian, ReadBytesExt, WriteBytesExt};
use vstd::prelude::*;

verus! {

/// Chunk type of a piece of the byte stream.
pub const CHUNK_SEGMENT: usize = 0;

/// Chunk type of a report on what was received.
pub const CHUNK_FEEDBACK: usize = 1;

/// One more than the largest data size that a chunk head can hold.
pub const CHUNK_SIZE_LIMIT: usize = 2048;

/// `base` with the bytes from `at` on replaced by `data`.
pub open spec fn overwrite(base: Seq<u8>, at: int, data: Seq<u8>) -> Seq<u8>
    recommends
        0 <= at,
        at + data.len() <= base.len(),
{
    Seq::new(
        base.len(),
        |i: int|
            if at <= i < at + data.len() {
                data[i - at]
            } else {
                base[i]
            },
    )
}

/// Writing `a` and then `b` right after it is writing both at once.
pub proof fn lemma_overwrite_append(base: Seq<u8>, at: int, a: Seq<u8>, b: Seq<u8>)
    requires
        0 <= at,
        at + a.len() + b.len() <= base.len(),
    ensures
        overwrite(overwrite(base, at, a), at + a.len(), b) == overwrite(base, at, a + b),
{
    assert(overwrite(overwrite(base, at, a), at + a.len(), b) =~= overwrite(base, at, a + b));
}

/// The number that `bytes` spell, least significant byte first.
pub open spec fn le_value(bytes: Seq<u8>) -> nat
    decreases bytes.len(),
{
    if bytes.len() == 0 {
        0
    } else {
        bytes[0] as nat + 256 * le_value(bytes.skip(1))
    }
}

/// The lowest `width` bytes of `value`, least significant byte first.
pub open spec fn le_bytes(value: nat, width: nat) -> Seq<u8>
    decreases width,
{
    if width == 0 {
        Seq::empty()
    } else {
        seq![(value % 256) as u8] + le_bytes(value / 256, (width - 1) as nat)
    }
}

/// How many numbers fit in `width` bytes.
pub open spec fn le_range(width: nat) -> nat
    decreases width,
{
    if width == 0 {
        1
    } else {
        256 * le_range((width - 1) as nat)
    }
}

pub proof fn lemma_le_ranges()
    ensures
        le_range(2) == 0x1_0000,
        le_range(4) == 0x1_0000_0000,
        le_range(8) == 0x1_0000_0000_0000_0000,
{
    reveal_with_fuel(le_range, 9);
}

pub proof fn lemma_le_value_range(bytes: Seq<u8>)
    ensures
        le_value(bytes) < le_range(bytes.len()),
    decreases bytes.len(),
{
    if bytes.len() > 0 {
        lemma_le_value_range(bytes.skip(1));
    }
}

pub proof fn lemma_le_bytes_len(value: nat, width: nat)
    ensures
        le_bytes(value, width).len() == width,
    decreases width,
{
    if width > 0 {
        lemma_le_bytes_len(value / 256, (width - 1) as nat);
    }
}

/// Reading a number gives back what was written, as long as it fits the width.
pub proof fn law_number_round_trip(value: nat, width: nat)
    requires
        value < le_range(width),
    ensures
        le_value(le_bytes(value, width)) == value,
    decreases width,
{
    if width > 0 {
        let rest = le_bytes(value / 256, (width - 1) as nat);
        law_number_round_trip(value / 256, (width - 1) as nat);
        assert(le_bytes(value, width).skip(1) =~= rest);
    }
}

/// Writing the number that some bytes spell gives those bytes back.
pub proof fn law_bytes_round_trip(bytes: Seq<u8>)
    ensures
        le_bytes(le_value(bytes), bytes.len()) == bytes,
    decreases bytes.len(),
{
    if bytes.len() > 0 {
        law_bytes_round_trip(bytes.skip(1));
        assert(seq![bytes[0]] + bytes.skip(1) =~= bytes);
    }
}

/// `byteorder::ReadBytesExt::read_u16` for `LittleEndian` on a byte slice: the number that
/// the first two bytes spell, or nothing where there are fewer.
#[verifier::external_body]
pub(crate) fn read_u16(buf: &[u8]) -> (r: Option<u16>)
    ensures
        r == if buf@.len() >= 2 {
            Some(le_value(buf@.take(2)) as u16)
        } else {
            None
        },
{
    let mut rd = buf;
    rd.read_u16::<LittleEndian>().ok()
}

/// `byteorder::ReadBytesExt::read_u32` for `LittleEndian` on a byte slice: the number that
/// the first four bytes spell, or nothing where there are fewer.
#[verifier::external_body]
pub(crate) fn read_u32(buf: &[u8]) -> (r: Option<u32>)
    ensures
        r == if buf@.len() >= 4 {
            Some(le_value(buf@.take(4)) as u32)
        } else {
            None
        },
{
    let mut rd = buf;
    rd.read_u32::<LittleEndian>().ok()
}

/// `byteorder::ReadBytesExt::read_u64` for `LittleEndian` on a byte slice: the number that
/// the first eight bytes spell, or nothing where there are fewer.
#[verifier::external_body]
pub(crate) fn read_u64(buf: &[u8]) -> (r: Option<u64>)
    ensures
        r == if buf@.len() >= 8 {
            Some(le_value(buf@.take(8)) as u64)
        } else {
            None
        },
{
    let mut rd = buf;
    rd.read_u64::<LittleEndian>().ok()
}

/// `byteorder::WriteBytesExt::write_u16` for `LittleEndian` into a byte slice: puts the two
/// bytes of `value` at `at` and leaves the rest alone.
#[verifier::external_body]
pub(crate) fn write_u16(buf: &mut [u8], at: usize, value: u16)
    requires
        at + 2 <= old(buf)@.len(),
    ensures
        final(buf)@ == overwrite(old(buf)@, at as int, le_bytes(value as nat, 2)),
{
    let mut wr = &mut buf[at..];
    wr.write_u16::<LittleEndian>(value).unwrap();
}

/// `byteorder::WriteBytesExt::write_u32` for `LittleEndian` into a byte slice: puts the four
/// bytes of `value` at `at` and leaves the rest alone.
#[verifier::external_body]
pub(crate) fn write_u32(buf: &mut [u8], at: usize, value: u32)
    requires
        at + 4 <= old(buf)@.len(),
    ensures
        final(buf)@ == overwrite(old(buf)@, at as int, le_bytes(value as nat, 4)),
{
    let mut wr = &mut buf[at..];
    wr.write_u32::<LittleEndian>(value).unwrap();
}

/// `byteorder::WriteBytesExt::write_u64` for `LittleEndian` into a byte slice: puts the eight
/// bytes of `value` at `at` and leaves the rest alone.
#[verifier::external_body]
pub(crate) fn write_u64(buf: &mut [u8], at: usize, value: u64)
    requires
        at + 8 <= old(buf)@.len(),
    ensures
        final(buf)@ == overwrite(old(buf)@, at as int, le_bytes(value as nat, 8)),
{
    let mut wr = &mut buf[at..];
    wr.write_u64::<LittleEndian>(value).unwrap();
}

/// Copies `src` into `buf` at `at`.
pub fn copy_into(buf: &mut [u8], at: usize, src: &[u8])
    requires
        at + src@.len() <= old(buf)@.len(),
    ensures
        final(buf)@ == overwrite(old(buf)@, at as int, src@),
{
    let mut i: usize = 0;
    while i < src.len()
        invariant
            i <= src@.len(),
            at + src@.len() <= buf.len(),
            buf@.len() == old(buf)@.len(),
            buf@ == overwrite(old(buf)@, at as int, src@.take(i as int)),
        decreases src.len() - i,
    {
        buf[at + i] = src[i];
        i += 1;
        assert(buf@ =~= overwrite(old(buf)@, at as int, src@.take(i as int)));
    }
    assert(src@.take(i as int) =~= src@);
}

/// What stands at some position of a packet.
#[derive(Clone, Copy, Debug, PartialEq, Eq, Structural)]
pub enum ChunkStep {
    /// Too few bytes are left for another chunk head.
    End,
    /// A chunk head that announces more data than the packet holds.
    Truncated { kind: usize, size: usize, offset: usize, left: usize },
    /// A whole chunk, with its data from `begin` up to `end`.
    Chunk { kind: usize, begin: usize, end: usize },
}

/// The chunk head that announces `size` bytes of type `kind`.
pub open spec fn chunk_head(kind: nat, size: nat) -> nat {
    kind * 2048 + size
}

/// The type that the chunk head at `pos` gives.
pub open spec fn chunk_kind(data: Seq<u8>, pos: int) -> nat {
    le_value(data.subrange(pos, pos + 2)) / 2048
}

/// The data size that the chunk head at `pos` announces.
pub open spec fn chunk_size(data: Seq<u8>, pos: int) -> nat {
    le_value(data.subrange(pos, pos + 2)) % 2048
}

/// The data of the chunk at `pos`.
pub open spec fn chunk_body(data: Seq<u8>, pos: int) -> Seq<u8> {
    data.subrange(pos + 2, pos + 2 + chunk_size(data, pos))
}

/// What stands at `pos` of the packet `data`.
pub open spec fn chunk_at(data: Seq<u8>, pos: int) -> ChunkStep {
    let begin = pos + 2;
    if begin > data.len() {
        ChunkStep::End
    } else if begin + chunk_size(data, pos) > data.len() {
        ChunkStep::Truncated {
            kind: chunk_kind(data, pos) as usize,
            size: chunk_size(data, pos) as usize,
            offset: begin as usize,
            left: (data.len() - begin) as usize,
        }
    } else {
        ChunkStep::Chunk {
            kind: chunk_kind(data, pos) as usize,
            begin: begin as usize,
            end: (begin + chunk_size(data, pos)) as usize,
        }
    }
}

/// A chunk of type `kind` with the data `body`, as it stands in a packet.
pub open spec fn chunk_bytes(kind: nat, body: Seq<u8>) -> Seq<u8> {
    le_bytes(chunk_head(kind, body.len()), 2) + body
}

/// Reads what stands at `pos` of the packet `data`.
pub fn next_chunk(data: &[u8], pos: usize) -> (r: ChunkStep)
    requires
        pos <= data@.len(),
    ensures
        r == chunk_at(data@, pos as int),
        r matches ChunkStep::Chunk { kind, begin, end } ==> {
            &&& kind == chunk_kind(data@, pos as int)
            &&& begin == pos + 2
            &&& end == begin + chunk_size(data@, pos as int)
            &&& end <= data@.len()
        },
{
    let rest: &[u8] = &data[pos..data.len()];
    match read_u16(rest) {
        None => ChunkStep::End,
        Some(head) => {
            proof {
                assert(rest@.take(2) =~= data@.subrange(pos as int, pos + 2));
                lemma_le_value_range(rest@.take(2));
                lemma_le_ranges();
                assert(head >> 11 == head / 2048 && head & 2047 == head % 2048) by (bit_vector);
            }
            let kind: usize = (head >> 11) as usize;
            let size: usize = (head & 2047) as usize;
            let begin: usize = pos + 2;
            let left: usize = data.len() - begin;
            if size > left {
                ChunkStep::Truncated { kind, size, offset: begin, left }
            } else {
                ChunkStep::Chunk { kind, begin, end: begin + size }
            }
        },
    }
}

/// Packets that are the same from `tail` on hold the same chunks there.
pub proof fn lemma_same_chunk(a: Seq<u8>, b: Seq<u8>, tail: int, pos: int)
    requires
        a.len() == b.len(),
        0 <= tail <= pos,
        pos + 2 <= a.len(),
        a.skip(tail) == b.skip(tail),
    ensures
        chunk_kind(a, pos) == chunk_kind(b, pos),
        chunk_size(a, pos) == chunk_size(b, pos),
        pos + 2 + chunk_size(a, pos) <= a.len() ==> chunk_body(a, pos) == chunk_body(b, pos),
{
    assert forall|i: int| tail <= i < a.len() implies a[i] == b[i] by {
        assert(a.skip(tail)[i - tail] == b.skip(tail)[i - tail]);
    }
    assert(a.subrange(pos, pos + 2) =~= b.subrange(pos, pos + 2));
    if pos + 2 + chunk_size(a, pos) <= a.len() {
        assert(chunk_body(a, pos) =~= chunk_body(b, pos));
    }
}

/// A chunk that was written at `pos` is the chunk that is read there.
pub proof fn law_chunk_round_trip(data: Seq<u8>, pos: int, kind: nat, body: Seq<u8>)
    requires
        0 <= pos,
        kind < 32,
        body.len() < 2048,
        pos + 2 + body.len() <= data.len() <= usize::MAX,
        data.subrange(pos, pos + 2 + body.len()) == chunk_bytes(kind, body),
    ensures
        chunk_at(data, pos) == (ChunkStep::Chunk {
            kind: kind as usize,
            begin: (pos + 2) as usize,
            end: (pos + 2 + body.len()) as usize,
        }),
        chunk_kind(data, pos) == kind,
        chunk_size(data, pos) == body.len(),
        chunk_body(data, pos) == body,
{
    let head = chunk_head(kind, body.len());
    let whole = data.subrange(pos, pos + 2 + body.len());
    lemma_le_bytes_len(head, 2);
    lemma_le_ranges();
    law_number_round_trip(head, 2);
    assert(data.subrange(pos, pos + 2) =~= whole.take(2));
    assert(whole.take(2) =~= le_bytes(head, 2));
    assert(whole.skip(2) =~= body);
    assert(data.subrange(pos + 2, pos + 2 + body.len()) =~= whole.skip(2));
}

/// What numbers of two, four and eight bytes are worth: each byte counts 256 times as much as
/// the one before it.
pub proof fn law_number_is_the_sum_of_its_bytes(b: Seq<u8>)
    ensures
        b.len() == 2 ==> le_value(b) == b[0] + 0x100 * b[1],
        b.len() == 4 ==> le_value(b) == b[0] + 0x100 * b[1] + 0x1_0000 * b[2] + 0x100_0000 * b[3],
        b.len() == 8 ==> le_value(b) == b[0] + 0x100 * b[1] + 0x1_0000 * b[2] + 0x100_0000 * b[3]
            + 0x1_0000_0000 * b[4] + 0x100_0000_0000 * b[5] + 0x1_0000_0000_0000 * b[6]
            + 0x100_0000_0000_0000 * b[7],
{
    reveal_with_fuel(le_value, 9);
    if b.len() == 2 || b.len() == 4 || b.len() == 8 {
        assert(b.skip(1).skip(1) =~= b.skip(2));
    }
    if b.len() == 4 || b.len() == 8 {
        assert(b.skip(2).skip(1) =~= b.skip(3));
        assert(b.skip(3).skip(1) =~= b.skip(4));
    }
    if b.len() == 8 {
        assert(b.skip(4).skip(1) =~= b.skip(5));
        assert(b.skip(5).skip(1) =~= b.skip(6));
        assert(b.skip(6).skip(1) =~= b.skip(7));
        assert(b.skip(7).skip(1) =~= b.skip(8));
    }
}

/// Where the parts of a chunk stand: the low byte of the size, then the type in the upper five
/// bits of a byte and the rest of the size in its lower three, then the data.
pub proof fn law_chunk_layout(kind: nat, body: Seq<u8>)
    requires
        kind < 32,
        body.len() < 2048,
    ensures
        chunk_bytes(kind, body).len() == 2 + body.len(),
        chunk_bytes(kind, body)[0] == body.len() % 256,
        chunk_bytes(kind, body)[1] == 8 * kind + body.len() / 256,
        chunk_bytes(kind, body).skip(2) == body,
{
    let head = le_bytes(chunk_head(kind, body.len()), 2);
    lemma_le_bytes_len(chunk_head(kind, body.len()), 2);
    lemma_le_ranges();
    law_number_round_trip(chunk_head(kind, body.len()), 2);
    law_number_is_the_sum_of_its_bytes(head);
    assert(chunk_bytes(kind, body)[0] == head[0]);
    assert(chunk_bytes(kind, body)[1] == head[1]);
    assert(chunk_bytes(kind, body).skip(2) =~= body);
}

/// Any two bytes are read as a chunk head by that layout, and the data is what follows.
pub proof fn law_chunk_head_is_read_by_its_layout(data: Seq<u8>, pos: int)
    requires
        0 <= pos,
        pos + 2 <= data.len(),
    ensures
        chunk_kind(data, pos) == data[pos + 1] / 8,
        chunk_size(data, pos) == data[pos] + 256 * (data[pos + 1] % 8),
        pos + 2 + chunk_size(data, pos) <= data.len() ==> chunk_body(data, pos).len()
            == chunk_size(data, pos) && forall|i: int|
            0 <= i < chunk_size(data, pos) ==> (#[trigger] chunk_body(data, pos)[i]) == data[pos + 2
                + i],
{
    law_number_is_the_sum_of_its_bytes(data.subrange(pos, pos + 2));
}

/// Reading on stops at the end of the packet and before a chunk that is not all there, and
/// nowhere else.
pub proof fn law_chunk_is_read_where_it_is_whole(data: Seq<u8>, pos: int)
    requires
        0 <= pos <= data.len() <= usize::MAX,
    ensures
        data.len() - pos < 2 <==> chunk_at(data, pos) is End,
        data.len() - pos >= 2 ==> {
            let kind = data[pos + 1] / 8;
            let size = data[pos] + 256 * (data[pos + 1] % 8);
            chunk_at(data, pos) == if pos + 2 + size <= data.len() {
                ChunkStep::Chunk {
                    kind: kind as usize,
                    begin: (pos + 2) as usize,
                    end: (pos + 2 + size) as usize,
                }
            } else {
                ChunkStep::Truncated {
                    kind: kind as usize,
                    size: size as usize,
                    offset: (pos + 2) as usize,
                    left: (data.len() - pos - 2) as usize,
                }
            }
        },
{
    if data.len() - pos >= 2 {
        law_chunk_head_is_read_by_its_layout(data, pos);
    }
}

/// Overwriting changes the bytes that are written over, and no others.
pub proof fn law_overwriting_changes_only_what_is_written_over(
    base: Seq<u8>,
    at: int,
    data: Seq<u8>,
)
    requires
        0 <= at,
        at + data.len() <= base.len(),
    ensures
        overwrite(base, at, data) == base.take(at) + data + base.skip(at + data.len()),
{
    assert(overwrite(base, at, data) =~= base.take(at) + data + base.skip(at + data.len()));
}

} // verus!
