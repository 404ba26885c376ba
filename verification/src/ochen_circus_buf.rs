//! A ring of bytes that can be written ahead of the end of its readable part.

use crate::wire;
use vstd::prelude::*;

verus! {

/// A byte ring of fixed capacity. One slot always stays free, so that an empty ring and
/// a full one can be told apart.
///
/// Besides appending, bytes can be placed at any distance from the read position, before
/// or beyond the end of the readable part.
pub struct OchenCircusBuf {
    buf: Vec<u8>,
    read: usize,
    write: usize,
}

/// The slots of `ring` as seen from a read position `by` slots further on.
pub open spec fn rotate(ring: Seq<u8>, by: int) -> Seq<u8>
    recommends
        0 <= by < ring.len(),
{
    ring.skip(by) + ring.take(by)
}

/// The index of the slot that is `by` slots after slot `from`, in a ring of `cap` slots.
pub open spec fn slot_after(from: int, by: int, cap: int) -> int {
    if from + by < cap {
        from + by
    } else {
        from + by - cap
    }
}

/// Bytes that were placed in the ring are met there, however far a reader has moved on towards
/// them, and all other slots keep what they held.
pub proof fn law_placed_bytes_are_read_back(
    ring: Seq<u8>,
    offset: int,
    data: Seq<u8>,
    by: int,
    j: int,
)
    requires
        0 <= offset,
        offset + data.len() <= ring.len(),
        0 <= by < ring.len(),
        0 <= j < ring.len() - by,
    ensures
        rotate(wire::overwrite(ring, offset, data), by)[j] == if offset <= by + j < offset
            + data.len() {
            data[by + j - offset]
        } else {
            ring[by + j]
        },
{
}

/// Moving on twice is moving on once by the sum.
pub proof fn law_steps_add_up(ring: Seq<u8>, a: int, b: int)
    requires
        0 <= a,
        0 <= b,
        a + b < ring.len(),
    ensures
        rotate(rotate(ring, a), b) == rotate(ring, a + b),
{
    assert(rotate(rotate(ring, a), b) =~= rotate(ring, a + b));
}

/// Moving on changes no slot: the slots before the new read position are met after all others.
pub proof fn law_moving_on_keeps_every_slot(ring: Seq<u8>, by: int, j: int)
    requires
        0 <= by < ring.len(),
        0 <= j < ring.len(),
    ensures
        rotate(ring, by).len() == ring.len(),
        rotate(ring, by)[j] == ring[(by + j) % ring.len() as int],
{
    let n = ring.len() as int;
    if by + j < n {
        vstd::arithmetic::div_mod::lemma_small_mod((by + j) as nat, n as nat);
    } else {
        vstd::arithmetic::div_mod::lemma_small_mod((by + j - n) as nat, n as nat);
        vstd::arithmetic::div_mod::lemma_mod_sub_multiples_vanish(by + j, n);
    }
}

impl View for OchenCircusBuf {
    type V = Seq<u8>;

    /// The readable bytes.
    open spec fn view(&self) -> Seq<u8> {
        self.ring().take(self.readable() as int)
    }
}

impl OchenCircusBuf {
    pub closed spec fn wf(&self) -> bool {
        &&& self.buf.len() <= isize::MAX
        &&& if self.buf.len() == 0 {
            self.read == 0 && self.write == 0
        } else {
            self.read < self.buf.len() && self.write < self.buf.len()
        }
    }

    /// All slots, readable or not, in the order in which a reader meets them.
    pub closed spec fn ring(&self) -> Seq<u8> {
        Seq::new(
            self.buf@.len(),
            |i: int| self.buf@[slot_after(self.read as int, i, self.buf@.len() as int)],
        )
    }

    /// How many slots are readable.
    pub closed spec fn readable(&self) -> nat {
        if self.read <= self.write {
            (self.write - self.read) as nat
        } else {
            (self.buf.len() - self.read + self.write) as nat
        }
    }

    /// Where in the underlying storage the next byte is read.
    pub closed spec fn read_pos(&self) -> nat {
        self.read as nat
    }

    /// How many slots there are.
    pub open spec fn slots(&self) -> nat {
        self.ring().len()
    }

    /// A ring always has a free slot, unless it has none at all.
    pub proof fn lemma_bounds(&self)
        requires
            self.wf(),
        ensures
            self.slots() <= isize::MAX,
            self.slots() == 0 ==> self.readable() == 0,
            self.slots() > 0 ==> self.readable() < self.slots() && self.read_pos() < self.slots(),
            self@.len() == self.readable(),
    {
    }

    /// An empty ring with `capacity` slots, one of which is kept free.
    pub fn with_capacity(capacity: usize) -> (r: Self)
        requires
            capacity <= isize::MAX,
        ensures
            r.wf(),
            r.ring() == Seq::new(capacity as nat, |i: int| 0u8),
            r.readable() == 0,
            r@ == Seq::<u8>::empty(),
            r.read_pos() == 0,
    {
        let r = Self { buf: vec![0; capacity], read: 0, write: 0 };
        assert(r.ring() =~= Seq::new(capacity as nat, |i: int| 0u8));
        assert(r@ =~= Seq::<u8>::empty());
        r
    }

    /// How many slots there are.
    pub fn capacity(&self) -> (r: usize)
        ensures
            r == self.slots(),
    {
        self.buf.len()
    }

    /// How many bytes are readable.
    pub fn len(&self) -> (r: usize)
        requires
            self.wf(),
        ensures
            r == self@.len(),
    {
        proof {
            self.lemma_bounds();
        }
        if self.read <= self.write {
            self.write - self.read
        } else {
            self.buf.len() - self.read + self.write
        }
    }

    /// Places as much of `data` as fits at `offset` bytes after the read position, and
    /// returns how many bytes that was. The readable part grows to reach the end of what
    /// was placed, and never shrinks.
    pub fn write_data_at_read_offset(&mut self, offset: usize, data: &[u8]) -> (r: usize)
        requires
            old(self).wf(),
        ensures
            final(self).wf(),
            final(self).read_pos() == old(self).read_pos(),
            offset >= old(self).slots() ==> {
                &&& r == 0
                &&& final(self).ring() == old(self).ring()
                &&& final(self).readable() == old(self).readable()
            },
            offset < old(self).slots() ==> {
                &&& r == if data@.len() < old(self).slots() - offset - 1 {
                    data@.len() as int
                } else {
                    old(self).slots() - offset - 1
                }
                &&& final(self).ring() == wire::overwrite(
                    old(self).ring(),
                    offset as int,
                    data@.take(r as int),
                )
                &&& final(self).readable() == if offset + r > old(self).readable() {
                    (offset + r) as nat
                } else {
                    old(self).readable()
                }
            },
    {
        proof {
            self.lemma_bounds();
        }
        if offset >= self.buf.len() {
            return 0;
        }
        let ghost pre = *self;
        let cap: usize = self.buf.len();
        let readable: usize = self.len();
        let room: usize = cap - offset - 1;
        let write_size: usize = if room < data.len() {
            room
        } else {
            data.len()
        };
        let write_pos: usize = if self.read + offset < cap {
            self.read + offset
        } else {
            self.read + offset - cap
        };
        let mut slot: usize = write_pos;
        let mut i: usize = 0;
        while i < write_size
            invariant
                i <= write_size <= data.len(),
                write_size < cap,
                cap == self.buf.len() <= isize::MAX,
                cap == pre.buf.len(),
                write_pos < cap,
                slot == slot_after(write_pos as int, i as int, cap as int),
                self.read == pre.read,
                self.write == pre.write,
                forall|k: int|
                    0 <= k < i ==> #[trigger] self.buf@[slot_after(write_pos as int, k, cap as int)]
                        == data@[k],
                forall|s: int|
                    0 <= s < cap && (forall|k: int|
                        0 <= k < i ==> s != #[trigger] slot_after(write_pos as int, k, cap as int))
                        ==> #[trigger] self.buf@[s] == pre.buf@[s],
            decreases write_size - i,
        {
            let ghost before = self.buf@;
            self.buf[slot] = data[i];
            assert forall|s: int|
                0 <= s < cap && (forall|k: int|
                    0 <= k < i + 1 ==> s != #[trigger] slot_after(
                        write_pos as int,
                        k,
                        cap as int,
                    )) implies #[trigger] self.buf@[s] == pre.buf@[s] by {
                assert(s != slot_after(write_pos as int, i as int, cap as int));
                assert(before[s] == pre.buf@[s]);
            }
            i += 1;
            slot = if slot + 1 < cap {
                slot + 1
            } else {
                0
            };
        }
        if offset + write_size > readable {
            self.write = slot;
        }
        proof {
            assert forall|j: int| 0 <= j < cap implies self.ring()[j] == wire::overwrite(
                pre.ring(),
                offset as int,
                data@.take(write_size as int),
            )[j] by {
                let s = slot_after(self.read as int, j, cap as int);
                if offset <= j < offset + write_size {
                    assert(s == slot_after(write_pos as int, j - offset, cap as int));
                } else {
                    assert forall|k: int| 0 <= k < write_size implies s != #[trigger] slot_after(
                        write_pos as int,
                        k,
                        cap as int,
                    ) by {
                        assert(slot_after(write_pos as int, k, cap as int) == slot_after(
                            self.read as int,
                            offset + k,
                            cap as int,
                        ));
                    }
                    assert(self.buf@[s] == pre.buf@[s]);
                }
            }
            assert(self.ring() =~= wire::overwrite(
                pre.ring(),
                offset as int,
                data@.take(write_size as int),
            ));
        }
        write_size
    }

    /// The readable bytes as two runs: up to the end of the underlying storage, and the
    /// rest.
    pub fn get_data(&self) -> (r: [&[u8]; 2])
        requires
            self.wf(),
        ensures
            r@[0]@ + r@[1]@ == self@,
            r@[0]@.len() == if self.read_pos() + self@.len() <= self.slots() {
                self@.len() as int
            } else {
                self.slots() - self.read_pos()
            },
    {
        proof {
            self.lemma_bounds();
        }
        if self.read <= self.write {
            let r = [&self.buf[self.read..self.write], &self.buf[0..0]];
            assert(r@[0]@ + r@[1]@ =~= self@);
            r
        } else {
            let r = [&self.buf[self.read..self.buf.len()], &self.buf[0..self.write]];
            assert(r@[0]@ + r@[1]@ =~= self@);
            r
        }
    }

    /// Moves the read position on by `offset` slots. Within the readable part this drops
    /// its first `offset` bytes; beyond it, the readable part wraps around the ring.
    pub fn consume(&mut self, offset: usize)
        requires
            old(self).wf(),
            old(self).slots() > 0,
        ensures
            final(self).wf(),
            final(self).slots() == old(self).slots(),
            final(self).ring() == rotate(old(self).ring(), offset as int % old(self).slots() as int),
            final(self).readable() as int == (old(self).readable() - offset) % (
            old(self).slots() as int),
            final(self).read_pos() as int == (old(self).read_pos() + offset) % (
            old(self).slots() as int),
            offset <= old(self)@.len() ==> final(self)@ == old(self)@.skip(offset as int),
    {
        let ghost pre = *self;
        let cap: usize = self.buf.len();
        let step: usize = offset % cap;
        self.read = if self.read + step < cap {
            self.read + step
        } else {
            self.read + step - cap
        };
        proof {
            let c = cap as int;
            let q = offset as int / c;
            vstd::arithmetic::div_mod::lemma_fundamental_div_mod(offset as int, c);
            assert(offset == c * q + step);
            assert(self.ring() =~= rotate(pre.ring(), step as int));
            vstd::arithmetic::div_mod::lemma_mod_multiples_vanish(q, pre.read + step, c);
            vstd::arithmetic::div_mod::lemma_mod_multiples_vanish(-q, pre.readable() - step, c);
            assert(c * q + (pre.read + step) == pre.read + offset);
            assert(c * (-q) + (pre.readable() - step) == pre.readable() - offset) by (nonlinear_arith)
                requires
                    offset == c * q + step,
            ;
            if pre.read + step < c {
                vstd::arithmetic::div_mod::lemma_small_mod((pre.read + step) as nat, c as nat);
            } else {
                vstd::arithmetic::div_mod::lemma_small_mod((pre.read + step - c) as nat, c as nat);
                vstd::arithmetic::div_mod::lemma_mod_sub_multiples_vanish(pre.read + step, c);
            }
            if step <= pre.readable() {
                vstd::arithmetic::div_mod::lemma_small_mod((pre.readable() - step) as nat, c as nat);
            } else {
                vstd::arithmetic::div_mod::lemma_small_mod(
                    (pre.readable() - step + c) as nat,
                    c as nat,
                );
                vstd::arithmetic::div_mod::lemma_mod_add_multiples_vanish(
                    pre.readable() - step,
                    c,
                );
            }
            if offset <= pre@.len() {
                vstd::arithmetic::div_mod::lemma_small_mod(offset as nat, c as nat);
                assert(self@ =~= pre@.skip(offset as int));
            }
        }
    }
}

} // verus!
