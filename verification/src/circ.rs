//! The ring buffer of the `circbuf` crate, by what it holds.

use circbuf::CircBuf;
use std::io::Write;
use vstd::arithmetic::power2::pow2;
use vstd::prelude::*;

verus! {

/// `circbuf::CircBuf`, a ring buffer of bytes.
#[verifier::external_type_specification]
#[verifier::external_body]
pub struct ExCircBuf(circbuf::CircBuf);

/// The bytes that a ring buffer holds, oldest first.
pub uninterp spec fn circ_bytes(buffer: CircBuf) -> Seq<u8>;

/// How many slots a ring buffer has. One that was made with a capacity has at least one; a
/// default one has none, and cannot be used.
pub uninterp spec fn circ_slots(buffer: CircBuf) -> nat;

/// How many bytes a ring buffer can hold: one slot always stays free.
pub open spec fn circ_cap(buffer: CircBuf) -> nat {
    if circ_slots(buffer) > 0 {
        (circ_slots(buffer) - 1) as nat
    } else {
        0
    }
}

/// How many more bytes a ring buffer can take.
pub open spec fn circ_room(buffer: CircBuf) -> nat {
    (circ_cap(buffer) - circ_bytes(buffer).len()) as nat
}

/// `p` is the smallest power of two that is not below `n`.
pub open spec fn rounds_up_to(n: nat, p: nat) -> bool {
    exists|k: nat| p == #[trigger] pow2(k) && n <= p && (k > 0 ==> pow2((k - 1) as nat) < n)
}

/// `CircBuf::with_capacity`: an empty buffer, with as many slots as the smallest power of two
/// that is not below `cap`. Beyond the bound on `cap` that power cannot be allocated.
#[verifier::external_body]
pub(crate) fn with_capacity(cap: usize) -> (r: CircBuf)
    requires
        cap <= isize::MAX / 2 + 1,
    ensures
        circ_bytes(r) == Seq::<u8>::empty(),
        circ_slots(r) > 0,
        rounds_up_to(cap as nat, circ_slots(r)),
{
    CircBuf::with_capacity(cap).unwrap()
}

/// `CircBuf::cap`: how many bytes the buffer can hold, which is never exceeded. Without slots
/// the call underflows.
#[verifier::external_body]
pub(crate) fn cap(buffer: &CircBuf) -> (r: usize)
    requires
        circ_slots(*buffer) > 0,
    ensures
        r == circ_cap(*buffer),
        r >= circ_bytes(*buffer).len(),
{
    buffer.cap()
}

/// `CircBuf::len`: how many bytes the buffer holds, never more than it can.
#[verifier::external_body]
pub(crate) fn len(buffer: &CircBuf) -> (r: usize)
    ensures
        r == circ_bytes(*buffer).len(),
        r <= circ_cap(*buffer),
{
    buffer.len()
}

/// `CircBuf::get_bytes`: the bytes that the buffer holds, in two runs. Without slots the call
/// panics.
#[verifier::external_body]
pub(crate) fn get_bytes(buffer: &CircBuf) -> (r: (&[u8], &[u8]))
    requires
        circ_slots(*buffer) > 0,
    ensures
        r.0@ + r.1@ == circ_bytes(*buffer),
{
    let [first, second] = buffer.get_bytes();
    (first, second)
}

/// `std::io::Write::write` of `CircBuf`: appends as many of the bytes as there is room for,
/// and returns how many that was. Without slots the call underflows or panics.
#[verifier::external_body]
pub(crate) fn write(buffer: &mut CircBuf, data: &[u8]) -> (r: usize)
    requires
        circ_slots(*old(buffer)) > 0,
    ensures
        r == if data@.len() < circ_room(*old(buffer)) {
            data@.len()
        } else {
            circ_room(*old(buffer))
        },
        circ_bytes(*final(buffer)) == circ_bytes(*old(buffer)) + data@.take(r as int),
        circ_slots(*final(buffer)) == circ_slots(*old(buffer)),
{
    buffer.write(data).unwrap()
}

/// `CircBuf::advance_read`: drops the oldest `num` bytes, or tells that there are fewer.
/// Without slots the call panics.
#[verifier::external_body]
pub(crate) fn advance_read(buffer: &mut CircBuf, num: usize) -> (r: bool)
    requires
        circ_slots(*old(buffer)) > 0,
    ensures
        r == (num <= circ_bytes(*old(buffer)).len()),
        circ_bytes(*final(buffer)) == if r {
            circ_bytes(*old(buffer)).skip(num as int)
        } else {
            circ_bytes(*old(buffer))
        },
        circ_slots(*final(buffer)) == circ_slots(*old(buffer)),
{
    buffer.advance_read(num).is_ok()
}

/// Rounding up to a power of two does not double the number.
pub proof fn lemma_rounded(n: nat, p: nat, limit: nat)
    requires
        rounds_up_to(n, p),
        n <= limit,
        1 <= limit,
    ensures
        1 <= p < 2 * limit || p == 1,
        n <= p,
{
    let k = choose|k: nat|
        p == #[trigger] pow2(k) && n <= p && (k > 0
            ==> pow2((k - 1) as nat) < n);
    vstd::arithmetic::power2::lemma_pow2_pos(k);
    if k > 0 {
        vstd::arithmetic::power2::lemma_pow2_unfold(k);
    } else {
        vstd::arithmetic::power2::lemma2_to64();
    }
}

/// A number is rounded up to the smallest power of two that is not below it.
pub proof fn law_rounding_goes_to_the_next_power(n: nat, p: nat, j: nat)
    requires
        rounds_up_to(n, p),
        n <= pow2(j),
    ensures
        n <= p <= pow2(j),
        exists|k: nat| p == #[trigger] pow2(k),
{
    let k = choose|k: nat|
        p == #[trigger] pow2(k) && n <= p && (k > 0 ==> pow2((k - 1) as nat) < n);
    if j < k {
        if j < k - 1 {
            vstd::arithmetic::power2::lemma_pow2_strictly_increases(j, (k - 1) as nat);
        }
    } else if k < j {
        vstd::arithmetic::power2::lemma_pow2_strictly_increases(k, j);
    }
}

} // verus!
