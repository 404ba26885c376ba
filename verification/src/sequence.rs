//! Wrapping packet sequence numbers.

use vstd::prelude::*;

verus! {

/// Distances of this many steps or more have no meaningful order.
pub const AGE_LIMIT: u32 = 0x7fff_ffff;

/// A 32-bit packet counter that wraps around.
#[derive(Clone, Copy, Debug)]
pub struct Sequence {
    seq: u32,
}

impl View for Sequence {
    type V = u32;

    closed spec fn view(&self) -> u32 {
        self.seq
    }
}

impl Sequence {
    /// The counter that hands out 0 first.
    pub fn new() -> (r: Sequence)
        ensures
            r@ == 0,
    {
        Sequence { seq: 0 }
    }

    /// Hands out the current number and steps to the next one, modulo 2^32.
    pub fn next(&mut self) -> (r: u32)
        ensures
            r == old(self)@,
            final(self)@ as int == (old(self)@ + 1) % 0x1_0000_0000,
    {
        let ret: u32 = self.seq;
        self.seq = self.seq.wrapping_add(1);
        ret
    }

    /// The distance between the current number and `b`, if it is small enough to
    /// be meaningful.
    pub fn age(&self, b: u32) -> (r: Option<u32>)
        ensures
            r == age_between(self@, b),
    {
        let a: u32 = self.seq;
        if a < b {
            if b - a < AGE_LIMIT {
                return Some(b - a);
            } else {
                return None;
            }
        } else {
            if b == a {
                return Some(0);
            }
            if a - b < AGE_LIMIT {
                return Some(a - b);
            } else {
                return None;
            }
        }
    }
}

/// The distance between two sequence numbers, where it is below [`AGE_LIMIT`].
pub open spec fn age_between(a: u32, b: u32) -> Option<u32> {
    let distance = if a < b {
        b - a
    } else {
        a - b
    };
    if distance < AGE_LIMIT {
        Some(distance as u32)
    } else {
        None
    }
}

impl vstd::std_specs::convert::FromSpecImpl<Sequence> for u32 {
    open spec fn obeys_from_spec() -> bool {
        true
    }

    open spec fn from_spec(sequence: Sequence) -> u32 {
        sequence@
    }
}

impl From<Sequence> for u32 {
    fn from(sequence: Sequence) -> (r: u32) {
        sequence.seq
    }
}

/// The number that [`Sequence::next`] hands out on its call number `n`, counted from 0,
/// starting at `first`.
pub open spec fn nth_number(first: u32, n: nat) -> int {
    (first + n) % 0x1_0000_0000
}

/// Numbers handed out by fewer than 2^32 calls in a row are pairwise distinct.
pub proof fn law_numbers_repeat_only_after_a_full_turn(first: u32, m: nat, n: nat)
    requires
        m < n < m + 0x1_0000_0000,
    ensures
        nth_number(first, m) != nth_number(first, n),
{
    let a: int = first + m;
    let b: int = first + n;
    assert(a % 0x1_0000_0000 != b % 0x1_0000_0000) by (nonlinear_arith)
        requires
            a < b < a + 0x1_0000_0000,
    ;
}

/// Age does not depend on which of the two numbers is the current one.
pub proof fn law_age_is_symmetric(a: u32, b: u32)
    ensures
        age_between(a, b) == age_between(b, a),
{
}

/// The number handed out `n` calls ago is `n` steps old, as long as the counter did not
/// wrap in between and `n` is meaningful.
pub proof fn law_age_counts_calls(first: u32, n: nat)
    requires
        n < AGE_LIMIT,
        first + n <= u32::MAX,
    ensures
        age_between(nth_number(first, n) as u32, first) == Some(n as u32),
{
}

/// The age of a number is how far apart the two numbers are, and there is one exactly where that
/// is less than half of what 32 bits can count.
pub proof fn law_age_is_the_distance(a: u32, b: u32)
    ensures
        age_between(a, b) matches Some(d) ==> (a + d == b || b + d == a) && d < u32::MAX / 2,
        age_between(a, b) is None ==> a - b >= u32::MAX / 2 || b - a >= u32::MAX / 2,
{
}

/// A counter becomes the number that it hands out next.
pub proof fn law_counter_becomes_its_next_number(sequence: Sequence)
    ensures
        <u32 as vstd::std_specs::convert::FromSpec<Sequence>>::from_spec(sequence) == sequence@,
{
}

} // verus!
