//! Arithmetic on 32-bit sequence numbers, which wrap around past `u32::MAX`.

use std::cmp::Ordering;
use vstd::prelude::*;

verus! {

/// How many steps forward lead from `from` to `to` around the sequence space.
pub open spec fn distance(from: u32, to: u32) -> int {
    (to - from) % 0x1_0000_0000
}

/// `x` comes strictly after `start` and strictly before `end` on the way
/// forward from `start` around the sequence space.
pub open spec fn between_wrapped(start: u32, x: u32, end: u32) -> bool {
    0 < distance(start, x) < distance(start, end)
}

/// Decides whether `x` lies between `start` and `end` in the wrapping order,
/// by comparing `start` with `x` three ways.
pub fn is_between_wrapped(start: u32, x: u32, end: u32) -> (r: bool)
    ensures
        r == between_wrapped(start, x, end),
{
    match start.cmp(&x) {
        Ordering::Equal => false,
        Ordering::Less => {
            // fails exactly when `end` is one of start..=x
            !(end >= start && end <= x)
        },
        Ordering::Greater => {
            // the interval wraps: `end` must lie in the gap between x and start
            end < start && end > x
        },
    }
}

/// Nothing lies between a number and itself: with `x` equal to `start` the
/// answer is no, wherever `end` is.
pub proof fn lemma_start_is_outside(start: u32, end: u32)
    ensures
        !between_wrapped(start, start, end),
{
}

/// The end of the interval is outside it.
pub proof fn lemma_end_is_outside(start: u32, end: u32)
    ensures
        !between_wrapped(start, end, end),
{
}

/// Where `end` is not below `start`, the interval does not wrap, and `x` lies
/// in it exactly when it is above `start` and below `end`.
pub proof fn lemma_between_plain(start: u32, x: u32, end: u32)
    requires
        start <= end,
    ensures
        between_wrapped(start, x, end) <==> start < x < end,
{
}

/// Where `end` is below `start`, the interval wraps past the largest number,
/// and `x` lies in it exactly when it is above `start` or below `end`.
pub proof fn lemma_between_wrapping(start: u32, x: u32, end: u32)
    requires
        end < start,
    ensures
        between_wrapped(start, x, end) <==> (x > start || x < end),
{
}

/// Moving all three numbers by the same amount around the sequence space
/// changes nothing: only the distances from `start` count.
pub proof fn lemma_between_shifted(start: u32, x: u32, end: u32, start2: u32, x2: u32, end2: u32)
    requires
        distance(start, x) == distance(start2, x2),
        distance(start, end) == distance(start2, end2),
    ensures
        between_wrapped(start, x, end) == between_wrapped(start2, x2, end2),
{
}

} // verus!
