//! Intervals of the ring.
use crate::ring::in_interval;
use vstd::prelude::*;

verus! {

/// Membership in `(start, end]`, wrapping at the largest token; equal ends span the ring.
pub fn interval_contains(start: u64, end: u64, token: u64) -> (r: bool)
    ensures
        r == in_interval(start, end, token),
{
    if start < end {
        token > start && token <= end
    } else if start > end {
        token > start || token <= end
    } else {
        true
    }
}

/// Two intervals meet in some token.
pub open spec fn overlap(a_start: u64, a_end: u64, b_start: u64, b_end: u64) -> bool {
    exists|t: u64| in_interval(a_start, a_end, t) && #[trigger] in_interval(b_start, b_end, t)
}

/// Tells whether two intervals meet.
pub fn intervals_overlap(a_start: u64, a_end: u64, b_start: u64, b_end: u64) -> (r: bool)
    ensures
        r == overlap(a_start, a_end, b_start, b_end),
{
    let r = interval_contains(a_start, a_end, b_end) || interval_contains(b_start, b_end, a_end);
    proof {
        assert(in_interval(a_start, a_end, a_end));
        assert(in_interval(b_start, b_end, b_end));
        if overlap(a_start, a_end, b_start, b_end) {
            let t = choose|t: u64|
                in_interval(a_start, a_end, t) && #[trigger] in_interval(b_start, b_end, t);
            // One of the two intervals ends first, clockwise from `t`.
            assert(in_interval(a_start, a_end, b_end) || in_interval(b_start, b_end, a_end));
        }
    }
    r
}

} // verus!
