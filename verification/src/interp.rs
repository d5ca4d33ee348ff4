//! Recursive interval lookup over an ordered sequence of scalars.
//!
//! Given a strictly monotonic sequence and a query value, the helper
//! returns the left index of the bracketing interval, halving the sequence
//! until a two-entry base case (or a three-entry midpoint match within a
//! fixed tolerance) applies.
use vstd::prelude::*;
use crate::fbits::{abs_of, f_le, f_lt, le_bits, lt_bits, abs_bits};
use crate::scalar::{sub_bits, bits_sub};

verus! {

/// Bit pattern of the midpoint-matching tolerance.
pub const TOL_BITS: u64 = 0x3CD2_03AF_9EE7_5616;

/// The recursion itself: a sequence of at most two entries answers the
/// base offset; a three-entry sequence whose midpoint matches the query
/// within the tolerance answers the base offset; otherwise the half
/// holding the query is searched, the left half inclusive of the midpoint
/// when the query is at most the midpoint, else the right half with the
/// offset advanced.
pub open spec fn index_left_spec(s: Seq<u64>, value: u64, lc: int) -> int
    decreases s.len(),
{
    if s.len() <= 2 {
        lc
    } else {
        let split = (s.len() - 1) / 2;
        let lv = s[split];
        if s.len() == 3 && f_lt(abs_of(sub_bits(value, lv)), TOL_BITS) {
            lc
        } else if f_le(value, lv) {
            index_left_spec(s.take(split + 1), value, lc)
        } else {
            index_left_spec(s.skip(split), value, lc + split)
        }
    }
}

/// The left index of the interval bracketing `value` in a strictly
/// monotonic sequence of at least two entries, counted from the given base
/// offset.
pub fn index_left_f64(list_input: &[u64], value: u64, left_count: Option<usize>) -> (r: usize)
    requires
        list_input@.len() >= 2,
        (match left_count {
            Some(l) => l as int,
            None => 0int,
        }) + list_input@.len() <= usize::MAX,
    ensures
        r as int == index_left_spec(
            list_input@,
            value,
            match left_count {
                Some(l) => l as int,
                None => 0int,
            },
        ),
{
    let lc = match left_count {
        Some(l) => l,
        None => 0,
    };
    index_left_rec(list_input, value, lc)
}

/// The recursion behind `index_left_f64`.
fn index_left_rec(list: &[u64], value: u64, lc: usize) -> (r: usize)
    requires
        list@.len() >= 2,
        lc + list@.len() <= usize::MAX,
    ensures
        r as int == index_left_spec(list@, value, lc as int),
    decreases list@.len(),
{
    let n = list.len();
    if n == 2 {
        lc
    } else {
        let split = (n - 1) / 2;
        let lv = list[split];
        if n == 3 && lt_bits(abs_bits(bits_sub(value, lv)), TOL_BITS) {
            lc
        } else if le_bits(value, lv) {
            let sub = &list[0..split + 1];
            proof {
                assert(sub@ =~= list@.take(split + 1));
            }
            index_left_rec(sub, value, lc)
        } else {
            let sub = &list[split..n];
            proof {
                assert(sub@ =~= list@.skip(split as int));
            }
            index_left_rec(sub, value, lc + split)
        }
    }
}

} // verus!
