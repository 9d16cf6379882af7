//! Offset histograms: which frame shift lines two fingerprints up.
//!
//! Every hash that two recordings share casts a vote for the shift between
//! them. The true alignment is the mode of that histogram; everything else is
//! noise. Where several shifts collect equally many votes, the smallest wins.

use vstd::prelude::*;

verus! {

/// The shift from frame `to` to frame `from`, as a signed 32-bit number.
///
/// Frames further apart than half the frame range wrap around.
pub open spec fn frame_delta(from: u32, to: u32) -> int {
    let d = from - to;
    if d > i32::MAX {
        d - 0x1_0000_0000
    } else if d < i32::MIN {
        d + 0x1_0000_0000
    } else {
        d
    }
}

/// Computes [`frame_delta`].
pub fn delta_between(from: u32, to: u32) -> (delta: i32)
    ensures
        delta == frame_delta(from, to),
{
    let d: i64 = from as i64 - to as i64;
    if d > i32::MAX as i64 {
        (d - 0x1_0000_0000) as i32
    } else if d < i32::MIN as i64 {
        (d + 0x1_0000_0000) as i32
    } else {
        d as i32
    }
}

/// `d` is the mode of the histogram `weight`: it has votes, no shift has
/// more, and no smaller shift has as many.
pub open spec fn is_mode(weight: spec_fn(int) -> nat, d: int) -> bool {
    &&& weight(d) > 0
    &&& forall|e: int| #[trigger] weight(e) <= weight(d)
    &&& forall|e: int| #[trigger] weight(e) == weight(d) ==> d <= e
}

/// The mode of a histogram, if any shift has a vote.
pub open spec fn mode(weight: spec_fn(int) -> nat) -> Option<int> {
    if exists|d: int| is_mode(weight, d) {
        Some(choose|d: int| is_mode(weight, d))
    } else {
        None
    }
}

/// A histogram has at most one mode, so being a mode pins [`mode`].
pub proof fn lemma_mode_is(weight: spec_fn(int) -> nat, d: int)
    requires
        is_mode(weight, d),
    ensures
        mode(weight) == Some(d),
{
    let m = choose|m: int| is_mode(weight, m);
    assert(is_mode(weight, m));
    assert(weight(m) <= weight(d) && weight(d) <= weight(m));
}

/// A histogram whose votes all lie `k` later has its mode `k` later.
pub proof fn lemma_mode_moves(here: spec_fn(int) -> nat, there: spec_fn(int) -> nat, k: int)
    requires
        forall|e: int| #[trigger] there(e) == here(e - k),
    ensures
        mode(there) == (match mode(here) {
            Some(d) => Some(d + k),
            None => None,
        }),
{
    if exists|d: int| is_mode(here, d) {
        let d = choose|d: int| is_mode(here, d);
        assert(is_mode(there, d + k)) by {
            assert(there(d + k) == here(d));
            assert forall|e: int| #[trigger] there(e) <= there(d + k) by {
                assert(here(e - k) <= here(d));
            }
            assert forall|e: int| #[trigger] there(e) == there(d + k) implies d + k <= e by {
                assert(here(e - k) == here(d));
            }
        }
        lemma_mode_is(there, d + k);
    } else {
        assert forall|d: int| !is_mode(there, d) by {
            if is_mode(there, d) {
                assert(there(d) == here(d - k));
                assert forall|e: int| #[trigger] here(e) <= here(d - k) by {
                    assert(there(e + k) == here(e));
                }
                assert forall|e: int| #[trigger] here(e) == here(d - k) implies d - k <= e by {
                    assert(there(e + k) == here(e));
                }
                assert(is_mode(here, d - k));
            }
        }
    }
}

/// Without votes there is no mode.
pub proof fn lemma_no_mode(weight: spec_fn(int) -> nat)
    requires
        forall|e: int| #[trigger] weight(e) == 0,
    ensures
        mode(weight) is None,
{
    assert forall|d: int| !is_mode(weight, d) by {
        assert(weight(d) == 0);
    }
}

} // verus!
