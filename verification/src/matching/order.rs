//! Putting frame numbers in ascending order.

use vstd::prelude::*;
use vstd::relations::{sorted_by, total_ordering};

verus! {

/// The ascending order of frame numbers.
pub open spec fn ascending() -> spec_fn(u32, u32) -> bool {
    |a: u32, b: u32| a <= b
}

/// The frames of `s` in ascending order, repetitions kept.
pub open spec fn in_order(s: Seq<u32>) -> Seq<u32> {
    s.sort_by(ascending())
}

/// An ascending rearrangement of `s` is [`in_order`] of `s`.
pub proof fn lemma_in_order_is(s: Seq<u32>, sorted: Seq<u32>)
    requires
        sorted_by(sorted, ascending()),
        sorted.to_multiset() == s.to_multiset(),
    ensures
        sorted == in_order(s),
{
    assert(total_ordering(ascending()));
    s.lemma_sort_by_ensures(ascending());
    vstd::seq_lib::lemma_sorted_unique(sorted, in_order(s), ascending());
}

/// What [`in_order`] gives: ascending, and with the same frames.
pub proof fn lemma_in_order(s: Seq<u32>)
    ensures
        forall|i: int, j: int|
            0 <= i <= j < in_order(s).len() ==> in_order(s)[i] <= in_order(s)[j],
        in_order(s).to_multiset() == s.to_multiset(),
        in_order(s).len() == s.len(),
{
    assert(total_ordering(ascending()));
    s.lemma_sort_by_ensures(ascending());
    let sorted = in_order(s);
    assert forall|i: int, j: int| 0 <= i <= j < sorted.len() implies sorted[i] <= sorted[j] by {
        if i < j {
            assert(ascending()(sorted[i], sorted[j]));
        }
    }
    s.to_multiset_ensures();
    sorted.to_multiset_ensures();
}

/// Merges two ascending lists.
fn merge(left: &Vec<u32>, right: &Vec<u32>) -> (merged: Vec<u32>)
    requires
        sorted_by(left@, ascending()),
        sorted_by(right@, ascending()),
    ensures
        sorted_by(merged@, ascending()),
        merged@.to_multiset() == (left@ + right@).to_multiset(),
{
    let mut merged: Vec<u32> = Vec::new();
    let mut i: usize = 0;
    let mut j: usize = 0;
    proof {
        assert(left@.take(0) + right@.take(0) =~= Seq::<u32>::empty());
    }
    while i < left.len() || j < right.len()
        invariant
            i <= left@.len(),
            j <= right@.len(),
            sorted_by(left@, ascending()),
            sorted_by(right@, ascending()),
            sorted_by(merged@, ascending()),
            merged@.to_multiset() == (left@.take(i as int) + right@.take(j as int)).to_multiset(),
            forall|a: int, b: int|
                0 <= a < merged@.len() && i <= b < left@.len() ==> merged@[a] <= left@[b],
            forall|a: int, b: int|
                0 <= a < merged@.len() && j <= b < right@.len() ==> merged@[a] <= right@[b],
        decreases left@.len() - i + right@.len() - j,
    {
        broadcast use vstd::seq_lib::group_to_multiset_ensures;
        broadcast use vstd::multiset::group_multiset_axioms;

        let ghost before = left@.take(i as int) + right@.take(j as int);
        let from_left: bool = j >= right.len() || (i < left.len() && left[i] <= right[j]);
        if from_left {
            let x: u32 = left[i];
            proof {
                assert forall|b: int| i <= b < left@.len() implies x <= left@[b] by {
                    if b > i {
                        assert(ascending()(left@[i as int], left@[b]));
                    }
                }
                assert forall|b: int| j <= b < right@.len() implies x <= right@[b] by {
                    if b > j {
                        assert(ascending()(right@[j as int], right@[b]));
                    }
                }
                assert(left@.take(i + 1) + right@.take(j as int) =~= before.insert(i as int, x));
            }
            merged.push(x);
            i = i + 1;
        } else {
            let x: u32 = right[j];
            proof {
                assert forall|b: int| j <= b < right@.len() implies x <= right@[b] by {
                    if b > j {
                        assert(ascending()(right@[j as int], right@[b]));
                    }
                }
                assert forall|b: int| i <= b < left@.len() implies x <= left@[b] by {
                    if b > i {
                        assert(ascending()(left@[i as int], left@[b]));
                    }
                }
                assert(left@.take(i as int) + right@.take(j + 1) =~= before.push(x));
            }
            merged.push(x);
            j = j + 1;
        }
    }
    proof {
        assert(left@.take(i as int) =~= left@);
        assert(right@.take(j as int) =~= right@);
    }
    merged
}

/// Sorts frame numbers.
pub fn sort_frames(frames: Vec<u32>) -> (sorted: Vec<u32>)
    ensures
        sorted@ == in_order(frames@),
    decreases frames@.len(),
{
    if frames.len() <= 1 {
        proof {
            lemma_in_order_is(frames@, frames@);
        }
        return frames;
    }
    let mut left: Vec<u32> = frames;
    let middle: usize = left.len() / 2;
    let right: Vec<u32> = left.split_off(middle);
    let ghost (low, high) = (left@, right@);
    proof {
        assert(frames@ =~= low + high);
        assert(total_ordering(ascending()));
        low.lemma_sort_by_ensures(ascending());
        high.lemma_sort_by_ensures(ascending());
    }
    let left: Vec<u32> = sort_frames(left);
    let right: Vec<u32> = sort_frames(right);
    let merged: Vec<u32> = merge(&left, &right);
    proof {
        vstd::seq_lib::lemma_multiset_commutative(low, high);
        vstd::seq_lib::lemma_multiset_commutative(left@, right@);
        lemma_in_order_is(frames@, merged@);
    }
    merged
}

} // verus!
