//! Longest contiguous run of votes.

use vstd::prelude::*;

verus! {

/// Largest frame gap considered to be still inside a run (about 1.3 s at
/// 16 kHz with a hop of 2048).
pub const MAX_GAP_FRAMES: u32 = 10;

/// `frames[i..=j]` is a run: no two neighbours are more than `max_gap` apart.
pub open spec fn is_run(frames: Seq<u32>, max_gap: u32, i: int, j: int) -> bool {
    &&& 0 <= i <= j < frames.len()
    &&& forall|k: int| i < k <= j ==> (#[trigger] frames[k]) - frames[k - 1] <= max_gap
}

/// `frames[i..=j]` is the first of the longest runs.
pub open spec fn is_longest_run(frames: Seq<u32>, max_gap: u32, i: int, j: int) -> bool {
    &&& is_run(frames, max_gap, i, j)
    &&& forall|a: int, b: int| #[trigger] is_run(frames, max_gap, a, b) ==> b - a <= j - i
    &&& forall|a: int, b: int| #[trigger]
        is_run(frames, max_gap, a, b) && b - a == j - i ==> i <= a
}

/// First and last frame of the longest run.
pub open spec fn longest_run_bounds(frames: Seq<u32>, max_gap: u32) -> (u32, u32) {
    let (i, j) = choose|i: int, j: int| is_longest_run(frames, max_gap, i, j);
    (frames[i], frames[j])
}

/// There is only one longest run, so finding it gives its bounds.
pub proof fn lemma_longest_run_is(frames: Seq<u32>, max_gap: u32, i: int, j: int)
    requires
        is_longest_run(frames, max_gap, i, j),
    ensures
        longest_run_bounds(frames, max_gap) == (frames[i], frames[j]),
{
    let (a, b) = choose|a: int, b: int| is_longest_run(frames, max_gap, a, b);
    assert(is_longest_run(frames, max_gap, a, b));
    assert(is_run(frames, max_gap, a, b));
    assert(is_run(frames, max_gap, i, j));
}

/// Finds the longest stretch of frames without a gap over `max_gap`, and
/// returns its first and last frame. Of equally long stretches the earliest
/// one counts.
pub fn longest_run(frames: &[u32], max_gap: u32) -> (bounds: (u32, u32))
    requires
        frames@.len() > 0,
        forall|i: int, j: int| 0 <= i <= j < frames@.len() ==> frames@[i] <= frames@[j],
    ensures
        bounds == longest_run_bounds(frames@, max_gap),
        exists|i: int, j: int| #[trigger]
            is_longest_run(frames@, max_gap, i, j) && bounds.0 == frames@[i] && bounds.1
                == frames@[j],
{
    let mut best_start: usize = 0;
    let mut best_end: usize = 0;
    let mut start: usize = 0;
    let mut k: usize = 1;
    let ghost s = frames@;
    while k < frames.len()
        invariant
            s == frames@,
            1 <= k <= s.len(),
            start < k,
            best_start <= best_end < k,
            forall|i: int, j: int| 0 <= i <= j < s.len() ==> s[i] <= s[j],
            is_run(s, max_gap, start as int, k - 1),
            start > 0 ==> s[start as int] - s[start - 1] > max_gap,
            is_run(s, max_gap, best_start as int, best_end as int),
            forall|a: int, b: int| #[trigger]
                is_run(s, max_gap, a, b) && b < k ==> b - a <= best_end - best_start,
            forall|a: int, b: int| #[trigger]
                is_run(s, max_gap, a, b) && b < k && b - a == best_end - best_start
                    ==> best_start <= a,
        decreases s.len() - k,
    {
        let gap: u32 = frames[k] - frames[k - 1];
        if gap > max_gap {
            start = k;
        }
        proof {
            assert(is_run(s, max_gap, start as int, k as int));
            assert forall|a: int| #[trigger] is_run(s, max_gap, a, k as int) implies start <= a by {
                if a < start {
                    assert(s[start as int] - s[start - 1] <= max_gap);
                }
            }
        }
        if k - start > best_end - best_start {
            best_start = start;
            best_end = k;
        }
        k = k + 1;
    }
    proof {
        assert(is_longest_run(s, max_gap, best_start as int, best_end as int));
        lemma_longest_run_is(s, max_gap, best_start as int, best_end as int);
    }
    (frames[best_start], frames[best_end])
}

/// `best` is the longest run that ends before `k`, and `start` is where the run
/// that ends right before `k` begins.
spec fn is_scanned(frames: Seq<u32>, max_gap: u32, k: int, best: (int, int), start: int) -> bool {
    &&& 0 <= start < k <= frames.len()
    &&& best.1 < k
    &&& is_run(frames, max_gap, start, k - 1)
    &&& start > 0 ==> frames[start] - frames[start - 1] > max_gap
    &&& is_run(frames, max_gap, best.0, best.1)
    &&& forall|a: int, b: int| #[trigger]
        is_run(frames, max_gap, a, b) && b < k ==> b - a <= best.1 - best.0
    &&& forall|a: int, b: int| #[trigger]
        is_run(frames, max_gap, a, b) && b < k && b - a == best.1 - best.0 ==> best.0 <= a
}

/// The first frames of a list have a longest run.
proof fn lemma_scanned(frames: Seq<u32>, max_gap: u32, k: int) -> (found: ((int, int), int))
    requires
        1 <= k <= frames.len(),
    ensures
        is_scanned(frames, max_gap, k, found.0, found.1),
    decreases k,
{
    if k == 1 {
        assert(is_run(frames, max_gap, 0, 0));
        ((0, 0), 0)
    } else {
        let (best, start) = lemma_scanned(frames, max_gap, k - 1);
        let last = k - 1;
        let next = if frames[last] - frames[last - 1] > max_gap {
            last
        } else {
            start
        };
        assert(is_run(frames, max_gap, next, last));
        assert forall|a: int| #[trigger] is_run(frames, max_gap, a, last) implies next <= a by {
            if a < next {
                assert(frames[next] - frames[next - 1] <= max_gap);
            }
        }
        if last - next > best.1 - best.0 {
            ((next, last), next)
        } else {
            (best, next)
        }
    }
}

/// A list that is not empty has a longest run.
pub proof fn lemma_longest_run_exists(frames: Seq<u32>, max_gap: u32) -> (best: (int, int))
    requires
        frames.len() > 0,
    ensures
        is_longest_run(frames, max_gap, best.0, best.1),
{
    lemma_scanned(frames, max_gap, frames.len() as int).0
}

/// Somewhere from place `a` to place `b` two neighbouring frames are more than
/// `max_gap` apart.
pub open spec fn has_gap(frames: Seq<u32>, max_gap: u32, a: int, b: int) -> bool {
    exists|k: int| a < k <= b && (#[trigger] frames[k]) - frames[k - 1] > max_gap
}

/// The longest run is the longest stretch without a gap over `max_gap`, the first
/// of several: where there is no such gap from place `i` to place `j`, but one in
/// every longer stretch and in every earlier one of the same length, it goes from
/// frame `i` to frame `j`.
pub proof fn law_longest_run_has_no_gap(frames: Seq<u32>, max_gap: u32, i: int, j: int)
    requires
        0 <= i <= j < frames.len(),
        !has_gap(frames, max_gap, i, j),
        forall|a: int, b: int|
            0 <= a <= b < frames.len() && (b - a > j - i || (b - a == j - i && a < i))
                ==> #[trigger] has_gap(frames, max_gap, a, b),
    ensures
        longest_run_bounds(frames, max_gap) == (frames[i], frames[j]),
{
    assert forall|a: int, b: int| #[trigger] is_run(frames, max_gap, a, b) implies b - a <= j - i
        && (b - a == j - i ==> i <= a) by {
        if b - a > j - i || (b - a == j - i && a < i) {
            assert(has_gap(frames, max_gap, a, b));
            let k = choose|k: int|
                a < k <= b && (#[trigger] frames[k]) - frames[k - 1] > max_gap;
            assert(frames[k] - frames[k - 1] <= max_gap);
        }
    }
    assert(is_run(frames, max_gap, i, j)) by {
        assert forall|k: int| i < k <= j implies (#[trigger] frames[k]) - frames[k - 1]
            <= max_gap by {
            if frames[k] - frames[k - 1] > max_gap {
                assert(has_gap(frames, max_gap, i, j));
            }
        }
    }
    assert(is_longest_run(frames, max_gap, i, j));
    lemma_longest_run_is(frames, max_gap, i, j);
}

} // verus!
