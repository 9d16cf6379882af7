//! What a reference holds: the hashes that enough recordings share, each
//! recording taken at the shift at which it has most in common with the first.

use vstd::prelude::*;

use super::alignment;
use super::reference;
use super::ReferenceFingerprint;
use crate::fingerprint::constellation::FingerprintView;
use crate::fingerprint::{Fingerprint, FpHash};

verus! {

/// The pairs of equal hashes of two recordings that lie `d` frames apart: the
/// one at place `i` of the first recording, and the one at place `j` of the
/// other, `d` frames later.
pub open spec fn pairs_at(first: Seq<FpHash>, other: Seq<FpHash>, d: int) -> Set<(int, int)> {
    Set::new(
        |p: (int, int)|
            0 <= p.0 < first.len() && 0 <= p.1 < other.len() && first[p.0].hash == other[p.1].hash
                && other[p.1].frame - first[p.0].frame == d,
    )
}

/// Most pairs of equal hashes of two recordings lie `d` frames apart, and no
/// smaller distance has as many.
pub open spec fn is_common_shift(first: Seq<FpHash>, other: Seq<FpHash>, d: int) -> bool {
    &&& 0 < pairs_at(first, other, d).len()
    &&& forall|e: int|
        (#[trigger] pairs_at(first, other, e)).len() <= pairs_at(first, other, d).len()
    &&& forall|e: int|
        e < d ==> (#[trigger] pairs_at(first, other, e)).len() < pairs_at(first, other, d).len()
}

/// No hash occurs in both recordings.
pub open spec fn share_nothing(first: Seq<FpHash>, other: Seq<FpHash>) -> bool {
    forall|i: int, j: int|
        0 <= i < first.len() && 0 <= j < other.len() ==> (#[trigger] first[i]).hash != (
        #[trigger] other[j]).hash
}

/// A recording holds a hash at a frame.
pub open spec fn holds_at(fp: Seq<FpHash>, hash: u32, frame: int) -> bool {
    exists|j: int| 0 <= j < fp.len() && (#[trigger] fp[j]).hash == hash && fp[j].frame == frame
}

/// Frame numbers lie within half the range of their type.
pub open spec fn are_small(fp: Seq<FpHash>) -> bool {
    forall|i: int| 0 <= i < fp.len() ==> (#[trigger] fp[i]).frame <= 0x7fff_ffff
}

/// How the other recordings lie to the first: at their common shift, or, where
/// they share nothing with it, nowhere.
pub open spec fn are_shifts(fps: Seq<Seq<FpHash>>, shifts: Seq<Option<int>>) -> bool {
    &&& shifts.len() == fps.len()
    &&& forall|k: int|
        1 <= k < fps.len() ==> match #[trigger] shifts[k] {
            Some(d) => is_common_shift(fps[0], fps[k], d),
            None => share_nothing(fps[0], fps[k]),
        }
}

/// The recordings besides the first that hold an entry of it, each at its shift.
pub open spec fn backers(
    fps: Seq<Seq<FpHash>>,
    shifts: Seq<Option<int>>,
    entry: FpHash,
) -> Set<int> {
    Set::new(
        |k: int|
            1 <= k < fps.len() && shifts[k] is Some && holds_at(
                fps[k],
                entry.hash,
                entry.frame + shifts[k]->0,
            ),
    )
}

/// An entry of the first recording that at least half of all recordings hold.
pub open spec fn is_shared(
    fps: Seq<Seq<FpHash>>,
    shifts: Seq<Option<int>>,
    entry: FpHash,
) -> bool {
    &&& exists|i: int| 0 <= i < fps[0].len() && #[trigger] fps[0][i] == entry
    &&& 2 * (1 + backers(fps, shifts, entry).len()) >= fps.len()
}

/// The pairs of one hash of the other recording.
spec fn column(first: Seq<FpHash>, hash: u32, frame: u32, d: int, j: int) -> Set<(int, int)> {
    Set::new(
        |p: (int, int)|
            0 <= p.0 < first.len() && p.1 == j && first[p.0].hash == hash && frame
                - first[p.0].frame == d,
    )
}

proof fn lemma_column(first: Seq<FpHash>, hash: u32, frame: u32, d: int, j: int)
    requires
        are_small(first),
        frame <= 0x7fff_ffff,
    ensures
        column(first, hash, frame, d, j).finite(),
        column(first, hash, frame, d, j).len() == reference::count_at(
            reference::frames_of(first, hash),
            frame,
            d,
        ),
    decreases first.len(),
{
    let all = column(first, hash, frame, d, j);
    if first.len() == 0 {
        assert(all =~= Set::empty());
    } else {
        let rest = first.drop_last();
        let end = first.len() - 1;
        assert(first[end] == first.last());
        assert forall|i: int| 0 <= i < rest.len() implies (#[trigger] rest[i]).frame
            <= 0x7fff_ffff by {
            assert(rest[i] == first[i]);
        }
        lemma_column(rest, hash, frame, d, j);
        let less = column(rest, hash, frame, d, j);
        let frames = reference::frames_of(rest, hash);
        if first.last().hash == hash {
            assert(frames.push(first.last().frame).drop_last() =~= frames);
            assert(alignment::frame_delta(frame, first[end].frame) == frame - first[end].frame);
        }
        if first.last().hash == hash && frame - first.last().frame == d {
            assert(!less.contains((end, j)));
            assert(all =~= less.insert((end, j)));
        } else {
            assert(all =~= less);
        }
    }
}

/// Counting pairs one hash after the other counts them all.
proof fn lemma_pairs(first: Seq<FpHash>, other: Seq<FpHash>, d: int)
    requires
        are_small(first),
        are_small(other),
    ensures
        pairs_at(first, other, d).finite(),
        pairs_at(first, other, d).len() == reference::pair_votes(
            other,
            reference::grouped(first),
            d,
        ),
    decreases other.len(),
{
    let all = pairs_at(first, other, d);
    if other.len() == 0 {
        assert(all =~= Set::empty());
    } else {
        let rest = other.drop_last();
        let end = other.len() - 1;
        let last = other.last();
        assert(other[end] == last);
        assert forall|i: int| 0 <= i < rest.len() implies (#[trigger] rest[i]).frame
            <= 0x7fff_ffff by {
            assert(rest[i] == other[i]);
        }
        lemma_pairs(first, rest, d);
        lemma_column(first, last.hash, last.frame, d, end);
        let less = pairs_at(first, rest, d);
        let more = column(first, last.hash, last.frame, d, end);
        assert(less.disjoint(more));
        vstd::set_lib::lemma_set_disjoint_lens(less, more);
        assert(all =~= less + more);
        if reference::frames_of(first, last.hash).len() == 0 {
            assert(reference::count_at(reference::frames_of(first, last.hash), last.frame, d) == 0);
        }
    }
}

/// The common shift of two recordings is the mode of their histogram.
proof fn lemma_common_shift(first: Seq<FpHash>, other: Seq<FpHash>, shift: Option<int>)
    requires
        are_small(first),
        are_small(other),
        match shift {
            Some(d) => is_common_shift(first, other, d),
            None => share_nothing(first, other),
        },
    ensures
        alignment::mode(reference::pair_weight(other, reference::grouped(first))) == shift,
{
    let weight = reference::pair_weight(other, reference::grouped(first));
    assert forall|e: int| #[trigger] weight(e) == pairs_at(first, other, e).len() by {
        lemma_pairs(first, other, e);
    }
    match shift {
        Some(d) => {
            assert forall|e: int| #[trigger] weight(e) <= weight(d) by {
                assert(pairs_at(first, other, e).len() <= pairs_at(first, other, d).len());
            }
            assert forall|e: int| #[trigger] weight(e) == weight(d) implies d <= e by {
                if e < d {
                    assert(pairs_at(first, other, e).len() < pairs_at(first, other, d).len());
                }
            }
            assert(alignment::is_mode(weight, d));
            alignment::lemma_mode_is(weight, d);
        },
        None => {
            assert forall|e: int| #[trigger] weight(e) == 0 by {
                assert(pairs_at(first, other, e) =~= Set::empty());
            }
            alignment::lemma_no_mode(weight);
        },
    }
}

/// A recording confirms an entry where it holds it at the common shift.
proof fn lemma_confirms(
    first: Seq<FpHash>,
    other: Seq<FpHash>,
    shift: Option<int>,
    entry: FpHash,
)
    requires
        are_small(first),
        are_small(other),
        first.contains(entry),
        match shift {
            Some(d) => is_common_shift(first, other, d),
            None => share_nothing(first, other),
        },
    ensures
        reference::confirms(first, other, entry) == (shift is Some && holds_at(
            other,
            entry.hash,
            entry.frame + shift->0,
        )),
{
    lemma_common_shift(first, other, shift);
    let i = choose|i: int| 0 <= i < first.len() && first[i] == entry;
    assert(first[i].frame <= 0x7fff_ffff);
    if shift is Some {
        let d = shift->0;
        assert forall|j: int| 0 <= j < other.len() implies alignment::frame_delta(
            (#[trigger] other[j]).frame,
            entry.frame,
        ) == other[j].frame - entry.frame by {}
        if reference::confirms(first, other, entry) {
            let j = choose|j: int|
                0 <= j < other.len() && (#[trigger] other[j]).hash == entry.hash
                    && alignment::frame_delta(other[j].frame, entry.frame) == d;
            assert(other[j].frame == entry.frame + d);
        }
        if holds_at(other, entry.hash, entry.frame + d) {
            let j = choose|j: int|
                0 <= j < other.len() && (#[trigger] other[j]).hash == entry.hash && other[j].frame
                    == entry.frame + d;
            assert(alignment::frame_delta(other[j].frame, entry.frame) == d);
        }
    }
}

/// Counting confirmations counts the backers, and the first recording.
proof fn lemma_confirmations(
    fps: Seq<Seq<FpHash>>,
    shifts: Seq<Option<int>>,
    entry: FpHash,
    n: int,
)
    requires
        1 <= n <= fps.len(),
        forall|k: int| 0 <= k < fps.len() ==> are_small(#[trigger] fps[k]),
        are_shifts(fps, shifts),
        fps[0].contains(entry),
    ensures
        backers(fps.take(n), shifts, entry).finite(),
        reference::confirmations(fps[0], fps.take(n).drop_first(), entry) == 1 + backers(
            fps.take(n),
            shifts,
            entry,
        ).len(),
    decreases n,
{
    let here = backers(fps.take(n), shifts, entry);
    let others = fps.take(n).drop_first();
    if n == 1 {
        assert(here =~= Set::empty());
        assert(others.len() == 0);
    } else {
        lemma_confirmations(fps, shifts, entry, n - 1);
        let less = backers(fps.take(n - 1), shifts, entry);
        let last = n - 1;
        assert(others.drop_last() =~= fps.take(n - 1).drop_first());
        assert(others.last() == fps[last]);
        assert(shifts[last] == shifts[last]);
        lemma_confirms(fps[0], fps[last], shifts[last], entry);
        if reference::confirms(fps[0], fps[last], entry) {
            assert(!less.contains(last));
            assert(here =~= less.insert(last));
        } else {
            assert(here =~= less);
        }
    }
}

/// The hashes of each recording.
pub open spec fn lists_of(fps: Seq<FingerprintView>) -> Seq<Seq<FpHash>> {
    Seq::new(fps.len(), |k: int| fps[k].hashes)
}

/// What a reference holds. With each recording after the first taken at the
/// shift at which most of its hashes pair up with the first recording's, a hash
/// is in the reference exactly where some entry of the first recording is held,
/// at that shift, by at least half of all recordings; and it stands at the
/// earliest frame at which that is so.
pub proof fn law_reference_holds_what_is_shared(
    fps: Seq<FingerprintView>,
    shifts: Seq<Option<int>>,
    hash: u32,
)
    requires
        fps.len() > 0,
        forall|k: int| 0 <= k < fps.len() ==> are_small((#[trigger] fps[k]).hashes),
        are_shifts(lists_of(fps), shifts),
    ensures
        ({
            let made = reference::bootstrapped(fps);
            let lists = lists_of(fps);
            &&& made.support == fps.len()
            &&& made.frame_samples == fps[0].frame_samples
            &&& made.sample_rate == fps[0].sample_rate
            &&& made.frames.contains_key(hash) <==> exists|frame: u32| #[trigger]
                is_shared(lists, shifts, FpHash { hash, frame })
            &&& made.frames.contains_key(hash) ==> is_shared(
                lists,
                shifts,
                FpHash { hash, frame: made.frames[hash] },
            )
            &&& made.frames.contains_key(hash) ==> forall|frame: u32| #[trigger]
                is_shared(lists, shifts, FpHash { hash, frame }) ==> made.frames[hash] <= frame
        }),
{
    let lists = lists_of(fps);
    assert(lists =~= reference::hash_lists(fps));
    let made = reference::bootstrapped(fps);
    assert forall|k: int| 0 <= k < lists.len() implies are_small(#[trigger] lists[k]) by {
        assert(lists[k] == fps[k].hashes);
    }
    assert forall|entry: FpHash| #[trigger]
        reference::survives(lists, entry) == is_shared(lists, shifts, entry) by {
        if lists[0].contains(entry) {
            let n = lists.len() as int;
            lemma_confirmations(lists, shifts, entry, n);
            assert(lists.take(n) =~= lists);
            let i = choose|i: int| 0 <= i < lists[0].len() && lists[0][i] == entry;
            assert(lists[0][i] == entry);
        }
    }
    assert forall|frame: u32| #[trigger]
        is_shared(lists, shifts, FpHash { hash, frame }) == reference::survives(
            lists,
            FpHash { hash, frame },
        ) by {}
    if made.frames.contains_key(hash) {
        let frame = choose|frame: u32| reference::survives(lists, FpHash { hash, frame });
        assert(is_shared(lists, shifts, FpHash { hash, frame }));
        super::laws::law_reference_comes_from_the_first_recording(fps, hash);
        assert(reference::survives(lists, FpHash { hash, frame: made.frames[hash] }));
        assert forall|other: u32| #[trigger]
            is_shared(lists, shifts, FpHash { hash, frame: other }) implies made.frames[hash]
            <= other by {
            assert(reference::survives(lists, FpHash { hash, frame: other }));
        }
    }
    if exists|frame: u32| #[trigger] is_shared(lists, shifts, FpHash { hash, frame }) {
        let frame = choose|frame: u32| #[trigger]
            is_shared(lists, shifts, FpHash { hash, frame });
        assert(reference::survives(lists, FpHash { hash, frame }));
    }
}

/// The content of a reference is all of it, and lists of references and of
/// fingerprints are seen in their order, each element whole.
pub proof fn law_references_are_seen_whole(
    made: ReferenceFingerprint,
    references: Seq<ReferenceFingerprint>,
    fps: Seq<&Fingerprint>,
    k: int,
)
    ensures
        made@.frames == made.hash_to_frame@,
        made@.frame_samples == made.frame_duration.spec_samples(),
        made@.sample_rate == made.frame_duration.spec_rate(),
        made@.support == made.support,
        super::reference_views(references).len() == references.len(),
        0 <= k < references.len() ==> super::reference_views(references)[k] == references[k]@,
        reference::fingerprint_views(fps).len() == fps.len(),
        0 <= k < fps.len() ==> reference::fingerprint_views(fps)[k] == fps[k]@,
{
}

} // verus!
