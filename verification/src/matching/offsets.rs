//! Where in a recording the shared audio lies does not matter to a reference.

use vstd::prelude::*;

use super::alignment;
use super::reference;
use crate::fingerprint::constellation::{self, FingerprintView};
use crate::fingerprint::FpHash;

verus! {

/// A recording that lies `shift` frames later stays within the frame range, and
/// so does its distance to every equal hash of the first recording.
pub open spec fn shift_fits(anchor: Seq<FpHash>, fp: Seq<FpHash>, shift: int) -> bool {
    &&& forall|j: int|
        0 <= j < fp.len() ==> 0 <= (#[trigger] fp[j]).frame + shift <= u32::MAX
    &&& forall|i: int, j: int|
        0 <= i < anchor.len() && 0 <= j < fp.len() && (#[trigger] anchor[i]).hash == (
        #[trigger] fp[j]).hash ==> i32::MIN <= alignment::frame_delta(fp[j].frame, anchor[i].frame)
            + shift <= i32::MAX
}

/// The recordings, each `shifts` frames later.
pub open spec fn moved_recordings(
    fps: Seq<FingerprintView>,
    shifts: Seq<int>,
) -> Seq<FingerprintView> {
    Seq::new(
        fps.len(),
        |k: int|
            FingerprintView { hashes: constellation::moved(fps[k].hashes, shifts[k]), ..fps[k] },
    )
}

/// Every frame at which a hash is found is that of an entry.
proof fn lemma_frames_are_entries(hashes: Seq<FpHash>, hash: u32, n: int)
    requires
        0 <= n < reference::frames_of(hashes, hash).len(),
    ensures
        exists|i: int|
            0 <= i < hashes.len() && #[trigger] hashes[i] == (FpHash {
                hash,
                frame: reference::frames_of(hashes, hash)[n],
            }),
    decreases hashes.len(),
{
    let less = hashes.drop_last();
    let rest = reference::frames_of(less, hash);
    if n < rest.len() {
        lemma_frames_are_entries(less, hash, n);
        let i = choose|i: int|
            0 <= i < less.len() && #[trigger] less[i] == (FpHash { hash, frame: rest[n] });
        assert(hashes[i] == less[i]);
    } else {
        assert(hashes[hashes.len() - 1] == hashes.last());
    }
}

/// The distances to a frame that lies later are larger by as much.
proof fn lemma_count_moves(frames: Seq<u32>, from: u32, shift: int, delta: int)
    requires
        0 <= from + shift <= u32::MAX,
        forall|n: int|
            0 <= n < frames.len() ==> i32::MIN <= alignment::frame_delta(from, #[trigger] frames[n])
                + shift <= i32::MAX,
    ensures
        reference::count_at(frames, (from + shift) as u32, delta + shift) == reference::count_at(
            frames,
            from,
            delta,
        ),
    decreases frames.len(),
{
    if frames.len() > 0 {
        let less = frames.drop_last();
        assert forall|n: int| 0 <= n < less.len() implies i32::MIN <= alignment::frame_delta(
            from,
            #[trigger] less[n],
        ) + shift <= i32::MAX by {
            assert(less[n] == frames[n]);
        }
        lemma_count_moves(less, from, shift, delta);
        assert(frames[frames.len() - 1] == frames.last());
    }
}

/// A recording that lies later votes for shifts that are larger by as much.
proof fn lemma_pair_votes_move(anchor: Seq<FpHash>, fp: Seq<FpHash>, shift: int, delta: int)
    requires
        shift_fits(anchor, fp, shift),
    ensures
        reference::pair_votes(
            constellation::moved(fp, shift),
            reference::grouped(anchor),
            delta + shift,
        ) == reference::pair_votes(fp, reference::grouped(anchor), delta),
    decreases fp.len(),
{
    let there = constellation::moved(fp, shift);
    if fp.len() > 0 {
        let less = fp.drop_last();
        let last = fp.last();
        let end = fp.len() - 1;
        assert(fp[end] == last);
        assert forall|j: int| 0 <= j < less.len() implies 0 <= (#[trigger] less[j]).frame + shift
            <= u32::MAX by {
            assert(less[j] == fp[j]);
        }
        assert forall|i: int, j: int|
            0 <= i < anchor.len() && 0 <= j < less.len() && (#[trigger] anchor[i]).hash == (
            #[trigger] less[j]).hash implies i32::MIN <= alignment::frame_delta(
            less[j].frame,
            anchor[i].frame,
        ) + shift <= i32::MAX by {
            assert(less[j] == fp[j]);
        }
        lemma_pair_votes_move(anchor, less, shift, delta);
        assert(there.drop_last() =~= constellation::moved(less, shift));
        assert(there.last() == (FpHash { hash: last.hash, frame: (last.frame + shift) as u32 }));
        let frames = reference::frames_of(anchor, last.hash);
        assert forall|n: int| 0 <= n < frames.len() implies i32::MIN <= alignment::frame_delta(
            last.frame,
            #[trigger] frames[n],
        ) + shift <= i32::MAX by {
            lemma_frames_are_entries(anchor, last.hash, n);
            let i = choose|i: int|
                0 <= i < anchor.len() && #[trigger] anchor[i] == (FpHash {
                    hash: last.hash,
                    frame: frames[n],
                });
            assert(anchor[i].hash == fp[end].hash);
        }
        lemma_count_moves(frames, last.frame, shift, delta);
    }
}

/// A recording confirms an entry of the first one wherever in time it lies.
proof fn lemma_confirms_moves(
    anchor: Seq<FpHash>,
    fp: Seq<FpHash>,
    shift: int,
    entry: FpHash,
)
    requires
        shift_fits(anchor, fp, shift),
        anchor.contains(entry),
    ensures
        reference::confirms(anchor, constellation::moved(fp, shift), entry) == reference::confirms(
            anchor,
            fp,
            entry,
        ),
{
    let there = constellation::moved(fp, shift);
    let index = reference::grouped(anchor);
    let here_weight = reference::pair_weight(fp, index);
    let there_weight = reference::pair_weight(there, index);
    assert forall|e: int| #[trigger] there_weight(e) == here_weight(e - shift) by {
        lemma_pair_votes_move(anchor, fp, shift, e - shift);
    }
    alignment::lemma_mode_moves(here_weight, there_weight, shift);
    if alignment::mode(here_weight) is Some {
        let delta = alignment::mode(here_weight)->0;
        let i = choose|i: int| 0 <= i < anchor.len() && anchor[i] == entry;
        assert forall|j: int|
            0 <= j < fp.len() && (#[trigger] fp[j]).hash == entry.hash implies
            alignment::frame_delta(there[j].frame, entry.frame) == alignment::frame_delta(
            fp[j].frame,
            entry.frame,
        ) + shift by {
            assert(anchor[i].hash == fp[j].hash);
        }
        if reference::confirms(anchor, fp, entry) {
            let j = choose|j: int|
                0 <= j < fp.len() && (#[trigger] fp[j]).hash == entry.hash
                    && alignment::frame_delta(fp[j].frame, entry.frame) == delta;
            assert(there[j].hash == entry.hash);
        }
        if reference::confirms(anchor, there, entry) {
            let j = choose|j: int|
                0 <= j < there.len() && (#[trigger] there[j]).hash == entry.hash
                    && alignment::frame_delta(there[j].frame, entry.frame) == delta + shift;
            assert(fp[j].hash == entry.hash);
        }
    }
}

/// As many recordings confirm an entry wherever in time they lie.
proof fn lemma_confirmations_move(
    anchor: Seq<FpHash>,
    others: Seq<Seq<FpHash>>,
    moved: Seq<Seq<FpHash>>,
    shifts: Seq<int>,
    entry: FpHash,
)
    requires
        anchor.contains(entry),
        moved.len() == others.len(),
        shifts.len() == others.len(),
        forall|k: int|
            0 <= k < others.len() ==> shift_fits(anchor, #[trigger] others[k], shifts[k])
                && moved[k] == constellation::moved(others[k], shifts[k]),
    ensures
        reference::confirmations(anchor, moved, entry) == reference::confirmations(
            anchor,
            others,
            entry,
        ),
    decreases others.len(),
{
    if others.len() > 0 {
        let end = others.len() - 1;
        let (fewer, rest, fewer_shifts) = (others.drop_last(), moved.drop_last(), shifts.drop_last());
        assert forall|k: int| 0 <= k < fewer.len() implies shift_fits(
            anchor,
            #[trigger] fewer[k],
            fewer_shifts[k],
        ) && rest[k] == constellation::moved(fewer[k], fewer_shifts[k]) by {
            assert(fewer[k] == others[k]);
        }
        lemma_confirmations_move(anchor, fewer, rest, fewer_shifts, entry);
        assert(others[end] == others.last());
        lemma_confirms_moves(anchor, others[end], shifts[end], entry);
    }
}

/// Where in a recording the shared audio lies does not matter: recordings after
/// the first may each begin earlier or later, by any number of frames, and the
/// reference keeps the same hashes at the same frames.
pub proof fn law_reference_ignores_offsets(fps: Seq<FingerprintView>, shifts: Seq<int>)
    requires
        fps.len() > 0,
        shifts.len() == fps.len(),
        shifts[0] == 0,
        forall|k: int|
            1 <= k < fps.len() ==> shift_fits(
                fps[0].hashes,
                (#[trigger] fps[k]).hashes,
                shifts[k],
            ),
    ensures
        reference::bootstrapped(moved_recordings(fps, shifts)).frames == reference::bootstrapped(
            fps,
        ).frames,
{
    let here = reference::hash_lists(fps);
    let there = reference::hash_lists(moved_recordings(fps, shifts));
    let anchor = fps[0].hashes;
    assert(here[0] == anchor);
    assert(there[0] =~= anchor);
    let (others, moved, later) = (here.drop_first(), there.drop_first(), shifts.drop_first());
    assert forall|k: int| 0 <= k < others.len() implies shift_fits(
        anchor,
        #[trigger] others[k],
        later[k],
    ) && moved[k] == constellation::moved(others[k], later[k]) by {
        assert(others[k] == fps[k + 1].hashes);
    }
    assert forall|entry: FpHash| #[trigger]
        reference::survives(there, entry) == reference::survives(here, entry) by {
        if anchor.contains(entry) {
            lemma_confirmations_move(anchor, others, moved, later, entry);
        }
    }
    let (one, other) = (reference::surviving_frames(there), reference::surviving_frames(here));
    assert forall|hash: u32, frame: u32| #[trigger]
        reference::is_earliest(there, hash, frame) == reference::is_earliest(
            here,
            hash,
            frame,
        ) by {
        if reference::is_earliest(there, hash, frame) {
            assert forall|next: u32| #[trigger]
                reference::survives(here, FpHash { hash, frame: next }) implies frame <= next by {
                assert(reference::survives(there, FpHash { hash, frame: next }));
            }
        }
        if reference::is_earliest(here, hash, frame) {
            assert forall|next: u32| #[trigger]
                reference::survives(there, FpHash { hash, frame: next }) implies frame <= next by {
                assert(reference::survives(here, FpHash { hash, frame: next }));
            }
        }
    }
    assert forall|hash: u32| #[trigger] one.contains_key(hash) == other.contains_key(hash) by {
        if one.contains_key(hash) {
            let frame = choose|frame: u32| reference::survives(there, FpHash { hash, frame });
            assert(reference::survives(here, FpHash { hash, frame }));
        }
        if other.contains_key(hash) {
            let frame = choose|frame: u32| reference::survives(here, FpHash { hash, frame });
            assert(reference::survives(there, FpHash { hash, frame }));
        }
    }
    assert forall|hash: u32| #[trigger] one.contains_key(hash) implies one[hash]
        == other[hash] by {
        let some = choose|frame: u32| reference::survives(there, FpHash { hash, frame });
        super::laws::lemma_earliest_exists(there, hash, some);
        let a = choose|frame: u32| reference::is_earliest(there, hash, frame);
        let b = choose|frame: u32| reference::is_earliest(here, hash, frame);
        assert(reference::is_earliest(there, hash, a));
        assert(reference::is_earliest(here, hash, a));
        assert(reference::is_earliest(here, hash, b));
        assert(reference::survives(here, FpHash { hash, frame: a }));
        assert(reference::survives(here, FpHash { hash, frame: b }));
    }
    assert(one =~= other);
}

} // verus!
