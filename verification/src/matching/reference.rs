//! Bootstrapping a reference fingerprint from several recordings.

use std::collections::{HashMap, HashSet};

use vstd::prelude::*;

use super::alignment;
use super::histogram::Histogram;
use super::{ReferenceFingerprint, ReferenceView};
use crate::fingerprint::constellation::FingerprintView;
use crate::fingerprint::{Fingerprint, FpHash};
use crate::Config;

verus! {

broadcast use vstd::std_specs::hash::group_hash_axioms;

/// The frames at which `hash` occurs, in the order of `hashes`.
pub open spec fn frames_of(hashes: Seq<FpHash>, hash: u32) -> Seq<u32>
    decreases hashes.len(),
{
    if hashes.len() == 0 {
        Seq::empty()
    } else {
        let rest = frames_of(hashes.drop_last(), hash);
        if hashes.last().hash == hash {
            rest.push(hashes.last().frame)
        } else {
            rest
        }
    }
}

/// Every hash that occurs, with the frames at which it does.
pub open spec fn grouped(hashes: Seq<FpHash>) -> Map<u32, Seq<u32>> {
    Map::new(
        |hash: u32| frames_of(hashes, hash).len() > 0,
        |hash: u32| frames_of(hashes, hash),
    )
}

/// The contents of an index from hash to frames.
pub open spec fn index_view(index: Map<u32, Vec<u32>>) -> Map<u32, Seq<u32>> {
    index.map_values(|frames: Vec<u32>| frames@)
}

/// Groups the frames of a fingerprint by hash.
pub fn group_by_hash(hashes: &[FpHash]) -> (index: HashMap<u32, Vec<u32>>)
    ensures
        index_view(index@) == grouped(hashes@),
{
    let mut index: HashMap<u32, Vec<u32>> = HashMap::with_capacity(hashes.len());
    let mut i: usize = 0;
    proof {
        assert(index_view(index@) =~= grouped(hashes@.take(0)));
    }
    while i < hashes.len()
        invariant
            i <= hashes@.len(),
            index_view(index@) == grouped(hashes@.take(i as int)),
        decreases hashes@.len() - i,
    {
        let h: FpHash = hashes[i];
        let ghost before = index_view(index@);
        proof {
            assert(hashes@.take(i + 1).drop_last() =~= hashes@.take(i as int));
            assert(hashes@.take(i + 1).last() == h);
            assert(before.contains_key(h.hash) == index@.contains_key(h.hash));
        }
        let mut frames: Vec<u32> = match index.remove(&h.hash) {
            Some(frames) => frames,
            None => Vec::new(),
        };
        proof {
            assert(frames@ == frames_of(hashes@.take(i as int), h.hash)) by {
                if before.contains_key(h.hash) {
                    assert(before[h.hash] == frames@);
                    assert(grouped(hashes@.take(i as int))[h.hash] == frames@);
                } else {
                    assert(!grouped(hashes@.take(i as int)).contains_key(h.hash));
                    assert(frames_of(hashes@.take(i as int), h.hash) =~= frames@);
                }
            }
        }
        frames.push(h.frame);
        index.insert(h.hash, frames);
        proof {
            let now = index_view(index@);
            let goal = grouped(hashes@.take(i + 1));
            let prior = grouped(hashes@.take(i as int));
            assert forall|hash: u32| #[trigger] now.contains_key(hash) == goal.contains_key(hash) by {
                assert(before.contains_key(hash) == prior.contains_key(hash));
                if hash != h.hash {
                    assert(now.contains_key(hash) == before.contains_key(hash));
                }
            }
            assert forall|hash: u32| #[trigger] now.contains_key(hash) implies now[hash]
                == goal[hash] by {
                if hash != h.hash {
                    assert(before.contains_key(hash));
                    assert(before[hash] == prior[hash]);
                    assert(now[hash] == before[hash]);
                }
            }
            assert(now =~= goal);
        }
        i = i + 1;
    }
    proof {
        assert(hashes@.take(i as int) =~= hashes@);
    }
    index
}

/// How many of `frames` lie `delta` before frame `from`.
pub open spec fn count_at(frames: Seq<u32>, from: u32, delta: int) -> nat
    decreases frames.len(),
{
    if frames.len() == 0 {
        0
    } else {
        count_at(frames.drop_last(), from, delta) + if alignment::frame_delta(from, frames.last())
            == delta {
            1nat
        } else {
            0nat
        }
    }
}

/// How many pairs of equal hashes, one from `fp` and one from the index, lie
/// `delta` frames apart.
pub open spec fn pair_votes(fp: Seq<FpHash>, index: Map<u32, Seq<u32>>, delta: int) -> nat
    decreases fp.len(),
{
    if fp.len() == 0 {
        0
    } else {
        pair_votes(fp.drop_last(), index, delta) + if index.contains_key(fp.last().hash) {
            count_at(index[fp.last().hash], fp.last().frame, delta)
        } else {
            0
        }
    }
}

/// The offset histogram of a fingerprint against an index.
pub open spec fn pair_weight(fp: Seq<FpHash>, index: Map<u32, Seq<u32>>) -> spec_fn(int) -> nat {
    |delta: int| pair_votes(fp, index, delta)
}

/// The shift at which most pairs of equal hashes line up, if any hash is
/// shared.
pub fn dominant_delta(fp: &Fingerprint, anchor_index: &HashMap<u32, Vec<u32>>) -> (best: Option<
    i32,
>)
    ensures
        match best {
            Some(delta) => alignment::mode(pair_weight(fp@.hashes, index_view(anchor_index@)))
                == Some(delta as int),
            None => alignment::mode(pair_weight(fp@.hashes, index_view(anchor_index@))) is None,
        },
{
    let mut histogram: Histogram = Histogram::new();
    let ghost index = index_view(anchor_index@);
    let mut i: usize = 0;
    while i < fp.hashes.len()
        invariant
            i <= fp@.hashes.len(),
            index == index_view(anchor_index@),
            histogram.wf(),
            forall|e: int| #[trigger]
                histogram.count(e) == pair_votes(fp@.hashes.take(i as int), index, e),
            forall|e: int| #[trigger] histogram.count(e) <= i * usize::MAX,
        decreases fp@.hashes.len() - i,
    {
        let h: FpHash = fp.hashes[i];
        let ghost base = histogram;
        proof {
            assert(fp@.hashes.take(i + 1).drop_last() =~= fp@.hashes.take(i as int));
            assert(fp@.hashes.take(i + 1).last() == h);
            assert(index.contains_key(h.hash) == anchor_index@.contains_key(h.hash));
            assert((i + 1) * usize::MAX == i * usize::MAX + usize::MAX) by (nonlinear_arith);
            assert(i * usize::MAX + usize::MAX < u128::MAX) by (nonlinear_arith)
                requires
                    0 <= i < usize::MAX,
                    usize::MAX <= 0xffff_ffff_ffff_ffff,
            ;
        }
        match anchor_index.get(&h.hash) {
            Some(frames) => {
                proof {
                    assert(index[h.hash] == frames@);
                }
                let mut j: usize = 0;
                while j < frames.len()
                    invariant
                        j <= frames@.len(),
                        histogram.wf(),
                        i * usize::MAX + usize::MAX < u128::MAX,
                        forall|e: int| #[trigger] base.count(e) <= i * usize::MAX,
                        forall|e: int| #[trigger]
                            histogram.count(e) == base.count(e) + count_at(
                                frames@.take(j as int),
                                h.frame,
                                e,
                            ),
                        forall|e: int| #[trigger] histogram.count(e) <= base.count(e) + j,
                    decreases frames@.len() - j,
                {
                    let delta: i32 = alignment::delta_between(h.frame, frames[j]);
                    proof {
                        assert(frames@.take(j + 1).drop_last() =~= frames@.take(j as int));
                        assert(frames@.take(j + 1).last() == frames@[j as int]);
                        assert(histogram.count(delta as int) <= base.count(delta as int) + j);
                    }
                    histogram.vote(delta);
                    j = j + 1;
                }
                proof {
                    assert(frames@.take(j as int) =~= frames@);
                    assert forall|e: int| #[trigger] histogram.count(e) <= (i + 1) * usize::MAX by {
                        assert(base.count(e) <= i * usize::MAX);
                    }
                    assert forall|e: int| #[trigger]
                        histogram.count(e) == pair_votes(fp@.hashes.take(i + 1), index, e) by {
                        assert(base.count(e) == pair_votes(fp@.hashes.take(i as int), index, e));
                    }
                }
            },
            None => {},
        }
        i = i + 1;
    }
    proof {
        assert(fp@.hashes.take(i as int) =~= fp@.hashes);
        assert(histogram.weight() =~= pair_weight(fp@.hashes, index));
    }
    match histogram.mode() {
        Some((delta, _)) => Some(delta),
        None => None,
    }
}

/// `fp` confirms the entry `anchor_entry` of the anchor: it holds the same
/// hash, as far from the anchor's frame as the two recordings' dominant shift.
pub open spec fn confirms(anchor: Seq<FpHash>, fp: Seq<FpHash>, anchor_entry: FpHash) -> bool {
    match alignment::mode(pair_weight(fp, grouped(anchor))) {
        Some(delta) => exists|j: int|
            0 <= j < fp.len() && (#[trigger] fp[j]).hash == anchor_entry.hash
                && alignment::frame_delta(fp[j].frame, anchor_entry.frame) == delta,
        None => false,
    }
}

/// How many recordings hold the entry: the anchor, and each of `others` that
/// confirms it.
pub open spec fn confirmations(
    anchor: Seq<FpHash>,
    others: Seq<Seq<FpHash>>,
    anchor_entry: FpHash,
) -> nat
    decreases others.len(),
{
    if others.len() == 0 {
        1
    } else {
        confirmations(anchor, others.drop_last(), anchor_entry) + if confirms(
            anchor,
            others.last(),
            anchor_entry,
        ) {
            1nat
        } else {
            0nat
        }
    }
}

/// An entry of the first recording survives if at least half of all
/// recordings, rounded up, hold it.
pub open spec fn survives(fps: Seq<Seq<FpHash>>, entry: FpHash) -> bool {
    &&& fps[0].contains(entry)
    &&& 2 * confirmations(fps[0], fps.drop_first(), entry) >= fps.len()
}

/// `frame` is the earliest at which `hash` survives.
pub open spec fn is_earliest(fps: Seq<Seq<FpHash>>, hash: u32, frame: u32) -> bool {
    &&& survives(fps, FpHash { hash, frame })
    &&& forall|other: u32| #[trigger]
        survives(fps, FpHash { hash, frame: other }) ==> frame <= other
}

/// The surviving hashes, each at its earliest surviving frame.
pub open spec fn surviving_frames(fps: Seq<Seq<FpHash>>) -> Map<u32, u32> {
    Map::new(
        |hash: u32| exists|frame: u32| survives(fps, FpHash { hash, frame }),
        |hash: u32| choose|frame: u32| is_earliest(fps, hash, frame),
    )
}

/// The hashes of several fingerprints.
pub open spec fn hash_lists(fps: Seq<FingerprintView>) -> Seq<Seq<FpHash>> {
    fps.map_values(|fp: FingerprintView| fp.hashes)
}

/// The reference that several fingerprints bootstrap, the first of them being
/// the canonical timeline.
pub open spec fn bootstrapped(fps: Seq<FingerprintView>) -> ReferenceView {
    ReferenceView {
        frames: surviving_frames(hash_lists(fps)),
        frame_samples: fps[0].frame_samples,
        sample_rate: fps[0].sample_rate,
        support: fps.len(),
    }
}

/// The contents of a list of fingerprints.
pub open spec fn fingerprint_views(fps: Seq<&Fingerprint>) -> Seq<FingerprintView> {
    fps.map_values(|fp: &Fingerprint| fp@)
}

/// The frame that lies `delta` after `frame`, wrapping around.
spec fn shifted(frame: u32, delta: int) -> int {
    let f = frame + delta;
    if f < 0 {
        f + 0x1_0000_0000
    } else if f > u32::MAX {
        f - 0x1_0000_0000
    } else {
        f
    }
}

/// Computes [`shifted`].
fn shift_frame(frame: u32, delta: i32) -> (moved: u32)
    ensures
        moved == shifted(frame, delta as int),
{
    let f: i64 = frame as i64 + delta as i64;
    if f < 0 {
        (f + 0x1_0000_0000) as u32
    } else if f > u32::MAX as i64 {
        (f - 0x1_0000_0000) as u32
    } else {
        f as u32
    }
}

/// A hash and a frame in one number.
spec fn packed(entry: FpHash) -> int {
    entry.hash * 0x1_0000_0000 + entry.frame
}

/// Computes [`packed`].
fn pack(hash: u32, frame: u32) -> (key: u64)
    ensures
        key == packed(FpHash { hash, frame }),
{
    (hash as u64) * 0x1_0000_0000 + frame as u64
}

/// The set of entries of a fingerprint, as packed numbers.
fn entry_set(hashes: &Vec<FpHash>) -> (entries: HashSet<u64>)
    ensures
        forall|entry: FpHash|
            #![trigger entries@.contains(packed(entry) as u64)]
            entries@.contains(packed(entry) as u64) == hashes@.contains(entry),
{
    let mut entries: HashSet<u64> = HashSet::with_capacity(hashes.len());
    let mut i: usize = 0;
    while i < hashes.len()
        invariant
            i <= hashes@.len(),
            forall|entry: FpHash|
                #![trigger entries@.contains(packed(entry) as u64)]
                entries@.contains(packed(entry) as u64) == hashes@.take(i as int).contains(entry),
        decreases hashes@.len() - i,
    {
        let h: FpHash = hashes[i];
        let ghost before = entries@;
        let key: u64 = pack(h.hash, h.frame);
        entries.insert(key);
        proof {
            assert(hashes@.take(i + 1) =~= hashes@.take(i as int).push(h));
            assert forall|entry: FpHash|
                #![trigger entries@.contains(packed(entry) as u64)]
                entries@.contains(packed(entry) as u64) == hashes@.take(i + 1).contains(entry) by {
                vstd::seq_lib::lemma_seq_contains_after_push(hashes@.take(i as int), h, entry);
                assert(before.contains(packed(entry) as u64) == hashes@.take(i as int).contains(
                    entry,
                ));
                assert((packed(entry) as u64 == key) == (entry == h));
                if entry == h {
                    assert(hashes@.take(i + 1)[i as int] == entry);
                }
            }
        }
        i = i + 1;
    }
    proof {
        assert(hashes@.take(i as int) =~= hashes@);
    }
    entries
}

/// Adds one confirmation to each anchor entry that `fp` confirms.
fn count_confirmations(
    anchor: &Vec<FpHash>,
    anchor_index: &HashMap<u32, Vec<u32>>,
    fp: &Fingerprint,
    counts: &mut Vec<usize>,
)
    requires
        index_view(anchor_index@) == grouped(anchor@),
        old(counts)@.len() == anchor@.len(),
        forall|k: int| 0 <= k < old(counts)@.len() ==> (#[trigger] old(counts)@[k]) < usize::MAX,
    ensures
        final(counts)@.len() == anchor@.len(),
        forall|k: int|
            0 <= k < anchor@.len() ==> #[trigger] final(counts)@[k] == old(counts)@[k]
                + if confirms(anchor@, fp@.hashes, anchor@[k]) {
                1int
            } else {
                0int
            },
{
    let delta: i32 = match dominant_delta(fp, anchor_index) {
        Some(delta) => delta,
        None => {
            return;
        },
    };
    let entries: HashSet<u64> = entry_set(&fp.hashes);
    let mut k: usize = 0;
    while k < anchor.len()
        invariant
            k <= anchor@.len(),
            counts@.len() == anchor@.len(),
            old(counts)@.len() == anchor@.len(),
            alignment::mode(pair_weight(fp@.hashes, grouped(anchor@))) == Some(delta as int),
            forall|entry: FpHash|
                #![trigger entries@.contains(packed(entry) as u64)]
                entries@.contains(packed(entry) as u64) == fp@.hashes.contains(entry),
            forall|j: int|
                k <= j < anchor@.len() ==> #[trigger] counts@[j] == old(counts)@[j],
            forall|j: int|
                0 <= j < old(counts)@.len() ==> (#[trigger] old(counts)@[j]) < usize::MAX,
            forall|j: int|
                0 <= j < k ==> #[trigger] counts@[j] == old(counts)@[j] + if confirms(
                    anchor@,
                    fp@.hashes,
                    anchor@[j],
                ) {
                    1int
                } else {
                    0int
                },
        decreases anchor@.len() - k,
    {
        let h: FpHash = anchor[k];
        let frame: u32 = shift_frame(h.frame, delta);
        let key: u64 = pack(h.hash, frame);
        let confirmed: bool = entries.contains(&key);
        proof {
            let wanted = FpHash { hash: h.hash, frame };
            assert(key == packed(wanted) as u64);
            assert(confirmed == fp@.hashes.contains(wanted));
            assert forall|t: u32| (alignment::frame_delta(t, h.frame) == delta) == (t == frame) by {
            }
            if confirmed {
                let j = choose|j: int| 0 <= j < fp@.hashes.len() && fp@.hashes[j] == wanted;
                assert(fp@.hashes[j].hash == h.hash);
                assert(confirms(anchor@, fp@.hashes, h));
            } else if confirms(anchor@, fp@.hashes, h) {
                let j = choose|j: int|
                    0 <= j < fp@.hashes.len() && (#[trigger] fp@.hashes[j]).hash == h.hash
                        && alignment::frame_delta(fp@.hashes[j].frame, h.frame) == delta;
                assert(fp@.hashes[j] == wanted);
                assert(false);
            }
        }
        if confirmed {
            let count: usize = counts[k];
            assert(count == old(counts)@[k as int]);
            counts.set(k, count + 1);
        }
        k = k + 1;
    }
}

/// Keeps the hashes of the first fingerprint that enough of the others
/// confirm at the frame shift they agree on.
pub fn intersect_bootstrap(fingerprints: &[&Fingerprint]) -> (reference: ReferenceFingerprint)
    requires
        fingerprints@.len() > 0,
    ensures
        reference@ == bootstrapped(fingerprint_views(fingerprints@)),
{
    let anchor: &Fingerprint = fingerprints[0];
    let anchor_index: HashMap<u32, Vec<u32>> = group_by_hash(anchor.hashes.as_slice());
    let ghost lists = hash_lists(fingerprint_views(fingerprints@));
    let ghost others = lists.drop_first();
    let mut counts: Vec<usize> = Vec::new();
    let mut k: usize = 0;
    while k < anchor.hashes.len()
        invariant
            k <= anchor@.hashes.len(),
            counts@.len() == k,
            forall|j: int| 0 <= j < k ==> #[trigger] counts@[j] == 1,
        decreases anchor@.hashes.len() - k,
    {
        counts.push(1);
        k = k + 1;
    }
    let mut n: usize = 1;
    while n < fingerprints.len()
        invariant
            1 <= n <= fingerprints@.len(),
            lists == hash_lists(fingerprint_views(fingerprints@)),
            others == lists.drop_first(),
            anchor@ == fingerprints@[0]@,
            index_view(anchor_index@) == grouped(anchor@.hashes),
            counts@.len() == anchor@.hashes.len(),
            forall|j: int| 0 <= j < counts@.len() ==> (#[trigger] counts@[j]) <= n,
            forall|j: int|
                0 <= j < counts@.len() ==> #[trigger] counts@[j] == confirmations(
                    anchor@.hashes,
                    others.take(n - 1),
                    anchor@.hashes[j],
                ),
        decreases fingerprints@.len() - n,
    {
        let ghost before = counts@;
        proof {
            assert(others.take(n as int).drop_last() =~= others.take(n - 1));
            assert(others.take(n as int).last() == fingerprints@[n as int]@.hashes);
        }
        count_confirmations(&anchor.hashes, &anchor_index, fingerprints[n], &mut counts);
        proof {
            assert forall|j: int| 0 <= j < counts@.len() implies #[trigger] counts@[j]
                == confirmations(
                anchor@.hashes,
                others.take(n as int),
                anchor@.hashes[j],
            ) by {
                assert(before[j] == confirmations(
                    anchor@.hashes,
                    others.take(n - 1),
                    anchor@.hashes[j],
                ));
            }
        }
        n = n + 1;
    }
    proof {
        assert(others.take(n - 1) =~= others);
        assert(lists[0] == anchor@.hashes);
    }
    let total: usize = fingerprints.len();
    let min_support: usize = total / 2 + total % 2;
    let mut hash_to_frame: HashMap<u32, u32> = HashMap::new();
    let mut k: usize = 0;
    while k < anchor.hashes.len()
        invariant
            k <= anchor@.hashes.len(),
            total == lists.len(),
            min_support == total / 2 + total % 2,
            lists[0] == anchor@.hashes,
            others == lists.drop_first(),
            counts@.len() == anchor@.hashes.len(),
            forall|j: int|
                0 <= j < counts@.len() ==> #[trigger] counts@[j] == confirmations(
                    anchor@.hashes,
                    others,
                    anchor@.hashes[j],
                ),
            forall|hash: u32| #[trigger]
                hash_to_frame@.contains_key(hash) ==> exists|j: int|
                    0 <= j < k && survives(lists, #[trigger] anchor@.hashes[j])
                        && anchor@.hashes[j].hash == hash && anchor@.hashes[j].frame
                        == hash_to_frame@[hash],
            forall|j: int|
                0 <= j < k && survives(lists, #[trigger] anchor@.hashes[j])
                    ==> hash_to_frame@.contains_key(anchor@.hashes[j].hash)
                    && hash_to_frame@[anchor@.hashes[j].hash] <= anchor@.hashes[j].frame,
        decreases anchor@.hashes.len() - k,
    {
        let h: FpHash = anchor.hashes[k];
        let ghost before = hash_to_frame@;
        proof {
            assert(anchor@.hashes.contains(h));
            assert(survives(lists, h) == (counts@[k as int] >= min_support));
        }
        if counts[k] >= min_support {
            let earlier: bool = match hash_to_frame.get(&h.hash) {
                Some(frame) => h.frame < *frame,
                None => true,
            };
            if earlier {
                hash_to_frame.insert(h.hash, h.frame);
            }
            proof {
                assert forall|hash: u32| #[trigger]
                    hash_to_frame@.contains_key(hash) implies exists|j: int|
                    0 <= j < k + 1 && survives(lists, #[trigger] anchor@.hashes[j])
                        && anchor@.hashes[j].hash == hash && anchor@.hashes[j].frame
                        == hash_to_frame@[hash] by {
                    if hash == h.hash && earlier {
                        assert(anchor@.hashes[k as int].hash == hash);
                    } else {
                        assert(before.contains_key(hash));
                    }
                }
            }
        }
        k = k + 1;
    }
    proof {
        lemma_surviving_frames_are(lists, hash_to_frame@);
        assert(fingerprint_views(fingerprints@).len() == total);
    }
    ReferenceFingerprint {
        hash_to_frame,
        frame_duration: anchor.frame_duration,
        support: total,
    }
}

/// A map that holds exactly the surviving hashes, each at a surviving frame
/// that none precedes, is [`surviving_frames`].
proof fn lemma_surviving_frames_are(lists: Seq<Seq<FpHash>>, frames: Map<u32, u32>)
    requires
        forall|hash: u32| #[trigger]
            frames.contains_key(hash) ==> exists|j: int|
                0 <= j < lists[0].len() && survives(lists, #[trigger] lists[0][j])
                    && lists[0][j].hash == hash && lists[0][j].frame == frames[hash],
        forall|j: int|
            0 <= j < lists[0].len() && survives(lists, #[trigger] lists[0][j])
                ==> frames.contains_key(lists[0][j].hash) && frames[lists[0][j].hash]
                <= lists[0][j].frame,
    ensures
        frames == surviving_frames(lists),
{
    let goal = surviving_frames(lists);
    assert forall|hash: u32, frame: u32| #[trigger]
        survives(lists, FpHash { hash, frame }) implies frames.contains_key(hash) && frames[hash]
        <= frame by {
        let entry = FpHash { hash, frame };
        let j = choose|j: int| 0 <= j < lists[0].len() && lists[0][j] == entry;
        assert(survives(lists, lists[0][j]));
    }
    assert forall|hash: u32| #[trigger] frames.contains_key(hash) implies is_earliest(
        lists,
        hash,
        frames[hash],
    ) by {
        let j = choose|j: int|
            0 <= j < lists[0].len() && survives(lists, #[trigger] lists[0][j])
                && lists[0][j].hash == hash && lists[0][j].frame == frames[hash];
        assert(lists[0][j] == FpHash { hash, frame: frames[hash] });
    }
    assert forall|hash: u32| #[trigger] frames.contains_key(hash) == goal.contains_key(hash) by {
        if frames.contains_key(hash) {
            assert(survives(lists, FpHash { hash, frame: frames[hash] }));
        }
    }
    assert forall|hash: u32| #[trigger] frames.contains_key(hash) implies frames[hash]
        == goal[hash] by {
        let chosen = choose|frame: u32| is_earliest(lists, hash, frame);
        assert(is_earliest(lists, hash, frames[hash]));
        assert(is_earliest(lists, hash, chosen));
        assert(survives(lists, FpHash { hash, frame: frames[hash] }));
        assert(survives(lists, FpHash { hash, frame: chosen }));
    }
    assert(frames =~= goal);
}

/// Builds a reference fingerprint by intersecting the hashes of a bootstrap
/// set.
///
/// The first fingerprint is the canonical timeline. For each other one the
/// dominant frame shift against it is found; a hash survives if it appears, at
/// the agreed shift, in at least half of the inputs, rounded up. A single
/// input is used as it is.
pub fn build_reference(fingerprints: &[&Fingerprint], _config: &Config) -> (reference: Option<
    ReferenceFingerprint,
>)
    ensures
        match reference {
            Some(r) => fingerprints@.len() > 0 && r@ == bootstrapped(
                fingerprint_views(fingerprints@),
            ),
            None => fingerprints@.len() == 0,
        },
{
    if fingerprints.len() == 0 {
        None
    } else {
        Some(intersect_bootstrap(fingerprints))
    }
}

} // verus!
