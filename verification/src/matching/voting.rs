//! Votes of a query against a reference.

use std::collections::{HashMap, HashSet};

use vstd::prelude::*;

use super::alignment;
use super::histogram::Histogram;
use crate::fingerprint::FpHash;

verus! {

broadcast use vstd::std_specs::hash::group_hash_axioms;

/// `h` is a hash of the reference and lies `delta` frames after it there.
pub open spec fn votes_for(reference: Map<u32, u32>, h: FpHash, delta: int) -> bool {
    &&& reference.contains_key(h.hash)
    &&& alignment::frame_delta(h.frame, reference[h.hash]) == delta
}

/// The reference hashes that some hash of the query votes with at `delta`.
/// Each reference hash counts once.
pub open spec fn voters(reference: Map<u32, u32>, query: Seq<FpHash>, delta: int) -> Set<u32> {
    Set::new(
        |hash: u32|
            exists|i: int|
                0 <= i < query.len() && (#[trigger] query[i]).hash == hash && votes_for(
                    reference,
                    query[i],
                    delta,
                ),
    )
}

/// The offset histogram of a query against a reference.
pub open spec fn vote_weight(reference: Map<u32, u32>, query: Seq<FpHash>) -> spec_fn(int) -> nat {
    |delta: int| voters(reference, query, delta).len()
}

/// The query frames that vote at `delta`, in query order, repetitions kept.
pub open spec fn voting_frames(reference: Map<u32, u32>, query: Seq<FpHash>, delta: int) -> Seq<u32>
    decreases query.len(),
{
    if query.len() == 0 {
        Seq::empty()
    } else {
        let rest = voting_frames(reference, query.drop_last(), delta);
        if votes_for(reference, query.last(), delta) {
            rest.push(query.last().frame)
        } else {
            rest
        }
    }
}

/// One more query hash adds its hash to the voters at its own shift only.
pub proof fn lemma_voters_push(
    reference: Map<u32, u32>,
    query: Seq<FpHash>,
    h: FpHash,
    delta: int,
)
    ensures
        voters(reference, query.push(h), delta) == if votes_for(reference, h, delta) {
            voters(reference, query, delta).insert(h.hash)
        } else {
            voters(reference, query, delta)
        },
{
    let longer = query.push(h);
    assert forall|hash: u32| #[trigger]
        voters(reference, longer, delta).contains(hash) == (voters(
            reference,
            query,
            delta,
        ).contains(hash) || (votes_for(reference, h, delta) && h.hash == hash)) by {
        if voters(reference, query, delta).contains(hash) {
            let i = choose|i: int|
                0 <= i < query.len() && (#[trigger] query[i]).hash == hash && votes_for(
                    reference,
                    query[i],
                    delta,
                );
            assert(longer[i] == query[i]);
        }
        if votes_for(reference, h, delta) && h.hash == hash {
            assert(longer[query.len() as int] == h);
        }
        if voters(reference, longer, delta).contains(hash) {
            let i = choose|i: int|
                0 <= i < longer.len() && (#[trigger] longer[i]).hash == hash && votes_for(
                    reference,
                    longer[i],
                    delta,
                );
            if i < query.len() {
                assert(longer[i] == query[i]);
            }
        }
    }
    if votes_for(reference, h, delta) {
        assert(voters(reference, longer, delta) =~= voters(reference, query, delta).insert(
            h.hash,
        ));
    } else {
        assert(voters(reference, longer, delta) =~= voters(reference, query, delta));
    }
}

/// The voters at any shift are hashes of the reference, and finitely many.
pub proof fn lemma_voters_bounded(reference: Map<u32, u32>, query: Seq<FpHash>, delta: int)
    ensures
        voters(reference, query, delta).finite(),
        voters(reference, query, delta).len() <= query.len(),
        voters(reference, query, delta).subset_of(reference.dom()),
        reference.dom().finite() ==> voters(reference, query, delta).len()
            <= reference.dom().len(),
    decreases query.len(),
{
    if query.len() == 0 {
        assert(voters(reference, query, delta) =~= Set::empty());
    } else {
        let rest = query.drop_last();
        lemma_voters_bounded(reference, rest, delta);
        assert(query =~= rest.push(query.last()));
        lemma_voters_push(reference, rest, query.last(), delta);
    }
    if reference.dom().finite() {
        vstd::set_lib::lemma_len_subset(voters(reference, query, delta), reference.dom());
    }
}

/// Some query frame votes at `delta` exactly if there are voters.
pub proof fn lemma_voting_frames_nonempty(
    reference: Map<u32, u32>,
    query: Seq<FpHash>,
    delta: int,
)
    ensures
        voting_frames(reference, query, delta).len() >= voters(reference, query, delta).len(),
    decreases query.len(),
{
    lemma_voters_bounded(reference, query, delta);
    if query.len() == 0 {
        assert(voters(reference, query, delta) =~= Set::empty());
    } else {
        let rest = query.drop_last();
        lemma_voting_frames_nonempty(reference, rest, delta);
        lemma_voters_bounded(reference, rest, delta);
        assert(query =~= rest.push(query.last()));
        lemma_voters_push(reference, rest, query.last(), delta);
    }
}

/// A shift and a hash in one number.
spec fn packed(delta: int, hash: u32) -> int {
    (delta + 0x8000_0000) * 0x1_0000_0000 + hash
}

/// Computes [`packed`].
fn pack(delta: i32, hash: u32) -> (key: u64)
    ensures
        key == packed(delta as int, hash),
{
    let biased: u64 = (delta as i64 + 0x8000_0000) as u64;
    biased * 0x1_0000_0000 + hash as u64
}

/// The dominant shift of a query against a reference, with the number of
/// reference hashes that vote for it.
pub fn dominant_alignment(reference: &HashMap<u32, u32>, query: &Vec<FpHash>) -> (best: Option<
    (i32, usize),
>)
    ensures
        match best {
            Some((delta, count)) => {
                &&& alignment::mode(vote_weight(reference@, query@)) == Some(delta as int)
                &&& count == voters(reference@, query@, delta as int).len()
                &&& count > 0
            },
            None => alignment::mode(vote_weight(reference@, query@)) is None,
        },
{
    let mut histogram: Histogram = Histogram::new();
    let mut seen: HashSet<u64> = HashSet::new();
    let mut i: usize = 0;
    proof {
        assert forall|delta: int| voters(reference@, query@.take(0), delta) == Set::<
            u32,
        >::empty() by {
            assert(voters(reference@, query@.take(0), delta) =~= Set::empty());
        }
    }
    while i < query.len()
        invariant
            i <= query@.len(),
            histogram.wf(),
            forall|delta: int| #[trigger]
                histogram.count(delta) == voters(reference@, query@.take(i as int), delta).len(),
            forall|delta: i32, hash: u32|
                #![trigger seen@.contains(packed(delta as int, hash) as u64)]
                seen@.contains(packed(delta as int, hash) as u64) == voters(
                    reference@,
                    query@.take(i as int),
                    delta as int,
                ).contains(hash),
        decreases query@.len() - i,
    {
        let h: FpHash = query[i];
        let ghost prefix = query@.take(i as int);
        proof {
            assert(query@.take(i + 1) =~= prefix.push(h));
            assert forall|delta: int|
                voters(reference@, query@.take(i + 1), delta) == if votes_for(
                    reference@,
                    h,
                    delta,
                ) {
                    voters(reference@, prefix, delta).insert(h.hash)
                } else {
                    voters(reference@, prefix, delta)
                } by {
                lemma_voters_push(reference@, prefix, h, delta);
            }
            assert forall|delta: int| #[trigger]
                histogram.count(delta) <= i && voters(reference@, prefix, delta).finite() by {
                lemma_voters_bounded(reference@, prefix, delta);
            }
        }
        match reference.get(&h.hash) {
            Some(frame) => {
                let delta: i32 = alignment::delta_between(h.frame, *frame);
                let key: u64 = pack(delta, h.hash);
                proof {
                    assert(key == packed(delta as int, h.hash) as u64);
                    assert(seen@.contains(packed(delta as int, h.hash) as u64) == voters(
                        reference@,
                        prefix,
                        delta as int,
                    ).contains(h.hash));
                }
                let fresh: bool = seen.insert(key);
                if fresh {
                    histogram.vote(delta);
                }
                proof {
                    assert forall|e: int| votes_for(reference@, h, e) == (e == delta) by {}
                    assert(fresh == !voters(reference@, prefix, delta as int).contains(h.hash));
                    assert forall|e: int| #[trigger]
                        histogram.count(e) == voters(
                            reference@,
                            query@.take(i + 1),
                            e,
                        ).len() by {
                        if e == delta && !fresh {
                            assert(voters(reference@, prefix, e).insert(h.hash) =~= voters(
                                reference@,
                                prefix,
                                e,
                            ));
                        }
                    }
                }
            },
            None => {},
        }
        i = i + 1;
    }
    proof {
        assert(query@.take(i as int) =~= query@);
        assert(histogram.weight() =~= vote_weight(reference@, query@));
        assert forall|delta: int| #[trigger] histogram.count(delta) <= query@.len() by {
            lemma_voters_bounded(reference@, query@, delta);
        }
    }
    match histogram.mode() {
        Some((delta, count)) => {
            proof {
                let weight = histogram.weight();
                assert(alignment::is_mode(weight, delta as int));
                assert(weight(delta as int) == histogram.count(delta as int));
            }
            Some((delta, count as usize))
        },
        None => None,
    }
}

/// Collects the query frames that vote at `delta`.
pub fn frames_at(reference: &HashMap<u32, u32>, query: &Vec<FpHash>, delta: i32) -> (frames: Vec<
    u32,
>)
    ensures
        frames@ == voting_frames(reference@, query@, delta as int),
{
    let mut frames: Vec<u32> = Vec::new();
    let mut i: usize = 0;
    while i < query.len()
        invariant
            i <= query@.len(),
            frames@ == voting_frames(reference@, query@.take(i as int), delta as int),
        decreases query@.len() - i,
    {
        let h: FpHash = query[i];
        proof {
            assert(query@.take(i + 1).drop_last() =~= query@.take(i as int));
            assert(query@.take(i + 1).last() == h);
        }
        match reference.get(&h.hash) {
            Some(frame) => {
                if alignment::delta_between(h.frame, *frame) == delta {
                    frames.push(h.frame);
                }
            },
            None => {},
        }
        i = i + 1;
    }
    proof {
        assert(query@.take(i as int) =~= query@);
    }
    frames
}

} // verus!
