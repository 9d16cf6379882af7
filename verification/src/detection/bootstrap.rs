//! Adaptive bootstrap: as many references as the season has themes.

use vstd::prelude::*;

use crate::fingerprint::constellation::FingerprintView;
use crate::fingerprint::Fingerprint;
use crate::matching::{self, reference, ReferenceFingerprint, ReferenceView};
use crate::Config;

verus! {

/// Number of episodes used to bootstrap each reference fingerprint.
pub const BOOTSTRAP_SIZE: usize = 3;

/// Below this hash count a bootstrapped reference is too noisy to be useful:
/// the bootstrap episodes most likely share no content.
pub const MIN_REFERENCE_HASHES: usize = 100;

/// The fingerprints that do not match a reference, in order.
pub open spec fn unmatched(
    fps: Seq<FingerprintView>,
    reference: ReferenceView,
    config: Config,
) -> Seq<FingerprintView>
    decreases fps.len(),
{
    if fps.len() == 0 {
        Seq::empty()
    } else {
        let front = unmatched(fps.drop_last(), reference, config);
        if matching::reference_match(reference.frames, fps.last(), config) is None {
            front.push(fps.last())
        } else {
            front
        }
    }
}

/// The reference that the first episodes of a list bootstrap.
pub open spec fn candidate(fps: Seq<FingerprintView>) -> ReferenceView {
    reference::bootstrapped(fps.take(BOOTSTRAP_SIZE as int))
}

/// A candidate is kept if it has enough hashes and matches at least one of the
/// fingerprints.
pub open spec fn is_kept(fps: Seq<FingerprintView>, config: Config) -> bool {
    &&& candidate(fps).frames.len() >= MIN_REFERENCE_HASHES
    &&& unmatched(fps, candidate(fps), config).len() < fps.len()
}

/// The references of a list of fingerprints. The first three give a candidate.
/// If it is kept, the fingerprints that do not match it give the rest of the
/// references; if not, the first fingerprint is left out and the others are
/// tried again.
pub open spec fn adaptive_references(fps: Seq<FingerprintView>, config: Config) -> Seq<
    ReferenceView,
>
    decreases fps.len(),
{
    if fps.len() < BOOTSTRAP_SIZE {
        Seq::empty()
    } else if is_kept(fps, config) {
        seq![candidate(fps)] + adaptive_references(unmatched(fps, candidate(fps), config), config)
    } else {
        adaptive_references(fps.skip(1), config)
    }
}

/// No more fingerprints fail to match than there are.
pub proof fn lemma_unmatched_is_no_longer(
    fps: Seq<FingerprintView>,
    reference: ReferenceView,
    config: Config,
)
    ensures
        unmatched(fps, reference, config).len() <= fps.len(),
    decreases fps.len(),
{
    if fps.len() > 0 {
        lemma_unmatched_is_no_longer(fps.drop_last(), reference, config);
    }
}

/// Computes [`unmatched`].
fn keep_unmatched<'a>(
    fps: &Vec<&'a Fingerprint>,
    reference: &ReferenceFingerprint,
    config: &Config,
) -> (rest: Vec<&'a Fingerprint>)
    ensures
        reference::fingerprint_views(rest@) == unmatched(
            reference::fingerprint_views(fps@),
            reference@,
            *config,
        ),
{
    let mut rest: Vec<&'a Fingerprint> = Vec::new();
    let ghost views = reference::fingerprint_views(fps@);
    let mut i: usize = 0;
    assert(reference::fingerprint_views(rest@) =~= Seq::empty());
    while i < fps.len()
        invariant
            i <= fps@.len(),
            views == reference::fingerprint_views(fps@),
            reference::fingerprint_views(rest@) == unmatched(
                views.take(i as int),
                reference@,
                *config,
            ),
        decreases fps@.len() - i,
    {
        let fp: &'a Fingerprint = fps[i];
        proof {
            assert(views.take(i + 1).drop_last() =~= views.take(i as int));
            assert(views.take(i + 1).last() == fp@);
        }
        if matching::match_against_reference(reference, fp, config).is_none() {
            let ghost before = rest@;
            rest.push(fp);
            assert(reference::fingerprint_views(rest@) =~= reference::fingerprint_views(
                before,
            ).push(fp@));
        }
        i = i + 1;
    }
    assert(views.take(i as int) =~= views);
    rest
}

/// Builds references by bootstrapping from groups of fingerprints that match
/// no reference built before.
///
/// This handles seasons whose intro or credits audio changes on the way, such
/// as an anime with a new opening from episode 14 on: the episodes that fail
/// to match the first reference are the ones that bootstrap the second.
pub fn adaptive_bootstrap(fingerprints: &[&Fingerprint], config: &Config) -> (references: Vec<
    ReferenceFingerprint,
>)
    ensures
        matching::reference_views(references@) == adaptive_references(
            reference::fingerprint_views(fingerprints@),
            *config,
        ),
{
    let mut references: Vec<ReferenceFingerprint> = Vec::new();
    let mut remaining: Vec<&Fingerprint> = Vec::new();
    let mut i: usize = 0;
    while i < fingerprints.len()
        invariant
            i <= fingerprints@.len(),
            remaining@ == fingerprints@.take(i as int),
        decreases fingerprints@.len() - i,
    {
        remaining.push(fingerprints[i]);
        assert(fingerprints@.take(i + 1) =~= fingerprints@.take(i as int).push(
            fingerprints@[i as int],
        ));
        i = i + 1;
    }
    let ghost goal = adaptive_references(reference::fingerprint_views(fingerprints@), *config);
    proof {
        assert(remaining@ =~= fingerprints@);
        assert(matching::reference_views(references@) =~= Seq::empty());
        assert(matching::reference_views(references@) + goal =~= goal);
    }
    while remaining.len() >= BOOTSTRAP_SIZE
        invariant
            matching::reference_views(references@) + adaptive_references(
                reference::fingerprint_views(remaining@),
                *config,
            ) == goal,
        decreases remaining@.len(),
    {
        let ghost views = reference::fingerprint_views(remaining@);
        let first: [&Fingerprint; 3] = [remaining[0], remaining[1], remaining[2]];
        let built: Option<ReferenceFingerprint> = matching::build_reference(&first, config);
        proof {
            assert(reference::fingerprint_views(first@) =~= views.take(BOOTSTRAP_SIZE as int));
        }
        let built: ReferenceFingerprint = match built {
            Some(r) => r,
            None => return references,
        };
        if built.len() < MIN_REFERENCE_HASHES {
            // Too few hashes survived: the three share no content. Leave out
            // the first, which may be an outlier.
            remaining.remove(0);
            assert(reference::fingerprint_views(remaining@) =~= views.skip(1));
            continue ;
        }
        let rest: Vec<&Fingerprint> = keep_unmatched(&remaining, &built, config);
        proof {
            lemma_unmatched_is_no_longer(views, built@, *config);
            assert(reference::fingerprint_views(rest@).len() == rest@.len());
        }
        if rest.len() == remaining.len() {
            // The candidate matches nothing, not even what it was built from.
            remaining.remove(0);
            assert(reference::fingerprint_views(remaining@) =~= views.skip(1));
            continue ;
        }
        let ghost before = references@;
        references.push(built);
        proof {
            let more = adaptive_references(reference::fingerprint_views(rest@), *config);
            assert(matching::reference_views(references@) =~= matching::reference_views(
                before,
            ).push(built@));
            assert(matching::reference_views(references@) + more =~= matching::reference_views(
                before,
            ) + (seq![built@] + more));
        }
        remaining = rest;
    }
    proof {
        assert(matching::reference_views(references@) + Seq::<ReferenceView>::empty()
            =~= matching::reference_views(references@));
    }
    references
}

} // verus!
