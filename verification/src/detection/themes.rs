//! Which references a season has: one for every theme that three episodes in a
//! row share, whatever episodes without it stand in between.

use vstd::prelude::*;

use super::bootstrap;
use crate::fingerprint::constellation::FingerprintView;
use crate::matching::{self, reference, ReferenceView};
use crate::Config;

verus! {

/// The reference that the three fingerprints from place `i` on give.
pub open spec fn reference_from(fps: Seq<FingerprintView>, i: int) -> ReferenceView {
    reference::bootstrapped(seq![fps[i], fps[i + 1], fps[i + 2]])
}

/// `fp` matches the reference.
pub open spec fn has_theme(fp: FingerprintView, theme: ReferenceView, config: Config) -> bool {
    matching::reference_match(theme.frames, fp, config) is Some
}

/// The three fingerprints from place `i` on give a reference of at least a
/// hundred hashes, and some fingerprint from there on matches it.
pub open spec fn starts_a_theme(fps: Seq<FingerprintView>, i: int, config: Config) -> bool {
    &&& reference_from(fps, i).frames.len() >= 100
    &&& exists|k: int|
        i <= k < fps.len() && has_theme(#[trigger] fps[k], reference_from(fps, i), config)
}

/// The fingerprints that do not match are what is left of all when the others
/// are taken out.
proof fn lemma_unmatched_is_filtered(
    fps: Seq<FingerprintView>,
    theme: ReferenceView,
    config: Config,
)
    ensures
        bootstrap::unmatched(fps, theme, config) == fps.filter(
            |fp: FingerprintView| !has_theme(fp, theme, config),
        ),
    decreases fps.len(),
{
    let without = |fp: FingerprintView| !has_theme(fp, theme, config);
    if fps.len() == 0 {
        assert(fps.filter(without) =~= Seq::empty()) by {
            reveal(Seq::filter);
        }
    } else {
        let rest = fps.drop_last();
        lemma_unmatched_is_filtered(rest, theme, config);
        assert(fps =~= rest.push(fps.last()));
        rest.lemma_filter_push(fps.last(), without);
    }
}

/// As many are left out as match, so all are left only where none matches.
proof fn lemma_some_are_filtered(fps: Seq<FingerprintView>, theme: ReferenceView, config: Config)
    ensures
        bootstrap::unmatched(fps, theme, config).len() < fps.len() <==> exists|k: int|
            0 <= k < fps.len() && has_theme(#[trigger] fps[k], theme, config),
    decreases fps.len(),
{
    if fps.len() > 0 {
        let rest = fps.drop_last();
        lemma_some_are_filtered(rest, theme, config);
        bootstrap::lemma_unmatched_is_no_longer(rest, theme, config);
        assert(fps[fps.len() - 1] == fps.last());
        if exists|k: int| 0 <= k < rest.len() && has_theme(#[trigger] rest[k], theme, config) {
            let k = choose|k: int|
                0 <= k < rest.len() && has_theme(#[trigger] rest[k], theme, config);
            assert(fps[k] == rest[k]);
        }
        if exists|k: int| 0 <= k < fps.len() && has_theme(#[trigger] fps[k], theme, config) {
            let k = choose|k: int|
                0 <= k < fps.len() && has_theme(#[trigger] fps[k], theme, config);
            if k < rest.len() {
                assert(rest[k] == fps[k]);
            }
        }
    }
}

/// The candidate of a list is the reference of its first three.
proof fn lemma_candidate(fps: Seq<FingerprintView>, config: Config)
    requires
        fps.len() >= 3,
    ensures
        bootstrap::candidate(fps) == reference_from(fps, 0),
        bootstrap::is_kept(fps, config) == starts_a_theme(fps, 0, config),
{
    assert(fps.take(3) =~= seq![fps[0], fps[1], fps[2]]);
    lemma_some_are_filtered(fps, reference_from(fps, 0), config);
}

/// A theme that the first three fingerprints give is kept, and the fingerprints
/// without it give the other references, as they would alone.
pub proof fn law_theme_is_kept(fps: Seq<FingerprintView>, config: Config)
    requires
        fps.len() >= 3,
        starts_a_theme(fps, 0, config),
    ensures
        bootstrap::adaptive_references(fps, config) == seq![reference_from(fps, 0)]
            + bootstrap::adaptive_references(
            fps.filter(|fp: FingerprintView| !has_theme(fp, reference_from(fps, 0), config)),
            config,
        ),
{
    lemma_candidate(fps, config);
    lemma_unmatched_is_filtered(fps, reference_from(fps, 0), config);
}

/// Where the first three fingerprints give no theme, the first is passed over,
/// and it alone: the others give the references that they would give without it.
pub proof fn law_one_fingerprint_is_passed_over(fps: Seq<FingerprintView>, config: Config)
    requires
        fps.len() >= 3,
        !starts_a_theme(fps, 0, config),
    ensures
        bootstrap::adaptive_references(fps, config) == bootstrap::adaptive_references(
            fps.skip(1),
            config,
        ),
{
    lemma_candidate(fps, config);
}

/// Fewer than three fingerprints give no reference.
pub proof fn law_two_fingerprints_give_nothing(fps: Seq<FingerprintView>, config: Config)
    requires
        fps.len() < 3,
    ensures
        bootstrap::adaptive_references(fps, config).len() == 0,
{
}

/// Outliers do not block the bootstrap: where no three fingerprints in a row
/// give a theme before place `n`, the references are those of the fingerprints
/// from there on.
pub proof fn law_outliers_are_passed_over(fps: Seq<FingerprintView>, n: int, config: Config)
    requires
        0 <= n <= fps.len() - 3,
        forall|i: int| 0 <= i < n ==> !#[trigger] starts_a_theme(fps, i, config),
    ensures
        bootstrap::adaptive_references(fps, config) == bootstrap::adaptive_references(
            fps.skip(n),
            config,
        ),
    decreases n,
{
    if n == 0 {
        assert(fps.skip(0) =~= fps);
    } else {
        let rest = fps.skip(1);
        assert(!starts_a_theme(fps, 0, config));
        law_one_fingerprint_is_passed_over(fps, config);
        assert forall|i: int| 0 <= i < n - 1 implies !#[trigger] starts_a_theme(
            rest,
            i,
            config,
        ) by {
            lemma_start_moves(fps, 1, i, config);
            assert(!starts_a_theme(fps, i + 1, config));
        }
        law_outliers_are_passed_over(rest, n - 1, config);
        assert(rest.skip(n - 1) =~= fps.skip(n));
    }
}

/// A theme starts at a place of a list where it starts in the rest of the list.
proof fn lemma_start_moves(fps: Seq<FingerprintView>, n: int, i: int, config: Config)
    requires
        0 <= n,
        0 <= i,
        n + i + 3 <= fps.len(),
    ensures
        starts_a_theme(fps.skip(n), i, config) == starts_a_theme(fps, n + i, config),
        reference_from(fps.skip(n), i) == reference_from(fps, n + i),
{
    let rest = fps.skip(n);
    let theme = reference_from(fps, n + i);
    assert(reference_from(rest, i) == theme);
    if starts_a_theme(rest, i, config) {
        let k = choose|k: int|
            i <= k < rest.len() && has_theme(#[trigger] rest[k], theme, config);
        assert(fps[n + k] == rest[k]);
    }
    if starts_a_theme(fps, n + i, config) {
        let k = choose|k: int|
            n + i <= k < fps.len() && has_theme(#[trigger] fps[k], theme, config);
        assert(rest[k - n] == fps[k]);
    }
}

/// An outlier in front does not hide the theme of the others: where the first
/// three fingerprints give no theme, and the next three give a reference of at
/// least a hundred hashes that every fingerprint but the first matches, that
/// reference is the only one.
pub proof fn law_theme_behind_an_outlier_is_found(fps: Seq<FingerprintView>, config: Config)
    requires
        fps.len() >= 4,
        !starts_a_theme(fps, 0, config),
        reference_from(fps, 1).frames.len() >= 100,
        forall|k: int|
            1 <= k < fps.len() ==> has_theme(#[trigger] fps[k], reference_from(fps, 1), config),
    ensures
        bootstrap::adaptive_references(fps, config) == seq![reference_from(fps, 1)],
{
    let rest = fps.skip(1);
    let theme = reference_from(fps, 1);
    law_one_fingerprint_is_passed_over(fps, config);
    lemma_start_moves(fps, 1, 0, config);
    assert(has_theme(fps[1], theme, config));
    law_theme_is_kept(rest, config);
    let without = |fp: FingerprintView| !has_theme(fp, theme, config);
    assert forall|k: int| 0 <= k < rest.len() implies !without(#[trigger] rest[k]) by {
        assert(rest[k] == fps[k + 1]);
    }
    rest.lemma_all_neg_filter_empty(without);
    law_two_fingerprints_give_nothing(rest.filter(without), config);
    assert(bootstrap::adaptive_references(fps, config) =~= seq![theme]);
}

/// A season has no reference at all only where no three fingerprints in a row
/// give one of at least a hundred hashes that one of the three matches.
pub proof fn law_no_reference_only_without_a_theme(
    fps: Seq<FingerprintView>,
    config: Config,
    i: int,
    k: int,
)
    requires
        bootstrap::adaptive_references(fps, config).len() == 0,
        0 <= i <= fps.len() - 3,
        i <= k < i + 3,
    ensures
        reference_from(fps, i).frames.len() < 100 || !has_theme(
            fps[k],
            reference_from(fps, i),
            config,
        ),
    decreases fps.len(),
{
    if starts_a_theme(fps, 0, config) {
        law_theme_is_kept(fps, config);
        assert(bootstrap::adaptive_references(fps, config)[0] == reference_from(fps, 0));
    } else if i > 0 {
        law_one_fingerprint_is_passed_over(fps, config);
        lemma_start_moves(fps, 1, i - 1, config);
        law_no_reference_only_without_a_theme(fps.skip(1), config, i - 1, k - 1);
    }
}

/// A theme that all fingerprints have, and that the first three give, is the only
/// one.
pub proof fn law_common_theme_is_the_only_one(fps: Seq<FingerprintView>, config: Config)
    requires
        fps.len() >= 3,
        reference_from(fps, 0).frames.len() >= 100,
        forall|k: int|
            0 <= k < fps.len() ==> has_theme(#[trigger] fps[k], reference_from(fps, 0), config),
    ensures
        bootstrap::adaptive_references(fps, config) == seq![reference_from(fps, 0)],
{
    let theme = reference_from(fps, 0);
    assert(has_theme(fps[0], theme, config));
    law_theme_is_kept(fps, config);
    let without = |fp: FingerprintView| !has_theme(fp, theme, config);
    fps.lemma_all_neg_filter_empty(without);
    law_two_fingerprints_give_nothing(fps.filter(without), config);
    assert(bootstrap::adaptive_references(fps, config) =~= seq![theme]);
}

} // verus!
