//! Saving and loading the references of a season.
//!
//! The references of a kind are numbered files. Saving sweeps away every file
//! of an earlier save first; loading reads from number zero on and stops at the
//! first number that has no file.

use vstd::prelude::*;

use crate::decimal;
use crate::fingerprint::FingerprintKind;

verus! {

/// What saving the references of a kind does to the directory of a season.
#[derive(Debug, Clone)]
pub struct SavePlan {
    /// Files to remove first, by their index in the listing.
    pub remove: Vec<usize>,
    /// Names of the files to write, in the order of the references.
    pub write: Vec<String>,
}

/// The plan for saving `count` references of a kind where the files of
/// `listing` are: every stale file is removed, in the order of the listing, and
/// each reference gets the file of its number.
pub open spec fn is_save_plan(
    plan: SavePlan,
    kind: FingerprintKind,
    listing: Seq<String>,
    count: nat,
) -> bool {
    &&& forall|i: usize| #[trigger]
        plan.remove@.contains(i) <==> i < listing.len() && super::is_stale(
            listing[i as int]@,
            kind,
        )
    &&& forall|i: int, j: int|
        0 <= i < j < plan.remove@.len() ==> plan.remove@[i] < plan.remove@[j]
    &&& plan.write@.len() == count
    &&& forall|i: int|
        0 <= i < count ==> (#[trigger] plan.write@[i])@ == super::reference_file(kind, i as nat)
}

/// Plans the saving of `count` references of a kind, given the names of the
/// files that are there.
pub fn save_references(kind: FingerprintKind, listing: &[String], count: usize) -> (plan: SavePlan)
    ensures
        is_save_plan(plan, kind, listing@, count as nat),
{
    let mut remove: Vec<usize> = Vec::new();
    let mut i: usize = 0;
    while i < listing.len()
        invariant
            i <= listing@.len(),
            forall|j: int| 0 <= j < remove@.len() ==> (#[trigger] remove@[j]) < i,
            forall|j: usize| #[trigger]
                remove@.contains(j) <==> j < i && super::is_stale(listing@[j as int]@, kind),
            forall|a: int, b: int| 0 <= a < b < remove@.len() ==> remove@[a] < remove@[b],
        decreases listing@.len() - i,
    {
        if super::is_stale_reference(listing[i].as_str(), kind) {
            let ghost before = remove@;
            remove.push(i);
            proof {
                assert(remove@[before.len() as int] == i);
                assert forall|j: usize| #[trigger]
                    remove@.contains(j) <==> j < i + 1 && super::is_stale(
                        listing@[j as int]@,
                        kind,
                    ) by {
                    if before.contains(j) {
                        let k = choose|k: int| 0 <= k < before.len() && before[k] == j;
                        assert(remove@[k] == j);
                    }
                    if remove@.contains(j) && j != i {
                        let k = choose|k: int| 0 <= k < remove@.len() && remove@[k] == j;
                        assert(before[k] == j);
                        assert(before.contains(j));
                    }
                }
            }
        }
        i = i + 1;
    }
    let mut write: Vec<String> = Vec::new();
    let mut cluster: usize = 0;
    while cluster < count
        invariant
            cluster <= count,
            write@.len() == cluster,
            forall|j: int|
                0 <= j < cluster ==> (#[trigger] write@[j])@ == super::reference_file(
                    kind,
                    j as nat,
                ),
        decreases count - cluster,
    {
        write.push(super::reference_path(kind, cluster));
        cluster = cluster + 1;
    }
    SavePlan { remove, write }
}

/// A read of the references of a kind, on its way.
#[derive(Debug, Clone)]
pub struct ReferenceLoader<T> {
    pub kind: FingerprintKind,
    /// What was read so far.
    pub loaded: Vec<T>,
}

/// Begins to load the references of a kind.
pub fn load_references<T>(kind: FingerprintKind) -> (loader: ReferenceLoader<T>)
    ensures
        loader.kind == kind,
        loader.loaded@.len() == 0,
{
    ReferenceLoader { kind, loaded: Vec::new() }
}

/// What was read so far, and then what the next file held, if it is there.
pub open spec fn accepted<T>(loaded: Seq<T>, found: Option<T>) -> Seq<T> {
    match found {
        Some(reference) => loaded.push(reference),
        None => loaded,
    }
}

impl<T> ReferenceLoader<T> {
    /// The name of the file to read next.
    pub fn next_file(&self) -> (name: String)
        ensures
            name@ == super::reference_file(self.kind, self.loaded@.len()),
    {
        super::reference_path(self.kind, self.loaded.len())
    }

    /// Takes what that file held, or `None` where there is no such file. Tells
    /// whether the load is complete.
    pub fn accept(&mut self, found: Option<T>) -> (complete: bool)
        ensures
            final(self).kind == old(self).kind,
            final(self).loaded@ == accepted(old(self).loaded@, found),
            complete == (found is None),
    {
        match found {
            Some(reference) => {
                self.loaded.push(reference);
                false
            },
            None => true,
        }
    }
}

/// The directory of a season after the references of a kind were saved: what
/// was stale is gone, and each reference stands in its file.
pub open spec fn after_save<T>(
    directory: Map<Seq<char>, T>,
    kind: FingerprintKind,
    references: Seq<T>,
) -> Map<Seq<char>, T> {
    Map::new(
        |name: Seq<char>|
            is_written(kind, references.len(), name) || (directory.contains_key(name)
                && !super::is_stale(name, kind)),
        |name: Seq<char>|
            if is_written(kind, references.len(), name) {
                references[cluster_of(kind, references.len(), name)]
            } else {
                directory[name]
            },
    )
}

/// `name` is the file of one of `count` references.
pub open spec fn is_written(kind: FingerprintKind, count: nat, name: Seq<char>) -> bool {
    exists|i: int| 0 <= i < count && #[trigger] super::reference_file(kind, i as nat) == name
}

/// The reference that is written to a file.
pub open spec fn cluster_of(kind: FingerprintKind, count: nat, name: Seq<char>) -> int {
    choose|i: int| 0 <= i < count && #[trigger] super::reference_file(kind, i as nat) == name
}

/// Loading the references of a kind from a directory gives these: each stands
/// in its file, and the file of the next number is missing.
pub open spec fn is_loaded<T>(
    directory: Map<Seq<char>, T>,
    kind: FingerprintKind,
    references: Seq<T>,
) -> bool {
    &&& forall|i: int|
        #![trigger super::reference_file(kind, i as nat)]
        0 <= i < references.len() ==> directory.contains_key(super::reference_file(kind, i as nat))
            && directory[super::reference_file(kind, i as nat)] == references[i]
    &&& !directory.contains_key(super::reference_file(kind, references.len()))
}

/// The files of two references of a kind differ, and either is stale.
pub proof fn lemma_reference_files(kind: FingerprintKind, i: nat, j: nat)
    ensures
        super::reference_file(kind, i) == super::reference_file(kind, j) ==> i == j,
        super::is_stale(super::reference_file(kind, i), kind),
{
    let a = super::reference_file(kind, i);
    let b = super::reference_file(kind, j);
    let head = super::reference_prefix(kind);
    let tail = ".bin"@;
    decimal::lemma_decimal(i);
    decimal::lemma_decimal(j);
    assert(a.take(head.len() as int) =~= head);
    assert(a.skip(a.len() - tail.len()) =~= tail);
    if a == b {
        assert(a.subrange(head.len() as int, a.len() - tail.len()) =~= decimal::decimal(i));
        assert(b.subrange(head.len() as int, b.len() - tail.len()) =~= decimal::decimal(j));
    }
}

/// What is saved is what is loaded: after a save, a load gives exactly the
/// references that were saved, whatever an earlier save had left.
pub proof fn law_saved_references_are_loaded<T>(
    directory: Map<Seq<char>, T>,
    kind: FingerprintKind,
    references: Seq<T>,
)
    ensures
        is_loaded(after_save(directory, kind, references), kind, references),
{
    let after = after_save(directory, kind, references);
    let count = references.len();
    assert forall|i: int|
        #![trigger super::reference_file(kind, i as nat)]
        0 <= i < count implies after.contains_key(super::reference_file(kind, i as nat))
        && after[super::reference_file(kind, i as nat)] == references[i] by {
        let name = super::reference_file(kind, i as nat);
        assert(is_written(kind, count, name));
        let k = cluster_of(kind, count, name);
        lemma_reference_files(kind, k as nat, i as nat);
    }
    let next = super::reference_file(kind, count);
    lemma_reference_files(kind, count, count);
    if is_written(kind, count, next) {
        let k = cluster_of(kind, count, next);
        lemma_reference_files(kind, k as nat, count);
    }
}

/// The plan removes this file.
pub open spec fn is_removed(plan: SavePlan, listing: Seq<String>, name: Seq<char>) -> bool {
    exists|i: usize| #[trigger] plan.remove@.contains(i) && listing[i as int]@ == name
}

/// A directory without the files that the plan removes.
pub open spec fn swept<T>(
    directory: Map<Seq<char>, T>,
    plan: SavePlan,
    listing: Seq<String>,
) -> Map<Seq<char>, T> {
    Map::new(
        |name: Seq<char>| directory.contains_key(name) && !is_removed(plan, listing, name),
        |name: Seq<char>| directory[name],
    )
}

/// A directory after each reference was written to the file that the plan has
/// for it.
pub open spec fn written<T>(
    directory: Map<Seq<char>, T>,
    plan: SavePlan,
    references: Seq<T>,
) -> Map<Seq<char>, T>
    decreases references.len(),
{
    if references.len() == 0 {
        directory
    } else {
        written(directory, plan, references.drop_last()).insert(
            plan.write@[references.len() - 1]@,
            references.last(),
        )
    }
}

/// What a directory holds after some references were written to it.
proof fn lemma_written<T>(
    directory: Map<Seq<char>, T>,
    plan: SavePlan,
    kind: FingerprintKind,
    references: Seq<T>,
    name: Seq<char>,
)
    requires
        references.len() <= plan.write@.len(),
        forall|i: int|
            0 <= i < plan.write@.len() ==> (#[trigger] plan.write@[i])@ == super::reference_file(
                kind,
                i as nat,
            ),
    ensures
        ({
            let after = written(directory, plan, references);
            let is_new = is_written(kind, references.len(), name);
            &&& after.contains_key(name) == (is_new || directory.contains_key(name))
            &&& is_new ==> after[name] == references[cluster_of(kind, references.len(), name)]
            &&& !is_new && directory.contains_key(name) ==> after[name] == directory[name]
        }),
    decreases references.len(),
{
    if references.len() > 0 {
        let fewer = references.drop_last();
        let last = references.len() - 1;
        lemma_written(directory, plan, kind, fewer, name);
        let latest = super::reference_file(kind, last as nat);
        assert(plan.write@[last]@ == latest);
        if name == latest {
            assert(is_written(kind, references.len(), name));
            let k = cluster_of(kind, references.len(), name);
            lemma_reference_files(kind, k as nat, last as nat);
        } else {
            if is_written(kind, fewer.len(), name) {
                let k = cluster_of(kind, fewer.len(), name);
                assert(is_written(kind, references.len(), name));
                let n = cluster_of(kind, references.len(), name);
                lemma_reference_files(kind, k as nat, n as nat);
            }
            if is_written(kind, references.len(), name) {
                let n = cluster_of(kind, references.len(), name);
                assert(n != last);
                assert(super::reference_file(kind, n as nat) == name);
                assert(is_written(kind, fewer.len(), name));
            }
        }
    }
}

/// A plan of [`save_references`] does what it is for: where the listing names
/// every file of a directory, removing and writing as planned leaves the
/// directory [`after_save`].
pub proof fn law_plan_saves_the_references<T>(
    directory: Map<Seq<char>, T>,
    listing: Seq<String>,
    plan: SavePlan,
    kind: FingerprintKind,
    references: Seq<T>,
)
    requires
        listing.len() <= usize::MAX,
        forall|name: Seq<char>| #[trigger]
            directory.contains_key(name) ==> exists|i: int|
                0 <= i < listing.len() && (#[trigger] listing[i])@ == name,
        is_save_plan(plan, kind, listing, references.len()),
    ensures
        written(swept(directory, plan, listing), plan, references) == after_save(
            directory,
            kind,
            references,
        ),
{
    let clean = swept(directory, plan, listing);
    let one = written(clean, plan, references);
    let other = after_save(directory, kind, references);
    assert forall|name: Seq<char>| directory.contains_key(name) implies #[trigger] is_removed(
        plan,
        listing,
        name,
    ) == super::is_stale(name, kind) by {
        let i = choose|i: int| 0 <= i < listing.len() && (#[trigger] listing[i])@ == name;
        if super::is_stale(name, kind) {
            assert(plan.remove@.contains(i as usize));
        }
    }
    assert forall|name: Seq<char>| #[trigger]
        one.contains_key(name) == other.contains_key(name) by {
        lemma_written(clean, plan, kind, references, name);
        if directory.contains_key(name) {
            assert(is_removed(plan, listing, name) == super::is_stale(name, kind));
        }
    }
    assert forall|name: Seq<char>| #[trigger] one.contains_key(name) implies one[name]
        == other[name] by {
        lemma_written(clean, plan, kind, references, name);
        assert(other.contains_key(name));
    }
    assert(one =~= other);
}

/// What a loader finds that has read so much: the next file of the directory,
/// if it is there.
pub open spec fn found_in<T>(
    directory: Map<Seq<char>, T>,
    kind: FingerprintKind,
    loaded: Seq<T>,
) -> Option<T> {
    let name = super::reference_file(kind, loaded.len());
    if directory.contains_key(name) {
        Some(directory[name])
    } else {
        None
    }
}

/// What a loader holds after it was given so many files of a directory.
pub open spec fn loaded_after<T>(
    directory: Map<Seq<char>, T>,
    kind: FingerprintKind,
    steps: nat,
) -> Seq<T>
    decreases steps,
{
    if steps == 0 {
        Seq::empty()
    } else {
        let before = loaded_after(directory, kind, (steps - 1) as nat);
        accepted(before, found_in(directory, kind, before))
    }
}

/// A [`ReferenceLoader`] reads what [`is_loaded`] says: it takes one reference
/// at a time, finds the next file as long as references are left, and is
/// complete when it holds all of them.
pub proof fn law_loader_reads_the_references<T>(
    directory: Map<Seq<char>, T>,
    kind: FingerprintKind,
    references: Seq<T>,
    steps: nat,
)
    requires
        is_loaded(directory, kind, references),
        steps <= references.len(),
    ensures
        loaded_after(directory, kind, steps) == references.take(steps as int),
        found_in(directory, kind, loaded_after(directory, kind, steps)) == (if steps
            < references.len() {
            Some(references[steps as int])
        } else {
            None
        }),
    decreases steps,
{
    if steps > 0 {
        law_loader_reads_the_references(directory, kind, references, (steps - 1) as nat);
        assert(references.take(steps as int) =~= references.take(steps - 1).push(
            references[steps - 1],
        ));
    } else {
        assert(references.take(0) =~= Seq::empty());
    }
    if steps < references.len() {
        lemma_loaded_file(directory, kind, references, steps as int);
    }
}

/// What is saved is what is read back: a directory that was swept and written
/// as [`save_references`] planned gives a loader exactly the references that
/// were saved, in their order, and no file after them.
pub proof fn law_saved_references_are_read_back<T>(
    directory: Map<Seq<char>, T>,
    listing: Seq<String>,
    plan: SavePlan,
    kind: FingerprintKind,
    references: Seq<T>,
)
    requires
        listing.len() <= usize::MAX,
        forall|name: Seq<char>| #[trigger]
            directory.contains_key(name) ==> exists|i: int|
                0 <= i < listing.len() && (#[trigger] listing[i])@ == name,
        is_save_plan(plan, kind, listing, references.len()),
    ensures
        ({
            let after = written(swept(directory, plan, listing), plan, references);
            &&& loaded_after(after, kind, references.len()) == references
            &&& found_in(after, kind, references) is None
        }),
{
    law_plan_saves_the_references(directory, listing, plan, kind, references);
    law_saved_references_are_loaded(directory, kind, references);
    let after = after_save(directory, kind, references);
    law_loader_reads_the_references(after, kind, references, references.len());
    assert(references.take(references.len() as int) =~= references);
}

/// A reference that was loaded stands in its file.
proof fn lemma_loaded_file<T>(
    directory: Map<Seq<char>, T>,
    kind: FingerprintKind,
    references: Seq<T>,
    i: int,
)
    requires
        is_loaded(directory, kind, references),
        0 <= i < references.len(),
    ensures
        directory.contains_key(super::reference_file(kind, i as nat)),
        directory[super::reference_file(kind, i as nat)] == references[i],
{
}

/// A directory holds one set of references of a kind: no two different loads
/// are possible.
pub proof fn law_load_is_determined<T>(
    directory: Map<Seq<char>, T>,
    kind: FingerprintKind,
    one: Seq<T>,
    other: Seq<T>,
)
    requires
        is_loaded(directory, kind, one),
        is_loaded(directory, kind, other),
    ensures
        one == other,
{
    if one.len() < other.len() {
        lemma_loaded_file(directory, kind, other, one.len() as int);
    }
    if other.len() < one.len() {
        lemma_loaded_file(directory, kind, one, other.len() as int);
    }
    assert forall|i: int| 0 <= i < one.len() implies one[i] == other[i] by {
        lemma_loaded_file(directory, kind, one, i);
        lemma_loaded_file(directory, kind, other, i);
    }
    assert(one =~= other);
}

/// A file that does not carry the mark of a kind is not touched by a save of
/// that kind's references.
proof fn lemma_unmarked_file_is_kept<T>(
    directory: Map<Seq<char>, T>,
    kind: FingerprintKind,
    references: Seq<T>,
    name: Seq<char>,
)
    requires
        !super::is_stale(name, kind),
    ensures
        after_save(directory, kind, references).contains_key(name) == directory.contains_key(name),
        directory.contains_key(name) ==> after_save(directory, kind, references)[name]
            == directory[name],
{
    if is_written(kind, references.len(), name) {
        let k = cluster_of(kind, references.len(), name);
        lemma_reference_files(kind, k as nat, k as nat);
    }
}

/// Saving the references of one kind leaves the fingerprints of the episodes
/// and the references of the other kind as they are.
pub proof fn law_save_leaves_other_files<T>(
    directory: Map<Seq<char>, T>,
    kind: FingerprintKind,
    references: Seq<T>,
    episode: nat,
    of: FingerprintKind,
    other: FingerprintKind,
    cluster: nat,
)
    requires
        other != kind,
    ensures
        ({
            let after = after_save(directory, kind, references);
            let fingerprint = super::episode_file(episode, of);
            let reference = super::reference_file(other, cluster);
            &&& after.contains_key(fingerprint) == directory.contains_key(fingerprint)
            &&& directory.contains_key(fingerprint) ==> after[fingerprint]
                == directory[fingerprint]
            &&& after.contains_key(reference) == directory.contains_key(reference)
            &&& directory.contains_key(reference) ==> after[reference] == directory[reference]
        }),
{
    reveal_strlit("intro");
    reveal_strlit("credits");
    reveal_strlit("e");
    let head = super::reference_prefix(kind);
    let fingerprint = super::episode_file(episode, of);
    let reference = super::reference_file(other, cluster);
    assert(fingerprint[0] == 'e');
    assert(reference[0] == super::suffix_text(other)[0]);
    assert(head[0] == super::suffix_text(kind)[0]);
    assert(head.len() <= fingerprint.len() ==> fingerprint.take(head.len() as int)[0] == 'e');
    assert(head.len() <= reference.len() ==> reference.take(head.len() as int)[0]
        == reference[0]);
    lemma_unmarked_file_is_kept(directory, kind, references, fingerprint);
    lemma_unmarked_file_is_kept(directory, kind, references, reference);
}

/// No two windows of a season's episodes share a file.
pub proof fn law_episode_files_differ(
    episode: nat,
    kind: FingerprintKind,
    other_episode: nat,
    other_kind: FingerprintKind,
)
    requires
        super::episode_file(episode, kind) == super::episode_file(other_episode, other_kind),
    ensures
        episode == other_episode,
        kind == other_kind,
{
    reveal_strlit("intro");
    reveal_strlit("credits");
    reveal_strlit("e");
    reveal_strlit(".");
    let a = super::episode_file(episode, kind);
    let b = super::episode_file(other_episode, other_kind);
    let m = decimal::padded(episode);
    let n = decimal::padded(other_episode);
    decimal::lemma_padded(episode);
    decimal::lemma_padded(other_episode);
    assert forall|j: int| 0 <= j < m.len() + 1 implies a[j] != '.' by {
        if j > 0 {
            assert(a[j] == m[j - 1]);
            assert(decimal::is_digit(m[j - 1]));
        }
    }
    assert forall|j: int| 0 <= j < n.len() + 1 implies b[j] != '.' by {
        if j > 0 {
            assert(b[j] == n[j - 1]);
            assert(decimal::is_digit(n[j - 1]));
        }
    }
    let x = m.len() as int;
    let y = n.len() as int;
    assert(a[x + 1] == '.');
    assert(b[y + 1] == '.');
    assert(x == y);
    assert(a.subrange(1, x + 1) =~= m);
    assert(b.subrange(1, y + 1) =~= n);
    assert(a[x + 2] == super::suffix_text(kind)[0]);
    assert(b[y + 2] == super::suffix_text(other_kind)[0]);
}

/// No fingerprint of an episode shares a file with a reference.
pub proof fn law_episode_file_is_no_reference(
    episode: nat,
    kind: FingerprintKind,
    reference_kind: FingerprintKind,
    cluster: nat,
)
    ensures
        super::episode_file(episode, kind) != super::reference_file(reference_kind, cluster),
{
    reveal_strlit("intro");
    reveal_strlit("credits");
    reveal_strlit("e");
    assert(super::episode_file(episode, kind)[0] == 'e');
    assert(super::reference_file(reference_kind, cluster)[0] == super::suffix_text(
        reference_kind,
    )[0]);
}

} // verus!
