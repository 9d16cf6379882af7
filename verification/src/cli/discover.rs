//! The episodes among the files of a directory.

use vstd::prelude::*;

use super::number;
use crate::detection::EpisodeFile;
use crate::{storage, text};

verus! {

/// One file of a directory.
#[derive(Debug, Clone)]
pub struct MediaEntry {
    /// The bytes of the file name, by which files without a number are ordered.
    pub name: Vec<u8>,
    /// The file name without its extension, if it is text.
    pub stem: Option<String>,
    /// The extension, if there is one and it is text.
    pub extension: Option<String>,
}

/// An extension of media files.
pub open spec fn is_media_extension(extension: Seq<char>) -> bool {
    ||| extension == "mkv"@
    ||| extension == "mp4"@
    ||| extension == "avi"@
    ||| extension == "m4v"@
    ||| extension == "ts"@
    ||| extension == "flac"@
    ||| extension == "mp3"@
    ||| extension == "ogg"@
    ||| extension == "wav"@
}

impl MediaEntry {
    /// The file is a media file, by its extension.
    pub open spec fn is_media(self) -> bool {
        self.extension matches Some(extension) && is_media_extension(extension@)
    }

    /// The episode number in the file's name, for a scan of a season.
    pub open spec fn number(self, season: u32) -> Option<u32> {
        match self.stem {
            Some(stem) => number::episode_number(stem@, 0, season),
            None => None,
        }
    }
}

/// The order of byte strings: that of the first bytes that differ, and the
/// shorter first where there are none.
pub open spec fn bytes_before(a: Seq<u8>, b: Seq<u8>) -> bool
    decreases a.len(),
{
    if b.len() == 0 {
        false
    } else if a.len() == 0 {
        true
    } else {
        a[0] < b[0] || (a[0] == b[0] && bytes_before(a.skip(1), b.skip(1)))
    }
}

/// The order of files: numbered ones by number, then the others by name.
pub open spec fn file_before(a: MediaEntry, b: MediaEntry, season: u32) -> bool {
    match (a.number(season), b.number(season)) {
        (Some(x), Some(y)) => x < y,
        (Some(_), None) => true,
        (None, Some(_)) => false,
        (None, None) => bytes_before(a.name@, b.name@),
    }
}

/// The order of files in a listing: [`file_before`], and their places in the
/// listing where that does not tell them apart.
pub open spec fn listed_before(entries: Seq<MediaEntry>, season: u32, i: int, j: int) -> bool {
    ||| file_before(entries[i], entries[j], season)
    ||| !file_before(entries[j], entries[i], season) && i < j
}

/// `order` holds the indices of the media files of a listing, each once, in
/// order.
pub open spec fn is_season_order(
    entries: Seq<MediaEntry>,
    season: u32,
    order: Seq<usize>,
) -> bool {
    &&& forall|i: int|
        0 <= i < order.len() ==> (#[trigger] order[i]) < entries.len()
            && entries[order[i] as int].is_media()
    &&& forall|k: usize|
        k < entries.len() && (#[trigger] entries[k as int]).is_media() ==> order.contains(k)
    &&& forall|i: int, j: int|
        #![trigger order[i], order[j]]
        0 <= i < j < order.len() ==> order[i] != order[j] && listed_before(
            entries,
            season,
            order[i] as int,
            order[j] as int,
        )
}

/// The order of byte strings is negatively transitive, and never goes both
/// ways.
proof fn lemma_bytes_order(a: Seq<u8>, b: Seq<u8>, c: Seq<u8>)
    ensures
        bytes_before(a, c) ==> bytes_before(a, b) || bytes_before(b, c),
        !(bytes_before(a, b) && bytes_before(b, a)),
    decreases a.len() + b.len() + c.len(),
{
    if a.len() > 0 && b.len() > 0 {
        if c.len() > 0 {
            lemma_bytes_order(a.skip(1), b.skip(1), c.skip(1));
        } else {
            lemma_bytes_order(a.skip(1), b.skip(1), c);
        }
    }
}

/// The order of files is negatively transitive, and never goes both ways.
proof fn lemma_file_order(a: MediaEntry, b: MediaEntry, c: MediaEntry, season: u32)
    ensures
        file_before(a, c, season) ==> file_before(a, b, season) || file_before(b, c, season),
        !(file_before(a, b, season) && file_before(b, a, season)),
{
    lemma_bytes_order(a.name@, b.name@, c.name@);
}

/// The order of a listing is total and transitive.
proof fn lemma_listing_order(entries: Seq<MediaEntry>, season: u32, i: int, j: int, k: int)
    ensures
        i != j ==> listed_before(entries, season, i, j) || listed_before(entries, season, j, i),
        listed_before(entries, season, i, j) && listed_before(entries, season, j, k)
            ==> listed_before(entries, season, i, k),
{
    let (a, b, c) = (entries[i], entries[j], entries[k]);
    lemma_file_order(a, b, c, season);
    lemma_file_order(a, c, b, season);
    lemma_file_order(b, a, c, season);
    lemma_file_order(b, c, a, season);
    lemma_file_order(c, a, b, season);
    lemma_file_order(c, b, a, season);
}

/// Computes [`bytes_before`].
fn compare_bytes(a: &Vec<u8>, b: &Vec<u8>) -> (before: bool)
    ensures
        before == bytes_before(a@, b@),
{
    let mut i: usize = 0;
    assert(a@.skip(0) =~= a@);
    assert(b@.skip(0) =~= b@);
    while i < a.len() && i < b.len()
        invariant
            i <= a@.len(),
            i <= b@.len(),
            bytes_before(a@, b@) == bytes_before(a@.skip(i as int), b@.skip(i as int)),
        decreases a@.len() - i,
    {
        proof {
            let (x, y) = (a@.skip(i as int), b@.skip(i as int));
            assert(x[0] == a@[i as int]);
            assert(y[0] == b@[i as int]);
            assert(x.skip(1) =~= a@.skip(i + 1));
            assert(y.skip(1) =~= b@.skip(i + 1));
        }
        if a[i] != b[i] {
            return a[i] < b[i];
        }
        i = i + 1;
    }
    i < b.len()
}

/// Computes [`MediaEntry::is_media`].
fn is_media_file(entry: &MediaEntry) -> (media: bool)
    ensures
        media == entry.is_media(),
{
    match &entry.extension {
        Some(extension) => {
            let e: &str = extension.as_str();
            text::same(e, "mkv") || text::same(e, "mp4") || text::same(e, "avi") || text::same(
                e,
                "m4v",
            ) || text::same(e, "ts") || text::same(e, "flac") || text::same(e, "mp3")
                || text::same(e, "ogg") || text::same(e, "wav")
        },
        None => false,
    }
}

/// Reads the episode number in a file's name.
fn file_number(entry: &MediaEntry, season: u32) -> (number: Option<u32>)
    ensures
        number == entry.number(season),
{
    match &entry.stem {
        Some(stem) => number::parse_episode_number(stem.as_str(), season),
        None => None,
    }
}

/// Computes [`file_before`], with the numbers of the files at hand.
fn compare_files(
    a: &MediaEntry,
    a_number: Option<u32>,
    b: &MediaEntry,
    b_number: Option<u32>,
    season: Ghost<u32>,
) -> (before: bool)
    requires
        a_number == a.number(season@),
        b_number == b.number(season@),
    ensures
        before == file_before(*a, *b, season@),
{
    match (a_number, b_number) {
        (Some(x), Some(y)) => x < y,
        (Some(_), None) => true,
        (None, Some(_)) => false,
        (None, None) => compare_bytes(&a.name, &b.name),
    }
}

/// The indices of a listing's media files, in order.
fn season_order(entries: &[MediaEntry], numbers: &Vec<Option<u32>>, season: Ghost<u32>) -> (order:
    Vec<usize>)
    requires
        numbers@.len() == entries@.len(),
        forall|k: int|
            0 <= k < entries@.len() ==> (#[trigger] numbers@[k]) == entries@[k].number(season@),
    ensures
        is_season_order(entries@, season@, order@),
{
    let mut order: Vec<usize> = Vec::new();
    let mut k: usize = 0;
    while k < entries.len()
        invariant
            k <= entries@.len(),
            numbers@.len() == entries@.len(),
            forall|j: int|
                0 <= j < entries@.len() ==> (#[trigger] numbers@[j]) == entries@[j].number(season@),
            forall|i: int| 0 <= i < order@.len() ==> (#[trigger] order@[i]) < k,
            is_season_order(entries@.take(k as int), season@, order@),
        decreases entries@.len() - k,
    {
        let ghost seen = entries@.take(k as int);
        let ghost more = entries@.take(k + 1);
        let ghost before = order@;
        if is_media_file(&entries[k]) {
            let mut at: usize = order.len();
            while at > 0 && compare_files(
                &entries[k],
                numbers[k],
                &entries[order[at - 1]],
                numbers[order[at - 1]],
                season,
            )
                invariant
                    at <= order@.len(),
                    k < entries@.len(),
                    numbers@.len() == entries@.len(),
                    forall|j: int|
                        0 <= j < entries@.len() ==> (#[trigger] numbers@[j])
                            == entries@[j].number(season@),
                    forall|i: int| 0 <= i < order@.len() ==> (#[trigger] order@[i]) < k,
                    forall|i: int|
                        at <= i < order@.len() ==> file_before(
                            entries@[k as int],
                            entries@[(#[trigger] order@[i]) as int],
                            season@,
                        ),
                decreases at,
            {
                at = at - 1;
            }
            order.insert(at, k);
            proof {
                lemma_inserted(entries@, season@, before, k as int, at as int);
                assert(order@ == before.insert(at as int, k));
            }
        } else {
            proof {
                lemma_skipped(entries@, season@, order@, k as int);
            }
        }
        k = k + 1;
    }
    assert(entries@.take(k as int) =~= entries@);
    order
}

/// A listing whose next file is no media file keeps its order.
proof fn lemma_skipped(entries: Seq<MediaEntry>, season: u32, order: Seq<usize>, k: int)
    requires
        0 <= k < entries.len(),
        is_season_order(entries.take(k), season, order),
        !entries[k].is_media(),
        entries.len() <= usize::MAX,
    ensures
        is_season_order(entries.take(k + 1), season, order),
{
    let (seen, more) = (entries.take(k), entries.take(k + 1));
    assert forall|m: usize|
        m < more.len() && (#[trigger] more[m as int]).is_media() implies order.contains(m) by {
        assert(more[m as int] == entries[m as int]);
        assert(seen[m as int].is_media());
    }
    assert forall|i: int, j: int|
        #![trigger order[i], order[j]]
        0 <= i < j < order.len() implies order[i] != order[j] && listed_before(
        more,
        season,
        order[i] as int,
        order[j] as int,
    ) by {
        assert(listed_before(seen, season, order[i] as int, order[j] as int));
    }
}

/// Putting the next file in its place keeps a listing in order.
#[verifier::spinoff_prover]
#[verifier::rlimit(40)]
proof fn lemma_inserted(
    entries: Seq<MediaEntry>,
    season: u32,
    order: Seq<usize>,
    k: int,
    at: int,
)
    requires
        0 <= k < entries.len() <= usize::MAX,
        is_season_order(entries.take(k), season, order),
        entries[k].is_media(),
        0 <= at <= order.len(),
        forall|i: int|
            at <= i < order.len() ==> file_before(
                entries[k],
                entries[(#[trigger] order[i]) as int],
                season,
            ),
        at > 0 ==> !file_before(entries[k], entries[order[at - 1] as int], season),
    ensures
        is_season_order(entries.take(k + 1), season, order.insert(at, k as usize)),
{
    let (seen, more) = (entries.take(k), entries.take(k + 1));
    let longer = order.insert(at, k as usize);
    assert forall|i: int| 0 <= i < longer.len() implies (#[trigger] longer[i]) < more.len()
        && more[longer[i] as int].is_media() by {
        if i < at {
            assert(longer[i] == order[i]);
            assert(more[order[i] as int] == seen[order[i] as int]);
        } else if i > at {
            assert(longer[i] == order[i - 1]);
            assert(more[order[i - 1] as int] == seen[order[i - 1] as int]);
        }
    }
    assert forall|m: usize|
        m < more.len() && (#[trigger] more[m as int]).is_media() implies longer.contains(m) by {
        if m == k {
            assert(longer[at] == m);
        } else {
            assert(seen[m as int] == more[m as int]);
            assert(order.contains(m));
            let i = choose|i: int| 0 <= i < order.len() && order[i] == m;
            if i < at {
                assert(longer[i] == m);
            } else {
                assert(longer[i + 1] == m);
            }
        }
    }
    assert forall|i: int| 0 <= i < at implies listed_before(
        more,
        season,
        #[trigger] order[i] as int,
        k,
    ) by {
        let last = order[at - 1] as int;
        assert(more[last] == entries[last]);
        assert(listed_before(more, season, last, k));
        if i < at - 1 {
            assert(listed_before(seen, season, order[i] as int, last));
            assert(more[order[i] as int] == seen[order[i] as int]);
            lemma_listing_order(more, season, order[i] as int, last, k);
        }
    }
    assert forall|i: int, j: int|
        #![trigger longer[i], longer[j]]
        0 <= i < j < longer.len() implies longer[i] != longer[j] && listed_before(
        more,
        season,
        longer[i] as int,
        longer[j] as int,
    ) by {
        let x = if i < at {
            i
        } else {
            i - 1
        };
        let y = if j < at {
            j
        } else {
            j - 1
        };
        if i == at {
            assert(longer[j] == order[y]);
            assert(more[order[y] as int] == entries[order[y] as int]);
        } else if j == at {
            assert(longer[i] == order[x]);
            assert(listed_before(more, season, order[x] as int, k));
        } else {
            assert(longer[i] == order[x] && longer[j] == order[y]);
            assert(listed_before(seen, season, order[x] as int, order[y] as int));
            assert(more[order[x] as int] == seen[order[x] as int]);
            assert(more[order[y] as int] == seen[order[y] as int]);
        }
    }
}

/// The files that a list of episodes stands for.
pub open spec fn episode_paths(episodes: Seq<EpisodeFile<usize>>) -> Seq<usize> {
    episodes.map_values(|e: EpisodeFile<usize>| e.path)
}

/// The number of the episode at a place: the one in its file's name, or else
/// its place, counted from one.
pub open spec fn number_at(entry: MediaEntry, season: u32, place: int) -> int {
    match entry.number(season) {
        Some(n) => n as int,
        None => place + 1,
    }
}

/// Finds the episodes of a season among the files of a directory. The path of
/// an episode is the index of its file.
///
/// The number is taken from the file's name, so that ids and numbers line up
/// with reality even where the directory has gaps or is listed out of order.
pub fn discover_episodes(entries: &[MediaEntry], series_id: &str, season: u32) -> (episodes: Vec<
    EpisodeFile<usize>,
>)
    requires
        entries@.len() <= u32::MAX,
    ensures
        is_season_order(entries@, season, episode_paths(episodes@)),
        forall|i: int|
            #![trigger episodes@[i]]
            0 <= i < episodes@.len() ==> {
                let number = number_at(entries@[episodes@[i].path as int], season, i);
                &&& episodes@[i].episode_number == number
                &&& episodes@[i].id@ == storage::episode_id_text(
                    series_id@,
                    season as nat,
                    number as nat,
                )
            },
{
    let mut numbers: Vec<Option<u32>> = Vec::new();
    let mut k: usize = 0;
    while k < entries.len()
        invariant
            k <= entries@.len(),
            numbers@.len() == k,
            forall|j: int| 0 <= j < k ==> (#[trigger] numbers@[j]) == entries@[j].number(season),
        decreases entries@.len() - k,
    {
        numbers.push(file_number(&entries[k], season));
        k = k + 1;
    }
    let order: Vec<usize> = season_order(entries, &numbers, Ghost(season));
    proof {
        lemma_order_is_no_longer(entries@, season, order@);
    }
    let mut episodes: Vec<EpisodeFile<usize>> = Vec::new();
    let mut i: usize = 0;
    while i < order.len()
        invariant
            i <= order@.len() <= entries@.len() <= u32::MAX,
            numbers@.len() == entries@.len(),
            is_season_order(entries@, season, order@),
            forall|j: int|
                0 <= j < entries@.len() ==> (#[trigger] numbers@[j]) == entries@[j].number(season),
            episodes@.len() == i,
            episode_paths(episodes@) == order@.take(i as int),
            forall|j: int|
                #![trigger episodes@[j]]
                0 <= j < i ==> {
                    let number = number_at(entries@[episodes@[j].path as int], season, j);
                    &&& episodes@[j].episode_number == number
                    &&& episodes@[j].id@ == storage::episode_id_text(
                        series_id@,
                        season as nat,
                        number as nat,
                    )
                },
        decreases order@.len() - i,
    {
        let path: usize = order[i];
        let number: u32 = match numbers[path] {
            Some(n) => n,
            None => (i + 1) as u32,
        };
        let ghost before = episodes@;
        episodes.push(
            EpisodeFile {
                id: storage::episode_id(series_id, season, number),
                path,
                episode_number: number,
            },
        );
        proof {
            assert(episode_paths(episodes@) =~= episode_paths(before).push(path));
            assert(order@.take(i + 1) =~= order@.take(i as int).push(path));
        }
        i = i + 1;
    }
    assert(order@.take(i as int) =~= order@);
    episodes
}

/// There are no more episodes than files.
proof fn lemma_order_is_no_longer(entries: Seq<MediaEntry>, season: u32, order: Seq<usize>)
    requires
        is_season_order(entries, season, order),
    ensures
        order.len() <= entries.len(),
{
    let paths = order.map_values(|k: usize| k as int);
    assert forall|i: int, j: int| 0 <= i < j < paths.len() implies paths[i] != paths[j] by {
        assert(order[i] != order[j]);
    }
    assert(paths.no_duplicates());
    paths.unique_seq_to_set();
    let all = vstd::set_lib::set_int_range(0, entries.len() as int);
    vstd::set_lib::lemma_int_range(0, entries.len() as int);
    assert(paths.to_set().subset_of(all)) by {
        assert forall|k: int| paths.to_set().contains(k) implies all.contains(k) by {
            let i = choose|i: int| 0 <= i < paths.len() && paths[i] == k;
            assert(order[i] < entries.len());
        }
    }
    vstd::set_lib::lemma_len_subset(paths.to_set(), all);
}

/// A listing has one order: two lists of its media files in order are the same.
pub proof fn law_season_order_is_determined(
    entries: Seq<MediaEntry>,
    season: u32,
    one: Seq<usize>,
    other: Seq<usize>,
)
    requires
        is_season_order(entries, season, one),
        is_season_order(entries, season, other),
    ensures
        one == other,
{
    if one.len() <= other.len() {
        lemma_orders_agree(entries, season, one, other, one.len() as int);
        lemma_no_file_is_left(entries, season, one, other);
    } else {
        lemma_orders_agree(entries, season, other, one, other.len() as int);
        lemma_no_file_is_left(entries, season, other, one);
    }
    assert(one =~= other);
}

/// Two orders of a listing agree on their first files.
proof fn lemma_orders_agree(
    entries: Seq<MediaEntry>,
    season: u32,
    one: Seq<usize>,
    other: Seq<usize>,
    n: int,
)
    requires
        is_season_order(entries, season, one),
        is_season_order(entries, season, other),
        0 <= n <= one.len() <= other.len(),
    ensures
        forall|i: int| 0 <= i < n ==> #[trigger] one[i] == other[i],
    decreases n,
{
    if n > 0 {
        let i = n - 1;
        lemma_orders_agree(entries, season, one, other, i);
        let (a, b) = (one[i], other[i]);
        if a != b {
            assert(entries[a as int].is_media() && entries[b as int].is_media());
            assert(other.contains(a) && one.contains(b));
            let p = choose|p: int| 0 <= p < other.len() && other[p] == a;
            let q = choose|q: int| 0 <= q < one.len() && one[q] == b;
            if p < i {
                assert(one[p] == other[p]);
                assert(one[p] != one[i]);
            }
            if q < i {
                assert(one[q] == other[q]);
                assert(other[q] != other[i]);
            }
            assert(listed_before(entries, season, other[i] as int, other[p] as int));
            assert(listed_before(entries, season, one[i] as int, one[q] as int));
            lemma_file_order(entries[a as int], entries[b as int], entries[a as int], season);
        }
    }
}

/// An order of a listing that is the beginning of another is all of it.
proof fn lemma_no_file_is_left(
    entries: Seq<MediaEntry>,
    season: u32,
    shorter: Seq<usize>,
    longer: Seq<usize>,
)
    requires
        is_season_order(entries, season, shorter),
        is_season_order(entries, season, longer),
        shorter.len() <= longer.len(),
        forall|i: int| 0 <= i < shorter.len() ==> #[trigger] shorter[i] == longer[i],
    ensures
        shorter.len() == longer.len(),
{
    let n = shorter.len() as int;
    if n < longer.len() {
        let k = longer[n];
        assert(entries[k as int].is_media());
        assert(shorter.contains(k));
        let i = choose|i: int| 0 <= i < shorter.len() && shorter[i] == k;
        assert(longer[i] != longer[n]);
    }
}

/// Byte string `a` does not come after `b`: after what they have in common, `a`
/// ends or goes on with a smaller byte.
pub open spec fn comes_no_later(a: Seq<u8>, b: Seq<u8>) -> bool {
    exists|n: int|
        0 <= n <= a.len() && n <= b.len() && #[trigger] a.take(n) == b.take(n) && (n == a.len()
            || (n < b.len() && a[n] < b[n]))
}

/// A byte string that another does not precede comes no later than it.
proof fn lemma_comes_no_later(a: Seq<u8>, b: Seq<u8>)
    requires
        !bytes_before(b, a),
    ensures
        comes_no_later(a, b),
    decreases a.len(),
{
    if a.len() == 0 || b.len() == 0 || a[0] != b[0] {
        assert(a.take(0) =~= b.take(0));
    } else {
        let (x, y) = (a.skip(1), b.skip(1));
        lemma_comes_no_later(x, y);
        let n = choose|n: int|
            0 <= n <= x.len() && n <= y.len() && #[trigger] x.take(n) == y.take(n) && (n == x.len()
                || (n < y.len() && x[n] < y[n]));
        assert(a.take(n + 1) =~= b.take(n + 1)) by {
            assert forall|i: int| 0 <= i < n + 1 implies a[i] == b[i] by {
                if i > 0 {
                    assert(x.take(n)[i - 1] == a[i]);
                    assert(y.take(n)[i - 1] == b[i]);
                }
            }
        }
        if n < x.len() && n < y.len() {
            assert(x[n] == a[n + 1] && y[n] == b[n + 1]);
        }
    }
}

/// Episodes come in the order of the numbers in their names. Files without a
/// number come after all that have one, in the order of their names. Files that
/// this does not tell apart keep the order in which they were listed.
pub proof fn law_episodes_come_in_order(
    entries: Seq<MediaEntry>,
    season: u32,
    order: Seq<usize>,
    i: int,
    j: int,
)
    requires
        is_season_order(entries, season, order),
        0 <= i < j < order.len(),
    ensures
        ({
            let (a, b) = (entries[order[i] as int], entries[order[j] as int]);
            let x = match a.stem {
                Some(stem) => number::episode_number(stem@, 0, season),
                None => None,
            };
            let y = match b.stem {
                Some(stem) => number::episode_number(stem@, 0, season),
                None => None,
            };
            match (x, y) {
                (Some(m), Some(n)) => m < n || (m == n && order[i] < order[j]),
                (Some(_), None) => true,
                (None, Some(_)) => false,
                (None, None) => comes_no_later(a.name@, b.name@) && (a.name@ == b.name@
                    ==> order[i] < order[j]),
            }
        }),
{
    let (a, b) = (entries[order[i] as int], entries[order[j] as int]);
    assert(listed_before(entries, season, order[i] as int, order[j] as int));
    lemma_bytes_order(a.name@, b.name@, a.name@);
    if !bytes_before(b.name@, a.name@) {
        lemma_comes_no_later(a.name@, b.name@);
    }
    if a.name@ == b.name@ {
        lemma_bytes_order(a.name@, a.name@, a.name@);
    }
}

/// Every media file is an episode, once, and no other file is.
pub proof fn law_every_media_file_is_an_episode(
    entries: Seq<MediaEntry>,
    season: u32,
    order: Seq<usize>,
    k: usize,
)
    requires
        is_season_order(entries, season, order),
        k < entries.len(),
    ensures
        order.no_duplicates(),
        order.contains(k) <==> (entries[k as int].extension matches Some(extension) && {
            ||| extension@ == "mkv"@
            ||| extension@ == "mp4"@
            ||| extension@ == "avi"@
            ||| extension@ == "m4v"@
            ||| extension@ == "ts"@
            ||| extension@ == "flac"@
            ||| extension@ == "mp3"@
            ||| extension@ == "ogg"@
            ||| extension@ == "wav"@
        }),
{
    assert forall|i: int, j: int| 0 <= i < order.len() && 0 <= j < order.len() && i
        != j implies order[i] != order[j] by {
        if i < j {
            assert(order[i] != order[j]);
        } else {
            assert(order[j] != order[i]);
        }
    }
    if order.contains(k) {
        let i = choose|i: int| 0 <= i < order.len() && order[i] == k;
        assert(entries[order[i] as int].is_media());
    }
    if entries[k as int].is_media() {
        assert(order.contains(k));
    }
}

/// An episode has the number in its file's name; where there is none, it has its
/// place among the episodes, counted from one.
pub proof fn law_number_is_that_of_the_name(entry: MediaEntry, season: u32, place: int)
    ensures
        match entry.stem {
            Some(stem) => match number::episode_number(stem@, 0, season) {
                Some(n) => number_at(entry, season, place) == n,
                None => number_at(entry, season, place) == place + 1,
            },
            None => number_at(entry, season, place) == place + 1,
        },
{
}

} // verus!
