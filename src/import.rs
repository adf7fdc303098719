//! Reconciling scanned records with a catalogue release: grouping records into album
//! candidates, choosing the release that fits a candidate best, and aligning its tracks with
//! the records.
use vstd::multiset::Multiset;
use vstd::prelude::*;
use vstd::relations::injective_on;
use vstd::set_lib::{lemma_int_range, lemma_len_subset, lemma_map_size, set_int_range};

use crate::musicbrainz::{all_tracks, credit_text, year_of, Release, Track};
use crate::text::{
    chars_lt, chars_of, compare_chars, lemma_chars_lt_irreflexive, lemma_chars_lt_total,
    lemma_chars_lt_transitive, lower_of, lowercase,
};
use crate::{effective_artist, Album, Item};

use pathfinding::matrix::Matrix;

verus! {

broadcast use vstd::seq_lib::group_to_multiset_ensures;

/// Records believed to form one album: those that share a grouping key, the case-folded album
/// artist and album title.
#[derive(Debug)]
pub struct AlbumCandidate {
    pub items: Vec<Item>,
    /// The album artist as the first record writes it.
    pub artist: String,
    /// The album title as the first record writes it.
    pub album: String,
    /// The case-folded album artist.
    pub key_artist: String,
    /// The case-folded album title.
    pub key_album: String,
}

/// The grouping key of a record: its album artist and album title, case-folded.
pub open spec fn album_key(i: Item) -> (Seq<char>, Seq<char>) {
    (lower_of(effective_artist(i)), lower_of(i.album@))
}

pub open spec fn candidate_key(c: AlbumCandidate) -> (Seq<char>, Seq<char>) {
    (c.key_artist@, c.key_album@)
}

/// A candidate holds at least one record, every record has the candidate's key, and the
/// display names are those of the first record.
pub open spec fn well_formed(c: AlbumCandidate) -> bool {
    &&& c.items@.len() > 0
    &&& forall|k: int| 0 <= k < c.items@.len() ==> album_key(#[trigger] c.items@[k]) == candidate_key(c)
    &&& c.artist@ == effective_artist(c.items@[0])
    &&& c.album@ == c.items@[0].album@
}

/// All records of the candidates, counted with repetition.
pub open spec fn records_of(gs: Seq<AlbumCandidate>) -> Multiset<Item>
    decreases gs.len(),
{
    if gs.len() == 0 {
        Multiset::empty()
    } else {
        records_of(gs.drop_last()).add(gs.last().items@.to_multiset())
    }
}

/// No two candidates share a key.
pub open spec fn distinct_keys(gs: Seq<AlbumCandidate>) -> bool {
    forall|a: int, b: int|
        0 <= a < gs.len() && 0 <= b < gs.len() && a != b ==> candidate_key(#[trigger] gs[a])
            != candidate_key(#[trigger] gs[b])
}

/// `a` comes before `b`: by album artist, then by album title, in lexicographic order.
pub open spec fn key_lt(a: (Seq<char>, Seq<char>), b: (Seq<char>, Seq<char>)) -> bool {
    chars_lt(a.0, b.0) || (a.0 == b.0 && chars_lt(a.1, b.1))
}

/// The candidates come in strictly increasing order of their keys.
pub open spec fn sorted_by_key(gs: Seq<AlbumCandidate>) -> bool {
    forall|a: int, b: int|
        0 <= a < b < gs.len() ==> key_lt(candidate_key(#[trigger] gs[a]), candidate_key(#[trigger] gs[b]))
}

/// The candidates partition the records: each is well formed, they come sorted by key, no two
/// share a key, and together they hold each record exactly as often as `records` does.
pub open spec fn is_grouping(gs: Seq<AlbumCandidate>, records: Seq<Item>) -> bool {
    &&& forall|g: int| 0 <= g < gs.len() ==> well_formed(#[trigger] gs[g])
    &&& sorted_by_key(gs)
    &&& distinct_keys(gs)
    &&& records_of(gs) == records.to_multiset()
}

proof fn lemma_key_order(a: (Seq<char>, Seq<char>), b: (Seq<char>, Seq<char>))
    ensures
        !key_lt(a, a),
        a == b || key_lt(a, b) || key_lt(b, a),
        !(key_lt(a, b) && key_lt(b, a)),
{
    lemma_chars_lt_irreflexive(a.0);
    lemma_chars_lt_irreflexive(a.1);
    lemma_chars_lt_total(a.0, b.0);
    lemma_chars_lt_total(a.1, b.1);
    lemma_chars_lt_irreflexive(b.0);
}

proof fn lemma_key_transitive(a: (Seq<char>, Seq<char>), b: (Seq<char>, Seq<char>), c: (Seq<char>, Seq<char>))
    requires
        key_lt(a, b),
        key_lt(b, c),
    ensures
        key_lt(a, c),
{
    if chars_lt(a.0, b.0) && chars_lt(b.0, c.0) {
        lemma_chars_lt_transitive(a.0, b.0, c.0);
    } else if chars_lt(a.1, b.1) && chars_lt(b.1, c.1) {
        lemma_chars_lt_transitive(a.1, b.1, c.1);
    }
}

proof fn lemma_sorted_distinct(gs: Seq<AlbumCandidate>)
    requires
        sorted_by_key(gs),
    ensures
        distinct_keys(gs),
{
    assert forall|a: int, b: int|
        0 <= a < gs.len() && 0 <= b < gs.len() && a != b implies candidate_key(#[trigger] gs[a])
        != candidate_key(#[trigger] gs[b]) by {
        lemma_key_order(candidate_key(gs[a]), candidate_key(gs[b]));
    }
}

proof fn lemma_records_of_insert(gs: Seq<AlbumCandidate>, j: int, c: AlbumCandidate)
    requires
        0 <= j <= gs.len(),
    ensures
        records_of(gs.insert(j, c)) == records_of(gs).add(c.items@.to_multiset()),
    decreases gs.len(),
{
    let u = gs.insert(j, c);
    if j == gs.len() {
        assert(u.drop_last() =~= gs);
    } else {
        assert(u.drop_last() =~= gs.drop_last().insert(j, c));
        lemma_records_of_insert(gs.drop_last(), j, c);
        assert(records_of(u) =~= records_of(gs).add(c.items@.to_multiset()));
    }
}

/// Compares a candidate's key with `(ka, kb)`.
fn compare_key(c: &AlbumCandidate, ka: &[char], kb: &[char]) -> (r: i8)
    ensures
        r < 0 <==> key_lt(candidate_key(*c), (ka@, kb@)),
        r == 0 <==> candidate_key(*c) == (ka@, kb@),
        r > 0 <==> key_lt((ka@, kb@), candidate_key(*c)),
{
    let a = chars_of(c.key_artist.as_str());
    let x = compare_chars(a.as_slice(), ka);
    proof {
        lemma_key_order(candidate_key(*c), (ka@, kb@));
    }
    if x != 0 {
        return x;
    }
    let b = chars_of(c.key_album.as_str());
    compare_chars(b.as_slice(), kb)
}

/// Where the key `(ka, kb)` belongs among sorted candidates: the position of the candidate
/// with that key, or the one before which a candidate with it goes.
fn find_slot(groups: &Vec<AlbumCandidate>, ka: &[char], kb: &[char]) -> (r: (usize, bool))
    ensures
        r.0 <= groups@.len(),
        forall|g: int| 0 <= g < r.0 ==> key_lt(candidate_key(#[trigger] groups@[g]), (ka@, kb@)),
        r.1 ==> r.0 < groups@.len() && candidate_key(groups@[r.0 as int]) == (ka@, kb@),
        !r.1 ==> r.0 == groups@.len() || key_lt((ka@, kb@), candidate_key(groups@[r.0 as int])),
{
    let mut j: usize = 0;
    while j < groups.len()
        invariant
            j <= groups@.len(),
            forall|g: int| 0 <= g < j ==> key_lt(candidate_key(#[trigger] groups@[g]), (ka@, kb@)),
        decreases groups@.len() - j,
    {
        let c = compare_key(&groups[j], ka, kb);
        if c == 0 {
            return (j, true);
        }
        if c > 0 {
            return (j, false);
        }
        j = j + 1;
    }
    (j, false)
}

proof fn lemma_records_of_update(gs: Seq<AlbumCandidate>, j: int, c: AlbumCandidate, x: Item)
    requires
        0 <= j < gs.len(),
        c.items@ == gs[j].items@.push(x),
    ensures
        records_of(gs.update(j, c)) == records_of(gs).insert(x),
    decreases gs.len(),
{
    let u = gs.update(j, c);
    if j == gs.len() - 1 {
        assert(u.drop_last() =~= gs.drop_last());
        assert(records_of(u) =~= records_of(gs).insert(x));
    } else {
        assert(u.drop_last() =~= gs.drop_last().update(j, c));
        lemma_records_of_update(gs.drop_last(), j, c, x);
        assert(records_of(u) =~= records_of(gs).insert(x));
    }
}

/// Splits records into album candidates by their grouping key. Candidates come sorted by
/// key, and records keep their order within a candidate.
pub fn group_into_albums(items: Vec<Item>) -> (r: Vec<AlbumCandidate>)
    ensures
        is_grouping(r@, items@),
{
    let ghost all = items@;
    let mut groups: Vec<AlbumCandidate> = Vec::new();
    for item in it: items
        invariant
            it.seq() == all,
            forall|g: int| 0 <= g < groups@.len() ==> well_formed(#[trigger] groups@[g]),
            sorted_by_key(groups@),
            records_of(groups@) == all.take(it.index() as int).to_multiset(),
    {
        let ghost i = it.index();
        assert(all.take(i + 1) =~= all.take(i).push(item));
        let ka = lowercase(item.effective_albumartist());
        let kb = lowercase(item.album.as_str());
        let ka_chars = chars_of(ka.as_str());
        let kb_chars = chars_of(kb.as_str());
        let (j, found) = find_slot(&groups, ka_chars.as_slice(), kb_chars.as_slice());
        if found {
            let ghost before = groups@;
            let mut g = groups.remove(j);
            let ghost old_items = g.items@;
            g.items.push(item);
            groups.insert(j, g);
            proof {
                assert(groups@ =~= before.update(j as int, g));
                lemma_records_of_update(before, j as int, g, item);
                assert(g.items@[0] == old_items[0]);
                assert forall|k: int| 0 <= k < g.items@.len() implies album_key(#[trigger] g.items@[k])
                    == candidate_key(g) by {
                    if k < old_items.len() {
                        assert(g.items@[k] == old_items[k]);
                    }
                }
                assert(well_formed(g));
                assert forall|a: int, b: int| 0 <= a < b < groups@.len() implies key_lt(
                    candidate_key(#[trigger] groups@[a]),
                    candidate_key(#[trigger] groups@[b]),
                ) by {
                    assert(candidate_key(groups@[a]) == candidate_key(before[a]));
                    assert(candidate_key(groups@[b]) == candidate_key(before[b]));
                }
            }
        } else {
            let artist = item.effective_albumartist().to_owned();
            let album = item.album.clone();
            let ghost before = groups@;
            let mut v: Vec<Item> = Vec::new();
            v.push(item);
            let c = AlbumCandidate { items: v, artist, album, key_artist: ka, key_album: kb };
            groups.insert(j, c);
            proof {
                assert(groups@ =~= before.insert(j as int, c));
                lemma_records_of_insert(before, j as int, c);
                assert(v@ =~= seq![item]);
                assert(seq![item].to_multiset() =~= Multiset::<Item>::empty().insert(item)) by {
                    assert(seq![item] =~= Seq::<Item>::empty().push(item));
                }
                assert(records_of(groups@) =~= records_of(before).insert(item));
                let k = candidate_key(c);
                assert forall|a: int, b: int| 0 <= a < b < groups@.len() implies key_lt(
                    candidate_key(#[trigger] groups@[a]),
                    candidate_key(#[trigger] groups@[b]),
                ) by {
                    if b < j {
                        assert(groups@[a] == before[a] && groups@[b] == before[b]);
                    } else if b == j {
                        assert(groups@[a] == before[a]);
                    } else if a == j {
                        assert(groups@[b] == before[b - 1]);
                        if b - 1 > j {
                            lemma_key_transitive(k, candidate_key(before[j as int]), candidate_key(before[b - 1]));
                        }
                    } else if a < j {
                        assert(groups@[a] == before[a] && groups@[b] == before[b - 1]);
                    } else {
                        assert(groups@[a] == before[a - 1] && groups@[b] == before[b - 1]);
                    }
                }
                assert forall|g: int| 0 <= g < groups@.len() implies well_formed(#[trigger] groups@[g]) by {
                    if g < j {
                        assert(groups@[g] == before[g]);
                    } else if g > j {
                        assert(groups@[g] == before[g - 1]);
                    }
                }
            }
        }
    }
    assert(all.take(all.len() as int) =~= all);
    proof {
        lemma_sorted_distinct(groups@);
    }
    groups
}

/// Grouping partitions the records: no record sits in two candidates, the candidates together
/// hold every record as often as the input does, and every record sits under its own
/// normalized key.
pub proof fn lemma_grouping_partitions(records: Seq<Item>, gs: Seq<AlbumCandidate>)
    requires
        is_grouping(gs, records),
    ensures
        forall|a: int, b: int, x: Item|
            0 <= a < gs.len() && 0 <= b < gs.len() && a != b ==> !(#[trigger] gs[a].items@.contains(x)
                && #[trigger] gs[b].items@.contains(x)),
        records_of(gs) == records.to_multiset(),
        forall|g: int, k: int|
            0 <= g < gs.len() && 0 <= k < gs[g].items@.len() ==> album_key(#[trigger] gs[g].items@[k])
                == candidate_key(gs[g]),
{
    assert forall|a: int, b: int, x: Item|
        0 <= a < gs.len() && 0 <= b < gs.len() && a != b implies !(#[trigger] gs[a].items@.contains(x)
        && #[trigger] gs[b].items@.contains(x)) by {
        if gs[a].items@.contains(x) && gs[b].items@.contains(x) {
            let ka = choose|k: int| 0 <= k < gs[a].items@.len() && gs[a].items@[k] == x;
            let kb = choose|k: int| 0 <= k < gs[b].items@.len() && gs[b].items@[k] == x;
            assert(well_formed(gs[a]));
            assert(well_formed(gs[b]));
            assert(album_key(gs[a].items@[ka]) == candidate_key(gs[a]));
            assert(album_key(gs[b].items@[kb]) == candidate_key(gs[b]));
        }
    }
    assert forall|g: int, k: int|
        0 <= g < gs.len() && 0 <= k < gs[g].items@.len() implies album_key(#[trigger] gs[g].items@[k])
        == candidate_key(gs[g]) by {
        assert(well_formed(gs[g]));
    }
}

/// Similarities are given in ten-thousandths: 10000 stands for identical strings.
pub const SIMILARITY_SCALE: u32 = 10000;

/// The bonus, in ten-thousandths, for a release with as many tracks as the candidate.
pub const TRACK_COUNT_BONUS: u32 = 2000;

/// A release's score: the artist and album similarities and the track-count bonus, in
/// hundredths, rounded down.
pub open spec fn score_of(artist_similarity: int, album_similarity: int, same_count: bool) -> int {
    (artist_similarity + album_similarity + if same_count {
        TRACK_COUNT_BONUS as int
    } else {
        0
    }) / 100
}

/// A release's score: the artist and album similarities and the track-count bonus, in
/// hundredths, rounded down.
pub fn release_score(artist_similarity: u32, album_similarity: u32, same_count: bool) -> (r: u32)
    requires
        artist_similarity <= SIMILARITY_SCALE,
        album_similarity <= SIMILARITY_SCALE,
    ensures
        r == score_of(artist_similarity as int, album_similarity as int, same_count),
{
    let bonus = if same_count {
        TRACK_COUNT_BONUS
    } else {
        0
    };
    (artist_similarity + album_similarity + bonus) / 100
}

/// The similarities of a candidate to each release are in range.
pub open spec fn valid_similarities(sims: Seq<(u32, u32)>) -> bool {
    forall|i: int| 0 <= i < sims.len() ==> (#[trigger] sims[i]).0 <= SIMILARITY_SCALE && sims[i].1
        <= SIMILARITY_SCALE
}

/// The score of release `i`, given the similarities of the candidate to each release.
pub open spec fn score_at(
    c: AlbumCandidate,
    releases: Seq<Release>,
    sims: Seq<(u32, u32)>,
    i: int,
) -> int {
    score_of(
        sims[i].0 as int,
        sims[i].1 as int,
        all_tracks(releases[i].media@).len() == c.items@.len(),
    )
}

/// Release `b` has the highest score, and every release before it scores lower.
pub open spec fn is_best_match(
    c: AlbumCandidate,
    releases: Seq<Release>,
    sims: Seq<(u32, u32)>,
    b: int,
) -> bool {
    &&& 0 <= b < releases.len()
    &&& forall|j: int| 0 <= j < releases.len() ==> score_at(c, releases, sims, j) <= score_at(c, releases, sims, b)
    &&& forall|j: int| 0 <= j < b ==> score_at(c, releases, sims, j) < score_at(c, releases, sims, b)
}

/// The release that fits the candidate best: the highest score, and the first one among
/// equal scores. `sims[i]` holds the similarity of the candidate's artist to release `i`'s
/// artist credit and of its album to the release's title; none where there is no release.
pub fn pick_best_match(c: &AlbumCandidate, releases: &[Release], sims: &[(u32, u32)]) -> (r:
    Option<usize>)
    requires
        sims@.len() == releases@.len(),
        valid_similarities(sims@),
    ensures
        r is None <==> releases@.len() == 0,
        r matches Some(b) ==> is_best_match(*c, releases@, sims@, b as int),
{
    if releases.len() == 0 {
        return None;
    }
    let mut best: usize = 0;
    let mut best_score: u32 = 0;
    let mut i: usize = 0;
    while i < releases.len()
        invariant
            sims@.len() == releases@.len(),
            valid_similarities(sims@),
            0 <= i <= releases@.len(),
            releases@.len() > 0,
            i == 0 ==> best == 0,
            i > 0 ==> best < i && best_score == score_at(*c, releases@, sims@, best as int),
            i > 0 ==> forall|j: int| 0 <= j < i ==> score_at(*c, releases@, sims@, j) <= best_score,
            i > 0 ==> forall|j: int| 0 <= j < best ==> score_at(*c, releases@, sims@, j) < best_score,
        decreases releases@.len() - i,
    {
        let (a, b) = sims[i];
        let tracks = releases[i].tracks();
        let score = release_score(a, b, tracks.len() == c.items.len());
        assert(score == score_at(*c, releases@, sims@, i as int));
        if i == 0 || score > best_score {
            best = i;
            best_score = score;
        }
        i = i + 1;
    }
    Some(best)
}

/// The choice of a best match is determined by its inputs: two choices that both meet the
/// contract of `pick_best_match` for the same inputs, ties included, are the same release.
pub proof fn lemma_best_match_deterministic(
    c: AlbumCandidate,
    releases: Seq<Release>,
    sims: Seq<(u32, u32)>,
    b1: int,
    b2: int,
)
    requires
        is_best_match(c, releases, sims, b1),
        is_best_match(c, releases, sims, b2),
    ensures
        b1 == b2,
{
    if b1 < b2 {
        assert(score_at(c, releases, sims, b1) < score_at(c, releases, sims, b2));
        assert(score_at(c, releases, sims, b2) <= score_at(c, releases, sims, b1));
    } else if b2 < b1 {
        assert(score_at(c, releases, sims, b2) < score_at(c, releases, sims, b1));
        assert(score_at(c, releases, sims, b1) <= score_at(c, releases, sims, b2));
    }
}

#[verifier::external_type_specification]
#[verifier::external_body]
#[verifier::reject_recursive_types(C)]
pub struct ExMatrix<C>(Matrix<C>);

/// The cells of a pathfinding matrix, row by row.
pub uninterp spec fn matrix_rows(m: Matrix<i64>) -> Seq<Seq<i64>>;

/// `a` assigns each of `k` rows a distinct column below `k`.
pub open spec fn is_assignment(k: nat, a: Seq<usize>) -> bool {
    &&& a.len() == k
    &&& forall|i: int| 0 <= i < k ==> (#[trigger] a[i]) < k
    &&& forall|i: int, j: int| 0 <= i < k && 0 <= j < k && i != j ==> a[i] != a[j]
}

/// The sum of the cells that `a` picks, one in each row.
pub open spec fn cells_cost(rows: Seq<Seq<i64>>, a: Seq<usize>) -> int
    decreases a.len(),
{
    if a.len() == 0 {
        0
    } else {
        cells_cost(rows, a.drop_last()) + rows[a.len() - 1][a.last() as int]
    }
}

/// A cost matrix that the assignment solver takes: square, of side `k`, with cells between 0
/// and 10000.
pub open spec fn solvable(rows: Seq<Seq<i64>>) -> bool {
    &&& forall|i: int| 0 <= i < rows.len() ==> (#[trigger] rows[i]).len() == rows.len()
    &&& forall|i: int, j: int|
        0 <= i < rows.len() && 0 <= j < rows.len() ==> 0 <= #[trigger] rows[i][j] <= 10000
}

/// Relies on pathfinding's `Matrix::from_rows`: a matrix with the given rows, or an error
/// where the rows differ in length or the first is empty.
#[verifier::external_body]
fn matrix_from_rows(rows: Vec<Vec<i64>>) -> (r: Option<Matrix<i64>>)
    ensures
        r is Some <==> (rows@.len() == 0 || (rows@[0]@.len() > 0 && forall|i: int|
            0 <= i < rows@.len() ==> (#[trigger] rows@[i])@.len() == rows@[0]@.len())),
        r matches Some(m) ==> matrix_rows(m) == rows@.map_values(|row: Vec<i64>| row@),
{
    Matrix::from_rows(rows).ok()
}

/// Relies on pathfinding's `kuhn_munkres_min`: it gives each row a distinct column so that the
/// sum of the chosen cells is the least possible, and returns each row's column. It panics
/// where rows outnumber columns or the sum overflows, which square matrices of bounded cells
/// rule out.
#[verifier::external_body]
fn min_cost_assignment(m: &Matrix<i64>) -> (r: Vec<usize>)
    requires
        solvable(matrix_rows(*m)),
    ensures
        is_assignment(matrix_rows(*m).len(), r@),
        forall|p: Seq<usize>|
            is_assignment(matrix_rows(*m).len(), p) ==> cells_cost(matrix_rows(*m), r@) <= cells_cost(
                matrix_rows(*m),
                p,
            ),
{
    pathfinding::kuhn_munkres::kuhn_munkres_min(m).1
}

/// How well two durations agree, in ten-thousandths: within 3 s 10000, within 10 s 7000, else
/// 3000; 5000 where the track's length is unknown.
pub open spec fn length_score(item_ms: int, track_ms: Option<u64>) -> int {
    match track_ms {
        None => 5000,
        Some(t) => {
            let d = if item_ms >= t {
                item_ms - t
            } else {
                t - item_ms
            };
            if d < 3000 {
                10000
            } else if d < 10000 {
                7000
            } else {
                3000
            }
        },
    }
}

/// The cost of pairing record `i` with track `j`: 10000 less half the sum of the title
/// similarity and the length score, rounded to nearest with halves up; 0 for a padding row or
/// column.
pub open spec fn cost_at(
    items: Seq<Item>,
    tracks: Seq<Track>,
    sims: Seq<Vec<u32>>,
    i: int,
    j: int,
) -> int {
    if 0 <= i < items.len() && 0 <= j < tracks.len() {
        10000 - (sims[i]@[j] + length_score(items[i].length_ms as int, tracks[j].length)) / 2
    } else {
        0
    }
}

/// The total cost of an assignment of records to tracks.
pub open spec fn total_cost(
    items: Seq<Item>,
    tracks: Seq<Track>,
    sims: Seq<Vec<u32>>,
    a: Seq<usize>,
) -> int
    decreases a.len(),
{
    if a.len() == 0 {
        0
    } else {
        total_cost(items, tracks, sims, a.drop_last()) + cost_at(
            items,
            tracks,
            sims,
            a.len() - 1,
            a.last() as int,
        )
    }
}

/// The title similarities have one row for each record and one column for each track, each
/// at most 10000.
pub open spec fn valid_title_similarities(sims: Seq<Vec<u32>>, m: int, n: int) -> bool {
    &&& sims.len() == m
    &&& forall|i: int| 0 <= i < m ==> (#[trigger] sims[i])@.len() == n
    &&& forall|i: int, j: int| 0 <= i < m && 0 <= j < n ==> #[trigger] sims[i]@[j] <= SIMILARITY_SCALE
}

/// `a` is an assignment of the `k` rows of the padded problem with the least total cost.
pub open spec fn is_optimal_alignment(
    items: Seq<Item>,
    tracks: Seq<Track>,
    sims: Seq<Vec<u32>>,
    k: nat,
    a: Seq<usize>,
) -> bool {
    &&& is_assignment(k, a)
    &&& forall|p: Seq<usize>|
        is_assignment(k, p) ==> total_cost(items, tracks, sims, a) <= total_cost(items, tracks, sims, p)
}

/// Record `it` after alignment with track `j`: a real track gives it its title and recording
/// identifier; a padding column leaves it as it is.
pub open spec fn aligned_item(it: Item, tracks: Seq<Track>, j: int) -> Item {
    if 0 <= j < tracks.len() {
        Item { title: tracks[j].title, mb_trackid: Some(tracks[j].recording.id), ..it }
    } else {
        it
    }
}

/// `r` is `items` with each record aligned with the track that `a` assigns it.
pub open spec fn is_aligned(items: Seq<Item>, tracks: Seq<Track>, a: Seq<usize>, r: Seq<Item>) -> bool {
    &&& r.len() == items.len()
    &&& forall|i: int| 0 <= i < items.len() ==> #[trigger] r[i] == aligned_item(items[i], tracks, a[i] as int)
}

pub open spec fn max_nat(a: nat, b: nat) -> nat {
    if a >= b {
        a
    } else {
        b
    }
}

/// The cost of pairing a record with a track.
fn pair_cost(item: &Item, track: &Track, title_similarity: u32) -> (r: i64)
    requires
        title_similarity <= SIMILARITY_SCALE,
    ensures
        r == 10000 - (title_similarity + length_score(item.length_ms as int, track.length)) / 2,
        0 <= r <= 10000,
{
    let score: u32 = match track.length {
        None => 5000,
        Some(t) => {
            let d = if item.length_ms >= t {
                item.length_ms - t
            } else {
                t - item.length_ms
            };
            if d < 3000 {
                10000
            } else if d < 10000 {
                7000
            } else {
                3000
            }
        },
    };
    10000 - ((title_similarity + score) / 2) as i64
}

proof fn lemma_cells_cost(
    rows: Seq<Seq<i64>>,
    items: Seq<Item>,
    tracks: Seq<Track>,
    sims: Seq<Vec<u32>>,
    a: Seq<usize>,
)
    requires
        forall|i: int, j: int|
            0 <= i < rows.len() && 0 <= j < rows.len() ==> #[trigger] rows[i][j] == cost_at(
                items,
                tracks,
                sims,
                i,
                j,
            ),
        a.len() <= rows.len(),
        forall|i: int| 0 <= i < a.len() ==> (#[trigger] a[i]) < rows.len(),
    ensures
        cells_cost(rows, a) == total_cost(items, tracks, sims, a),
    decreases a.len(),
{
    if a.len() > 0 {
        lemma_cells_cost(rows, items, tracks, sims, a.drop_last());
        assert(rows[a.len() - 1][a.last() as int] == cost_at(items, tracks, sims, a.len() - 1, a.last() as int));
    }
}

/// Aligns the records with the tracks of the release: an assignment of least total cost
/// between records and tracks, padded to a square with cost 0, after which each record paired
/// with a real track takes its title and recording identifier. `sims[i][j]` is the similarity
/// of record `i`'s title to track `j`'s. Without tracks the records stay as they are.
pub fn match_tracks(items: Vec<Item>, release: &Release, sims: &[Vec<u32>]) -> (r: Vec<Item>)
    requires
        valid_title_similarities(
            sims@,
            items@.len() as int,
            all_tracks(release.media@).len() as int,
        ),
    ensures
        all_tracks(release.media@).len() == 0 ==> r@ == items@,
        all_tracks(release.media@).len() > 0 ==> exists|a: Seq<usize>|
            is_optimal_alignment(
                items@,
                all_tracks(release.media@),
                sims@,
                max_nat(items@.len(), all_tracks(release.media@).len()),
                a,
            ) && is_aligned(items@, all_tracks(release.media@), a, r@),
{
    let ghost ts = all_tracks(release.media@);
    let tracks = release.tracks();
    if tracks.len() == 0 {
        return items;
    }
    let m = items.len();
    let n = tracks.len();
    let k = if m >= n {
        m
    } else {
        n
    };
    let mut rows: Vec<Vec<i64>> = Vec::new();
    let mut i: usize = 0;
    while i < k
        invariant
            0 <= i <= k,
            k == max_nat(m as nat, n as nat),
            m == items@.len(),
            n == tracks@.len() == ts.len(),
            forall|t: int| 0 <= t < n ==> *tracks@[t] == ts[t],
            valid_title_similarities(sims@, m as int, n as int),
            rows@.len() == i,
            forall|r: int| 0 <= r < i ==> (#[trigger] rows@[r])@.len() == k,
            forall|r: int, c: int|
                0 <= r < i && 0 <= c < k ==> #[trigger] rows@[r]@[c] == cost_at(items@, ts, sims@, r, c),
        decreases k - i,
    {
        let mut row: Vec<i64> = Vec::new();
        let mut j: usize = 0;
        while j < k
            invariant
                0 <= i < k,
                0 <= j <= k,
                m == items@.len(),
                n == tracks@.len() == ts.len(),
                forall|t: int| 0 <= t < n ==> *tracks@[t] == ts[t],
                valid_title_similarities(sims@, m as int, n as int),
                row@.len() == j,
                forall|c: int| 0 <= c < j ==> #[trigger] row@[c] == cost_at(items@, ts, sims@, i as int, c),
            decreases k - j,
        {
            let cost = if i < m && j < n {
                pair_cost(&items[i], tracks[j], sims[i][j])
            } else {
                0
            };
            row.push(cost);
            j = j + 1;
        }
        rows.push(row);
        i = i + 1;
    }
    let ghost cells = rows@.map_values(|row: Vec<i64>| row@);
    let matrix = matrix_from_rows(rows);
    match matrix {
        None => items,
        Some(mx) => {
            proof {
                assert(matrix_rows(mx) == cells);
                assert forall|r: int, c: int| 0 <= r < cells.len() && 0 <= c < cells.len() implies #[trigger] cells[r][c]
                    == cost_at(items@, ts, sims@, r, c) by {
                    assert(cells[r] == rows@[r]@);
                }
                assert forall|r: int, c: int| 0 <= r < cells.len() && 0 <= c < cells.len() implies 0 <= #[trigger] cells[r][c] <= 10000 by {
                    assert(cells[r] == rows@[r]@);
                    if r < m && c < n {
                        assert(sims@[r]@[c] <= SIMILARITY_SCALE);
                    }
                }
                assert forall|r: int| 0 <= r < cells.len() implies (#[trigger] cells[r]).len() == cells.len() by {
                    assert(cells[r] == rows@[r]@);
                }
            }
            let a = min_cost_assignment(&mx);
            proof {
                lemma_cells_cost(cells, items@, ts, sims@, a@);
                assert forall|p: Seq<usize>| is_assignment(k as nat, p) implies total_cost(
                    items@,
                    ts,
                    sims@,
                    a@,
                ) <= total_cost(items@, ts, sims@, p) by {
                    lemma_cells_cost(cells, items@, ts, sims@, p);
                }
            }
            let mut out: Vec<Item> = Vec::new();
            let ghost all = items@;
            let mut idx: usize = 0;
            for item in it: items
                invariant
                    it.seq() == all,
                    idx == it.index(),
                    all.len() == m,
                    n == tracks@.len() == ts.len(),
                    forall|t: int| 0 <= t < n ==> *tracks@[t] == ts[t],
                    is_assignment(k as nat, a@),
                    m <= k,
                    out@.len() == idx,
                    forall|t: int| 0 <= t < idx ==> #[trigger] out@[t] == aligned_item(all[t], ts, a@[t] as int),
            {
                let mut x = item;
                let j = a[idx];
                if j < n {
                    x.title = tracks[j].title.clone();
                    x.mb_trackid = Some(tracks[j].recording.id.clone());
                }
                out.push(x);
                idx = idx + 1;
            }
            assert(is_aligned(items@, ts, a@, out@));
            out
        },
    }
}

/// An alignment is as cheap as any other: the assignment behind `match_tracks` costs no more
/// than any other assignment of the same size, permutations of equal-sized lists included.
pub proof fn lemma_alignment_optimal(
    items: Seq<Item>,
    tracks: Seq<Track>,
    sims: Seq<Vec<u32>>,
    k: nat,
    a: Seq<usize>,
    p: Seq<usize>,
)
    requires
        is_optimal_alignment(items, tracks, sims, k, a),
        is_assignment(k, p),
    ensures
        total_cost(items, tracks, sims, a) <= total_cost(items, tracks, sims, p),
{
}

/// The records that an assignment pairs with a real track.
pub open spec fn matched_rows(a: Seq<usize>, m: nat, n: nat) -> Set<int> {
    Set::new(|i: int| 0 <= i < m && a[i] < n)
}

/// Some row among the first `rows` is assigned column `j`.
pub open spec fn column_taken(a: Seq<usize>, rows: nat, j: int) -> bool {
    exists|i: int| 0 <= i < rows && a[i] == j
}

/// Every column below `k` is some row's under an assignment of `k` rows.
proof fn lemma_assignment_onto(k: nat, a: Seq<usize>)
    requires
        is_assignment(k, a),
    ensures
        forall|j: int| 0 <= j < k ==> #[trigger] column_taken(a, k, j),
{
    let dom = set_int_range(0, k as int);
    let f = |i: int| a[i] as int;
    let img = dom.map(f);
    lemma_int_range(0, k as int);
    assert(injective_on(f, dom)) by {
        assert forall|x1: int, x2: int| dom.contains(x1) && dom.contains(x2) && #[trigger] f(x1) == #[trigger] f(
            x2,
        ) implies x1 == x2 by {}
    }
    lemma_map_size(dom, img, f);
    assert forall|j: int| 0 <= j < k implies #[trigger] column_taken(a, k, j) by {
        if !img.contains(j) {
            let rest = dom.remove(j);
            assert(img.subset_of(rest)) by {
                assert forall|y: int| img.contains(y) implies rest.contains(y) by {
                    let x = choose|x: int| dom.contains(x) && f(x) == y;
                }
            }
            lemma_len_subset(img, rest);
        } else {
            let x = choose|x: int| dom.contains(x) && f(x) == j;
            assert(0 <= x < k && a[x] == j);
        }
    }
}

/// An alignment pairs as many records with real tracks as the shorter list holds: all of them
/// when the lists are of equal size, where it is a bijection between records and tracks.
pub proof fn lemma_alignment_pairs(m: nat, n: nat, a: Seq<usize>)
    requires
        is_assignment(max_nat(m, n), a),
    ensures
        matched_rows(a, m, n).finite(),
        matched_rows(a, m, n).len() == if m <= n {
            m
        } else {
            n
        },
        m == n ==> forall|i: int| 0 <= i < m ==> #[trigger] a[i] < n,
        m == n ==> forall|j: int| 0 <= j < n ==> #[trigger] column_taken(a, m, j),
{
    let k = max_nat(m, n);
    let s = matched_rows(a, m, n);
    lemma_int_range(0, m as int);
    lemma_assignment_onto(k, a);
    if m <= n {
        assert(s =~= set_int_range(0, m as int));
    } else {
        let f = |i: int| a[i] as int;
        lemma_len_subset(s, set_int_range(0, m as int));
        assert(injective_on(f, s)) by {
            assert forall|x1: int, x2: int| s.contains(x1) && s.contains(x2) && #[trigger] f(x1) == #[trigger] f(
                x2,
            ) implies x1 == x2 by {}
        }
        assert(s.map(f) =~= set_int_range(0, n as int)) by {
            assert forall|j: int| set_int_range(0, n as int).contains(j) implies s.map(f).contains(j) by {
                assert(column_taken(a, k, j));
                let i = choose|i: int| 0 <= i < k && a[i] == j;
                assert(s.contains(i) && f(i) == j);
            }
        }
        lemma_map_size(s, s.map(f), f);
        lemma_int_range(0, n as int);
    }
}

/// The records aligned with the release's tracks where a release was found; as they are
/// otherwise.
pub fn match_items_to_release(items: Vec<Item>, release: Option<&Release>, sims: &[Vec<u32>]) -> (r:
    Vec<Item>)
    requires
        release matches Some(rel) ==> valid_title_similarities(
            sims@,
            items@.len() as int,
            all_tracks(rel.media@).len() as int,
        ),
    ensures
        release is None ==> r@ == items@,
        release matches Some(rel) ==> {
            let ts = all_tracks(rel.media@);
            &&& ts.len() == 0 ==> r@ == items@
            &&& ts.len() > 0 ==> exists|a: Seq<usize>|
                is_optimal_alignment(items@, ts, sims@, max_nat(items@.len(), ts.len()), a)
                    && is_aligned(items@, ts, a, r@)
        },
{
    match release {
        Some(rel) => match_tracks(items, rel, sims),
        None => items,
    }
}

/// The album to record for a candidate: the release's title, artist credit, year and
/// identifier where a release was found, the candidate's names otherwise.
pub fn create_album(c: &AlbumCandidate, release: Option<&Release>, added: i64) -> (r: Album)
    ensures
        r.id is None,
        r.artpath is None,
        r.added == added,
        match release {
            Some(rel) => {
                &&& r.album@ == rel.title@
                &&& r.albumartist@ == credit_text(rel.artist_credit@)
                &&& r.mb_albumid == Some(rel.id)
                &&& match rel.date {
                    Some(d) => match r.year {
                        Some(y) => year_of(d@) == Some(y as int),
                        None => year_of(d@) is None,
                    },
                    None => r.year is None,
                }
            },
            None => {
                &&& r.album@ == c.album@
                &&& r.albumartist@ == c.artist@
                &&& r.year is None
                &&& r.mb_albumid is None
            },
        },
{
    match release {
        Some(rel) => Album {
            id: None,
            album: rel.title.clone(),
            albumartist: rel.artist_name(),
            year: rel.year(),
            artpath: None,
            mb_albumid: Some(rel.id.clone()),
            added,
        },
        None => Album {
            id: None,
            album: c.album.clone(),
            albumartist: c.artist.clone(),
            year: None,
            artpath: None,
            mb_albumid: None,
            added,
        },
    }
}

} // verus!
