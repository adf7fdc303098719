use rsbts::import::{
    create_album, group_into_albums, match_items_to_release, match_tracks, pick_best_match,
    release_score, AlbumCandidate,
};
use rsbts::musicbrainz::{Artist, ArtistCredit, Medium, Recording, Release, Track};
use rsbts::{AudioFormat, Item};

fn item(title: &str, artist: &str, album: &str, albumartist: Option<&str>, length_ms: u64) -> Item {
    Item {
        id: None,
        album_id: None,
        path: format!("/music/{title}.mp3"),
        title: title.to_string(),
        artist: artist.to_string(),
        album: album.to_string(),
        albumartist: albumartist.map(|s| s.to_string()),
        genre: None,
        year: None,
        track: None,
        disc: None,
        format: AudioFormat::Mp3,
        bitrate: 320,
        length_ms,
        mb_trackid: None,
        mb_albumid: None,
        added: 0,
        mtime: 0,
    }
}

fn track(title: &str, length: Option<u64>, rec: &str) -> Track {
    Track {
        id: format!("t-{rec}"),
        number: "1".to_string(),
        title: title.to_string(),
        length,
        recording: Recording { id: rec.to_string(), title: title.to_string(), length },
    }
}

fn release(id: &str, title: &str, artists: &[(&str, &str)], date: Option<&str>, media: Vec<Vec<Track>>) -> Release {
    Release {
        id: id.to_string(),
        title: title.to_string(),
        date: date.map(|d| d.to_string()),
        artist_credit: artists
            .iter()
            .map(|(n, j)| ArtistCredit {
                artist: Artist { id: format!("a-{n}"), name: n.to_string() },
                joinphrase: j.to_string(),
            })
            .collect(),
        media: media
            .into_iter()
            .enumerate()
            .map(|(i, tracks)| Medium { position: i as u32 + 1, tracks })
            .collect(),
        score: 100,
    }
}

fn candidate(n: usize) -> AlbumCandidate {
    let items: Vec<Item> = (0..n).map(|i| item(&format!("T{i}"), "Artist", "Album", None, 1000)).collect();
    group_into_albums(items).remove(0)
}

#[test]
fn grouping_partitions_by_folded_key() {
    let items = vec![
        item("a", "The Beatles", "Help!", None, 1),
        item("b", "Someone", "Abbey Road", Some("The Beatles"), 2),
        item("c", "the beatles", "HELP!", None, 3),
        item("d", "The Beatles", "Abbey Road", None, 4),
        item("e", "Other", "Help!", None, 5),
    ];
    let groups = group_into_albums(items);
    assert_eq!(groups.len(), 3);
    let titles: Vec<Vec<&str>> = groups
        .iter()
        .map(|g| g.items.iter().map(|i| i.title.as_str()).collect())
        .collect();
    assert_eq!(titles, vec![vec!["e"], vec!["b", "d"], vec!["a", "c"]]);
    assert_eq!(groups[2].key_artist, "the beatles");
    assert_eq!(groups[2].key_album, "help!");
    assert_eq!(groups[2].artist, "The Beatles");
    assert_eq!(groups[2].album, "Help!");
    assert_eq!(groups[1].artist, "The Beatles");
    assert_eq!(groups[1].album, "Abbey Road");
    assert_eq!(groups[0].key_artist, "other");
    let total: usize = groups.iter().map(|g| g.items.len()).sum();
    assert_eq!(total, 5);
}

#[test]
fn grouping_ignores_input_order() {
    let a = vec![
        item("1", "B", "x", None, 1),
        item("2", "a", "y", None, 2),
        item("3", "A", "x", None, 3),
    ];
    let mut b = a.clone();
    b.reverse();
    let keys = |v: Vec<Item>| -> Vec<(String, String)> {
        group_into_albums(v).into_iter().map(|g| (g.key_artist, g.key_album)).collect()
    };
    let expected = vec![
        ("a".to_string(), "x".to_string()),
        ("a".to_string(), "y".to_string()),
        ("b".to_string(), "x".to_string()),
    ];
    assert_eq!(keys(a), expected);
    assert_eq!(keys(b), expected);
}

#[test]
fn grouping_nothing_gives_nothing() {
    assert!(group_into_albums(Vec::new()).is_empty());
}

#[test]
fn score_adds_similarities_and_bonus() {
    assert_eq!(release_score(10000, 10000, true), 220);
    assert_eq!(release_score(9999, 10000, false), 199);
    assert_eq!(release_score(0, 0, false), 0);
    assert_eq!(release_score(5050, 0, true), 70);
}

#[test]
fn best_match_prefers_highest_then_first() {
    let c = candidate(2);
    let two = vec![vec![track("x", None, "r1"), track("y", None, "r2")]];
    let rs = vec![
        release("1", "A", &[("X", "")], None, two.clone()),
        release("2", "B", &[("Y", "")], None, vec![]),
        release("3", "C", &[("Z", "")], None, two.clone()),
    ];
    assert_eq!(pick_best_match(&c, &rs, &[(5000, 5000), (9000, 9000), (5000, 5000)]), Some(1));
    // 5000 + 5000 + bonus beats 6000 + 6000 without it; the first of equal scores wins.
    assert_eq!(pick_best_match(&c, &rs, &[(5000, 5000), (6000, 6000), (5000, 5000)]), Some(0));
    assert_eq!(pick_best_match(&c, &rs, &[(1000, 1000), (6000, 5900), (5000, 4900)]), Some(1));
    assert_eq!(pick_best_match(&c, &[], &[]), None);
}

#[test]
fn best_match_is_the_same_on_the_same_input() {
    let c = candidate(1);
    let rs = vec![
        release("1", "A", &[("X", "")], None, vec![]),
        release("2", "A", &[("X", "")], None, vec![]),
    ];
    let sims = [(7000, 7000), (7000, 7000)];
    let first = pick_best_match(&c, &rs, &sims);
    for _ in 0..10 {
        assert_eq!(pick_best_match(&c, &rs, &sims), first);
    }
    assert_eq!(first, Some(0));
}

fn cost(sim: u32, item_ms: u64, track_ms: Option<u64>) -> i64 {
    let score: u32 = match track_ms {
        None => 5000,
        Some(t) => {
            let d = item_ms.abs_diff(t);
            if d < 3000 {
                10000
            } else if d < 10000 {
                7000
            } else {
                3000
            }
        }
    };
    10000 - ((sim + score) / 2) as i64
}

fn permutations(k: usize) -> Vec<Vec<usize>> {
    if k == 0 {
        return vec![vec![]];
    }
    let mut out = Vec::new();
    for p in permutations(k - 1) {
        for pos in 0..=p.len() {
            let mut q = p.clone();
            q.insert(pos, k - 1);
            out.push(q);
        }
    }
    out
}

#[test]
fn alignment_is_no_worse_than_any_permutation() {
    let lengths = [180_000u64, 200_000, 95_000, 240_000, 120_000];
    for k in 1..=5usize {
        let items: Vec<Item> = (0..k).map(|i| item(&format!("i{i}"), "A", "B", None, lengths[i])).collect();
        let tracks: Vec<Track> = (0..k)
            .map(|j| track(&format!("t{j}"), Some(lengths[(j * 2 + 1) % k] + 1000 * j as u64), &format!("r{j}")))
            .collect();
        let sims: Vec<Vec<u32>> = (0..k)
            .map(|i| (0..k).map(|j| ((i * 37 + j * 53) % 101 * 99) as u32).collect())
            .collect();
        let rel = release("1", "B", &[("A", "")], None, vec![tracks.clone()]);
        let out = match_tracks(items.clone(), &rel, &sims);
        assert_eq!(out.len(), k);
        let mut chosen = vec![usize::MAX; k];
        for (i, it) in out.iter().enumerate() {
            let rec = it.mb_trackid.clone().unwrap();
            let j: usize = rec[1..].parse().unwrap();
            assert_eq!(it.title, format!("t{j}"));
            chosen[i] = j;
        }
        let mut seen = chosen.clone();
        seen.sort();
        assert_eq!(seen, (0..k).collect::<Vec<_>>());
        let total = |p: &[usize]| -> i64 {
            (0..k).map(|i| cost(sims[i][p[i]], items[i].length_ms, tracks[p[i]].length)).sum()
        };
        let best = total(&chosen);
        for p in permutations(k) {
            assert!(best <= total(&p));
        }
    }
}

#[test]
fn alignment_pairs_min_of_both_sizes() {
    let items: Vec<Item> = (0..4).map(|i| item(&format!("i{i}"), "A", "B", None, 100_000)).collect();
    let two = vec![track("Alpha", Some(100_000), "r0"), track("Beta", None, "r1")];
    let rel = release("1", "B", &[("A", "")], None, vec![two]);
    let sims = vec![vec![0, 0], vec![10000, 0], vec![0, 0], vec![0, 10000]];
    let out = match_tracks(items.clone(), &rel, &sims);
    let matched: Vec<usize> = (0..4).filter(|&i| out[i].mb_trackid.is_some()).collect();
    assert_eq!(matched, vec![1, 3]);
    assert_eq!(out[1].title, "Alpha");
    assert_eq!(out[3].title, "Beta");
    assert_eq!(out[0].title, "i0");

    let one = vec![item("x", "A", "B", None, 100_000)];
    let three = vec![track("P", None, "r0"), track("Q", None, "r1"), track("R", None, "r2")];
    let rel3 = release("2", "B", &[("A", "")], None, vec![three]);
    let out = match_tracks(one, &rel3, &[vec![0, 9000, 0]]);
    assert_eq!(out[0].title, "Q");
    assert_eq!(out[0].mb_trackid.as_deref(), Some("r1"));
}

#[test]
fn alignment_without_tracks_changes_nothing() {
    let items = vec![item("x", "A", "B", None, 1)];
    let rel = release("1", "B", &[("A", "")], None, vec![]);
    let out = match_tracks(items, &rel, &[vec![]]);
    assert_eq!(out[0].title, "x");
    assert!(out[0].mb_trackid.is_none());
    let out = match_items_to_release(vec![item("y", "A", "B", None, 1)], None, &[]);
    assert_eq!(out[0].title, "y");
}

#[test]
fn alignment_follows_durations_across_media() {
    let items = vec![item("one", "A", "B", None, 60_000), item("two", "A", "B", None, 300_000)];
    let rel = release(
        "1",
        "B",
        &[("A", "")],
        None,
        vec![vec![track("Long", Some(301_000), "r0")], vec![track("Short", Some(59_000), "r1")]],
    );
    let out = match_items_to_release(items, Some(&rel), &[vec![5000, 5000], vec![5000, 5000]]);
    assert_eq!(out[0].title, "Short");
    assert_eq!(out[1].title, "Long");
}

#[test]
fn album_from_release_or_candidate() {
    let c = candidate(1);
    let rel = release("mb-1", "Help!", &[("John", " & "), ("Paul", "")], Some("1965-08-06"), vec![]);
    let a = create_album(&c, Some(&rel), 42);
    assert_eq!(a.album, "Help!");
    assert_eq!(a.albumartist, "John & Paul");
    assert_eq!(a.year, Some(1965));
    assert_eq!(a.mb_albumid.as_deref(), Some("mb-1"));
    assert_eq!(a.added, 42);
    let b = create_album(&c, None, 7);
    assert_eq!(b.album, "Album");
    assert_eq!(b.albumartist, "Artist");
    assert_eq!(b.year, None);
    assert!(b.mb_albumid.is_none());
}

#[test]
fn release_helpers() {
    let rel = release(
        "1",
        "T",
        &[("A", " feat. "), ("B", "")],
        Some("1999"),
        vec![vec![track("x", None, "r0")], vec![track("y", None, "r1"), track("z", None, "r2")]],
    );
    assert_eq!(rel.artist_name(), "A feat. B");
    assert_eq!(rel.year(), Some(1999));
    let titles: Vec<&str> = rel.tracks().iter().map(|t| t.title.as_str()).collect();
    assert_eq!(titles, vec!["x", "y", "z"]);
    let mut r2 = rel.clone();
    for (d, y) in [("", None), ("abc-01", None), ("+2001-02", Some(2001)), ("99999999999", None), ("-2000", None)] {
        r2.date = Some(d.to_string());
        assert_eq!(r2.year(), y, "{d}");
    }
    r2.date = None;
    assert_eq!(r2.year(), None);
}
