//! Releases of the external catalogue, as the library reads them.
use vstd::prelude::*;

use crate::query::{decimal_value, is_digit, is_first};
use crate::text::{chars_of, push_str, string_of};

verus! {

/// The releases that a catalogue search returned.
#[derive(Debug, Clone)]
pub struct ReleaseSearchResult {
    pub releases: Vec<Release>,
}

/// A release: an album as the catalogue knows it.
#[derive(Debug, Clone)]
pub struct Release {
    pub id: String,
    pub title: String,
    pub date: Option<String>,
    pub artist_credit: Vec<ArtistCredit>,
    pub media: Vec<Medium>,
    pub score: u32,
}

/// One artist of a release's credit, and the phrase that joins it to the next.
#[derive(Debug, Clone)]
pub struct ArtistCredit {
    pub artist: Artist,
    pub joinphrase: String,
}

#[derive(Debug, Clone)]
pub struct Artist {
    pub id: String,
    pub name: String,
}

/// One disc (or other medium) of a release.
#[derive(Debug, Clone)]
pub struct Medium {
    pub position: u32,
    pub tracks: Vec<Track>,
}

/// A track of a medium; its length is in milliseconds.
#[derive(Debug, Clone)]
pub struct Track {
    pub id: String,
    pub number: String,
    pub title: String,
    pub length: Option<u64>,
    pub recording: Recording,
}

#[derive(Debug, Clone)]
pub struct Recording {
    pub id: String,
    pub title: String,
    pub length: Option<u64>,
}

/// The credited artists, each name followed by its join phrase.
pub open spec fn credit_text(cs: Seq<ArtistCredit>) -> Seq<char>
    decreases cs.len(),
{
    if cs.len() == 0 {
        seq![]
    } else {
        credit_text(cs.drop_last()) + cs.last().artist.name@ + cs.last().joinphrase@
    }
}

/// The tracks of the media, medium after medium.
pub open spec fn all_tracks(ms: Seq<Medium>) -> Seq<Track>
    decreases ms.len(),
{
    if ms.len() == 0 {
        seq![]
    } else {
        all_tracks(ms.drop_last()) + ms.last().tracks@
    }
}

/// The part of a date before its first `-`.
pub open spec fn year_part(d: Seq<char>) -> Seq<char> {
    if exists|k: int| is_first(d, '-', k) {
        d.take(choose|k: int| is_first(d, '-', k))
    } else {
        d
    }
}

/// The number that `digits` writes in decimal, where it fits in an `i32`.
pub open spec fn decimal_i32_of(digits: Seq<char>) -> Option<int> {
    if digits.len() > 0 && (forall|i: int| 0 <= i < digits.len() ==> is_digit(#[trigger] digits[i]))
        && decimal_value(digits) <= i32::MAX {
        Some(decimal_value(digits))
    } else {
        None
    }
}

/// The number that `s` writes as an optional `+` and decimal digits, where it fits in an `i32`.
pub open spec fn unsigned_i32_of(s: Seq<char>) -> Option<int> {
    if s.len() > 0 && s[0] == '+' {
        decimal_i32_of(s.drop_first())
    } else {
        decimal_i32_of(s)
    }
}

/// The year of a release date such as `1965-08-06`.
pub open spec fn year_of(d: Seq<char>) -> Option<int> {
    unsigned_i32_of(year_part(d))
}

/// The number that `s[from..]` writes in decimal digits, where it fits in an `i32`.
fn parse_digits(s: &[char], from: usize) -> (r: Option<i32>)
    requires
        from <= s@.len(),
    ensures
        match r {
            Some(v) => s@.len() > from && (forall|i: int| from <= i < s@.len() ==> is_digit(
                #[trigger] s@[i],
            )) && decimal_value(s@.skip(from as int)) <= i32::MAX && v == decimal_value(
                s@.skip(from as int),
            ),
            None => !(s@.len() > from && (forall|i: int| from <= i < s@.len() ==> is_digit(
                #[trigger] s@[i],
            )) && decimal_value(s@.skip(from as int)) <= i32::MAX),
        },
{
    let n = s.len();
    if from == n {
        return None;
    }
    let mut acc: u64 = 0;
    let mut big = false;
    let mut i: usize = from;
    while i < n
        invariant
            from <= i <= n == s@.len(),
            forall|j: int| from <= j < i ==> is_digit(#[trigger] s@[j]),
            !big ==> acc == decimal_value(s@.subrange(from as int, i as int)),
            !big ==> acc <= i32::MAX,
            big ==> decimal_value(s@.subrange(from as int, i as int)) > i32::MAX,
        decreases n - i,
    {
        let c = s[i];
        if c < '0' || c > '9' {
            assert(!is_digit(s@[i as int]));
            return None;
        }
        let d = (c as u32 - '0' as u32) as u64;
        let ghost prev = decimal_value(s@.subrange(from as int, i as int));
        assert(s@.subrange(from as int, i + 1).drop_last() =~= s@.subrange(from as int, i as int));
        assert(decimal_value(s@.subrange(from as int, i + 1)) == prev * 10 + d);
        if !big {
            acc = acc * 10 + d;
            if acc > i32::MAX as u64 {
                big = true;
            }
        }
        i = i + 1;
    }
    assert(s@.subrange(from as int, n as int) =~= s@.skip(from as int));
    if big {
        None
    } else {
        Some(acc as i32)
    }
}

/// The least time, in milliseconds, between two requests to the catalogue.
pub const RATE_LIMIT_MS: u64 = 1000;

/// How long to wait before a request, given the time since the previous one (none before the
/// first), so that requests are at least `interval_ms` apart; `None` for no wait.
pub fn rate_limit_wait(elapsed_ms: Option<u64>, interval_ms: u64) -> (r: Option<u64>)
    ensures
        match elapsed_ms {
            None => r is None,
            Some(e) => if e <= interval_ms {
                r == Some((interval_ms - e) as u64)
            } else {
                r is None
            },
        },
{
    match elapsed_ms {
        None => None,
        Some(e) => if e <= interval_ms {
            Some(interval_ms - e)
        } else {
            None
        },
    }
}

impl Release {
    /// The credited artists, each name followed by its join phrase.
    pub fn artist_name(&self) -> (r: String)
        ensures
            r@ == credit_text(self.artist_credit@),
    {
        let mut out: Vec<char> = Vec::new();
        let mut i: usize = 0;
        while i < self.artist_credit.len()
            invariant
                0 <= i <= self.artist_credit@.len(),
                out@ == credit_text(self.artist_credit@.take(i as int)),
            decreases self.artist_credit@.len() - i,
        {
            let c = &self.artist_credit[i];
            assert(self.artist_credit@.take(i + 1).drop_last() =~= self.artist_credit@.take(i as int));
            push_str(&mut out, c.artist.name.as_str());
            push_str(&mut out, c.joinphrase.as_str());
            assert(out@ =~= credit_text(self.artist_credit@.take(i + 1)));
            i = i + 1;
        }
        assert(self.artist_credit@.take(i as int) =~= self.artist_credit@);
        string_of(out.as_slice())
    }

    /// The year of the release date, where the date starts with one.
    pub fn year(&self) -> (r: Option<i32>)
        ensures
            match self.date {
                Some(d) => match r {
                    Some(y) => year_of(d@) == Some(y as int),
                    None => year_of(d@) is None,
                },
                None => r is None,
            },
    {
        match &self.date {
            None => None,
            Some(d) => {
                let c = chars_of(d.as_str());
                let n = c.len();
                let mut k: usize = 0;
                while k < n && c[k] != '-'
                    invariant
                        k <= n == c@.len(),
                        forall|j: int| 0 <= j < k ==> c@[j] != '-',
                    decreases n - k,
                {
                    k = k + 1;
                }
                let ghost part = year_part(c@);
                if k < n {
                    assert(is_first(c@, '-', k as int));
                    assert forall|q: int| is_first(c@, '-', q) implies q == k by {
                        if q < k {
                        } else if q > k {
                            assert(c@[k as int] == '-');
                        }
                    }
                    assert(part == c@.take(k as int));
                } else {
                    assert(!exists|q: int| is_first(c@, '-', q));
                    assert(c@.take(k as int) =~= c@);
                }
                let seg = crate::text::copy_range(c.as_slice(), 0, k);
                assert(seg@ == part);
                let from: usize = if k > 0 && seg[0] == '+' {
                    1
                } else {
                    0
                };
                assert(seg@.skip(from as int) == (if seg@.len() > 0 && seg@[0] == '+' {
                    seg@.drop_first()
                } else {
                    seg@
                }));
                let r = parse_digits(seg.as_slice(), from);
                proof {
                    let digits = seg@.skip(from as int);
                    let all_d = forall|i: int| 0 <= i < digits.len() ==> is_digit(#[trigger] digits[i]);
                    let all_s = forall|i: int| from <= i < seg@.len() ==> is_digit(#[trigger] seg@[i]);
                    if all_d {
                        assert forall|i: int| from <= i < seg@.len() implies is_digit(#[trigger] seg@[i]) by {
                            assert(digits[i - from] == seg@[i]);
                        }
                    }
                    if all_s {
                        assert forall|i: int| 0 <= i < digits.len() implies is_digit(#[trigger] digits[i]) by {
                            assert(digits[i] == seg@[i + from]);
                        }
                    }
                    assert(all_d == all_s);
                    assert(year_of(d@) == unsigned_i32_of(seg@));
                    assert(unsigned_i32_of(seg@) == decimal_i32_of(digits));
                }
                r
            },
        }
    }

    /// The tracks of all media, medium after medium.
    pub fn tracks(&self) -> (r: Vec<&Track>)
        ensures
            r@.len() == all_tracks(self.media@).len(),
            forall|i: int| 0 <= i < r@.len() ==> *r@[i] == all_tracks(self.media@)[i],
    {
        let mut out: Vec<&Track> = Vec::new();
        let mut m: usize = 0;
        while m < self.media.len()
            invariant
                0 <= m <= self.media@.len(),
                out@.len() == all_tracks(self.media@.take(m as int)).len(),
                forall|i: int| 0 <= i < out@.len() ==> *out@[i] == all_tracks(self.media@.take(m as int))[i],
            decreases self.media@.len() - m,
        {
            let medium = &self.media[m];
            assert(self.media@.take(m + 1).drop_last() =~= self.media@.take(m as int));
            let ghost before = all_tracks(self.media@.take(m as int));
            let mut t: usize = 0;
            while t < medium.tracks.len()
                invariant
                    0 <= t <= medium.tracks@.len(),
                    out@.len() == before.len() + t,
                    forall|i: int| 0 <= i < before.len() ==> *out@[i] == before[i],
                    forall|i: int| 0 <= i < t ==> *out@[before.len() + i] == medium.tracks@[i],
                decreases medium.tracks@.len() - t,
            {
                out.push(&medium.tracks[t]);
                t = t + 1;
            }
            proof {
                let after = all_tracks(self.media@.take(m + 1));
                assert(after == before + medium.tracks@);
                assert forall|i: int| 0 <= i < out@.len() implies *out@[i] == after[i] by {
                    if i >= before.len() {
                        assert(*out@[before.len() + (i - before.len())] == medium.tracks@[i - before.len()]);
                    }
                }
            }
            m = m + 1;
        }
        assert(self.media@.take(m as int) =~= self.media@);
        out
    }
}

} // verus!
