use vstd::prelude::*;

pub mod import;
pub mod musicbrainz;
pub mod pathformat;
pub mod query;
pub mod tags;
pub mod text;
pub mod units;

use crate::text::{chars_equal, chars_of, lower_of, lowercase};

verus! {

/// The errors of the library, each with a message.
#[derive(Debug, Clone, PartialEq, Eq)]
pub enum Error {
    Database(String),
    Io(String),
    Tag(String),
    Config(String),
    Import(String),
    MusicBrainz(String),
    PathFormat(String),
    Query(String),
}

/// The audio container formats the library tells apart by file extension.
#[derive(Debug, Clone, Copy, PartialEq, Eq, Structural)]
pub enum AudioFormat {
    Mp3,
    Flac,
    Ogg,
    Opus,
    Aac,
    Alac,
    Wav,
    Aiff,
    Unknown,
}

/// The format named by an extension that is already in lower case.
pub open spec fn format_of_lower_ext(e: Seq<char>) -> AudioFormat {
    if e == seq!['m', 'p', '3'] {
        AudioFormat::Mp3
    } else if e == seq!['f', 'l', 'a', 'c'] {
        AudioFormat::Flac
    } else if e == seq!['o', 'g', 'g'] || e == seq!['o', 'g', 'a'] {
        AudioFormat::Ogg
    } else if e == seq!['o', 'p', 'u', 's'] {
        AudioFormat::Opus
    } else if e == seq!['m', '4', 'a'] || e == seq!['a', 'a', 'c'] {
        AudioFormat::Aac
    } else if e == seq!['a', 'l', 'a', 'c'] {
        AudioFormat::Alac
    } else if e == seq!['w', 'a', 'v'] {
        AudioFormat::Wav
    } else if e == seq!['a', 'i', 'f', 'f'] || e == seq!['a', 'i', 'f'] {
        AudioFormat::Aiff
    } else {
        AudioFormat::Unknown
    }
}

impl AudioFormat {
    /// The format named by an extension that is already in lower case.
    pub fn from_lower_extension(e: &str) -> (r: Self)
        ensures
            r == format_of_lower_ext(e@),
    {
        let c = chars_of(e);
        let e = c.as_slice();
        if chars_equal(e, &['m', 'p', '3']) {
            AudioFormat::Mp3
        } else if chars_equal(e, &['f', 'l', 'a', 'c']) {
            AudioFormat::Flac
        } else if chars_equal(e, &['o', 'g', 'g']) || chars_equal(e, &['o', 'g', 'a']) {
            AudioFormat::Ogg
        } else if chars_equal(e, &['o', 'p', 'u', 's']) {
            AudioFormat::Opus
        } else if chars_equal(e, &['m', '4', 'a']) || chars_equal(e, &['a', 'a', 'c']) {
            AudioFormat::Aac
        } else if chars_equal(e, &['a', 'l', 'a', 'c']) {
            AudioFormat::Alac
        } else if chars_equal(e, &['w', 'a', 'v']) {
            AudioFormat::Wav
        } else if chars_equal(e, &['a', 'i', 'f', 'f']) || chars_equal(e, &['a', 'i', 'f']) {
            AudioFormat::Aiff
        } else {
            AudioFormat::Unknown
        }
    }

    /// The format named by a file extension, in any case.
    pub fn from_extension(ext: &str) -> (r: Self)
        ensures
            r == format_of_lower_ext(lower_of(ext@)),
    {
        let lower = lowercase(ext);
        Self::from_lower_extension(lower.as_str())
    }

    /// The format's display name.
    pub fn as_str(&self) -> (r: &'static str)
        ensures
            r@ == format_name(*self),
    {
        match self {
            AudioFormat::Mp3 => "MP3",
            AudioFormat::Flac => "FLAC",
            AudioFormat::Ogg => "Ogg Vorbis",
            AudioFormat::Opus => "Opus",
            AudioFormat::Aac => "AAC",
            AudioFormat::Alac => "ALAC",
            AudioFormat::Wav => "WAV",
            AudioFormat::Aiff => "AIFF",
            AudioFormat::Unknown => "Unknown",
        }
    }
}

/// The display name of a format.
pub open spec fn format_name(f: AudioFormat) -> Seq<char> {
    match f {
        AudioFormat::Mp3 => "MP3"@,
        AudioFormat::Flac => "FLAC"@,
        AudioFormat::Ogg => "Ogg Vorbis"@,
        AudioFormat::Opus => "Opus"@,
        AudioFormat::Aac => "AAC"@,
        AudioFormat::Alac => "ALAC"@,
        AudioFormat::Wav => "WAV"@,
        AudioFormat::Aiff => "AIFF"@,
        AudioFormat::Unknown => "Unknown"@,
    }
}

/// A scanned audio file and its metadata. Durations are in milliseconds; times are seconds
/// since the Unix epoch.
#[derive(Debug, Clone)]
pub struct Item {
    pub id: Option<i64>,
    pub album_id: Option<i64>,
    pub path: String,
    pub title: String,
    pub artist: String,
    pub album: String,
    pub albumartist: Option<String>,
    pub genre: Option<String>,
    pub year: Option<i32>,
    pub track: Option<u32>,
    pub disc: Option<u32>,
    pub format: AudioFormat,
    pub bitrate: u32,
    pub length_ms: u64,
    pub mb_trackid: Option<String>,
    pub mb_albumid: Option<String>,
    pub added: i64,
    pub mtime: i64,
}

/// The album artist of a record: its own album artist where it has one, else its artist.
pub open spec fn effective_artist(i: Item) -> Seq<char> {
    match i.albumartist {
        Some(a) => a@,
        None => i.artist@,
    }
}

impl Item {
    /// The album artist where the record has one, else its artist.
    pub fn effective_albumartist(&self) -> (r: &str)
        ensures
            r@ == effective_artist(*self),
    {
        match &self.albumartist {
            Some(a) => a.as_str(),
            None => self.artist.as_str(),
        }
    }
}

/// An album of the library.
#[derive(Debug, Clone)]
pub struct Album {
    pub id: Option<i64>,
    pub album: String,
    pub albumartist: String,
    pub year: Option<i32>,
    pub artpath: Option<String>,
    pub mb_albumid: Option<String>,
    pub added: i64,
}

} // verus!
