//! Recognising audio files by their name.
use vstd::prelude::*;

use crate::text::{chars_equal, chars_of, lower_of, lowercase};

verus! {

/// The extension of a path as `std::path::Path::extension` finds it, where it is UTF-8.
pub uninterp spec fn path_extension(p: Seq<char>) -> Option<Seq<char>>;

/// Relies on `std::path::Path::extension`: the extension of the path's file name, where there
/// is one and it is UTF-8.
#[verifier::external_body]
fn extension(path: &str) -> (r: Option<String>)
    ensures
        match r {
            Some(e) => path_extension(path@) == Some(e@),
            None => path_extension(path@) is None,
        },
{
    match std::path::Path::new(path).extension() {
        Some(e) => match e.to_str() {
            Some(s) => Some(s.to_string()),
            None => None,
        },
        None => None,
    }
}

/// The lower-case extensions of the audio files that the library imports.
pub open spec fn is_audio_ext(e: Seq<char>) -> bool {
    e == seq!['m', 'p', '3'] || e == seq!['f', 'l', 'a', 'c'] || e == seq!['o', 'g', 'g'] || e
        == seq!['o', 'g', 'a'] || e == seq!['o', 'p', 'u', 's'] || e == seq!['m', '4', 'a'] || e
        == seq!['a', 'a', 'c'] || e == seq!['w', 'a', 'v'] || e == seq!['a', 'i', 'f', 'f'] || e
        == seq!['a', 'i', 'f']
}

/// Whether a lower-case extension is one of an audio file.
pub fn is_audio_extension(e: &str) -> (r: bool)
    ensures
        r == is_audio_ext(e@),
{
    let c = chars_of(e);
    let e = c.as_slice();
    chars_equal(e, &['m', 'p', '3']) || chars_equal(e, &['f', 'l', 'a', 'c']) || chars_equal(
        e,
        &['o', 'g', 'g'],
    ) || chars_equal(e, &['o', 'g', 'a']) || chars_equal(e, &['o', 'p', 'u', 's']) || chars_equal(
        e,
        &['m', '4', 'a'],
    ) || chars_equal(e, &['a', 'a', 'c']) || chars_equal(e, &['w', 'a', 'v']) || chars_equal(
        e,
        &['a', 'i', 'f', 'f'],
    ) || chars_equal(e, &['a', 'i', 'f'])
}

/// Whether the path names an audio file: its extension, in any case, is one of an audio file.
pub fn is_audio_file(path: &str) -> (r: bool)
    ensures
        r == match path_extension(path@) {
            Some(e) => is_audio_ext(lower_of(e)),
            None => false,
        },
{
    match extension(path) {
        Some(e) => {
            let lower = lowercase(e.as_str());
            is_audio_extension(lower.as_str())
        },
        None => false,
    }
}

} // verus!
