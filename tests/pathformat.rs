use rsbts::pathformat::format_path;
use rsbts::{AudioFormat, Error, Item};

fn test_item() -> Item {
    Item {
        id: None,
        album_id: None,
        path: "/test.mp3".into(),
        title: "Help!".into(),
        artist: "The Beatles".into(),
        album: "Help!".into(),
        albumartist: None,
        genre: Some("Rock".into()),
        year: Some(1965),
        track: Some(1),
        disc: Some(1),
        format: AudioFormat::Mp3,
        bitrate: 320,
        length_ms: 180_000,
        mb_trackid: None,
        mb_albumid: None,
        added: 0,
        mtime: 0,
    }
}

#[test]
fn test_simple_template() {
    let item = test_item();
    let result = format_path("$artist/$album/$track - $title", &item).unwrap();
    assert_eq!(result, "The Beatles/Help!/01 - Help!");
}

#[test]
fn test_functions() {
    let item = test_item();
    let result = format_path("%upper{$artist}", &item).unwrap();
    assert_eq!(result, "THE BEATLES");
}

#[test]
fn case_functions() {
    let mut item = test_item();
    item.artist = "tHE   beATLES".into();
    assert_eq!(format_path("%title{$artist}", &item).unwrap(), "The Beatles");
    assert_eq!(format_path("%lower{$album}", &item).unwrap(), "help!");
}

#[test]
fn left_right_and_if() {
    let item = test_item();
    assert_eq!(format_path("%left{3,$artist}", &item).unwrap(), "The");
    assert_eq!(format_path("%right{ 7 ,$artist}", &item).is_err(), true);
    assert_eq!(format_path("%right{7, $artist}", &item).unwrap(), "Beatles");
    assert_eq!(format_path("%left{99,$genre}", &item).unwrap(), "Rock");
    assert_eq!(format_path("%if{$genre,has $genre,none}", &item).unwrap(), "has Rock");
    let mut bare = test_item();
    bare.genre = None;
    assert_eq!(format_path("%if{$genre,has $genre,none}", &bare).unwrap(), "none");
    assert_eq!(format_path("[%if{$genre,x}]", &bare).unwrap(), "[]");
    assert_eq!(format_path("%left{$artist}", &item).unwrap(), "The Beatles");
}

#[test]
fn values_are_made_safe_for_paths() {
    let mut item = test_item();
    item.title = " AC/DC: Live? ".into();
    assert_eq!(format_path("$title.x", &item).unwrap(), "AC_DC_ Live_.x");
    item.albumartist = Some("Various".into());
    item.track = Some(12);
    item.disc = None;
    item.year = Some(-5);
    assert_eq!(format_path("$albumartist/$disc$track/$year", &item).unwrap(), "Various/12/-5");
}

#[test]
fn template_errors() {
    let item = test_item();
    assert_eq!(
        format_path("$nope", &item).unwrap_err(),
        Error::PathFormat("Unknown variable: nope".into())
    );
    assert_eq!(
        format_path("%nope{x}", &item).unwrap_err(),
        Error::PathFormat("Unknown function: nope".into())
    );
    assert_eq!(
        format_path("%upper $artist", &item).unwrap_err(),
        Error::PathFormat("Expected '{' after %upper".into())
    );
    assert_eq!(
        format_path("%left{x,$artist}", &item).unwrap_err(),
        Error::PathFormat("Invalid number: invalid digit found in string".into())
    );
    assert_eq!(
        format_path("%left{,$artist}", &item).unwrap_err(),
        Error::PathFormat("Invalid number: cannot parse integer from empty string".into())
    );
    assert_eq!(
        format_path("%left{99999999999999999999999,$artist}", &item).unwrap_err(),
        Error::PathFormat("Invalid number: number too large to fit in target type".into())
    );
}

#[test]
fn nested_braces_and_unclosed_argument() {
    let item = test_item();
    assert_eq!(format_path("%upper{a{b}c}", &item).unwrap(), "A{B}C");
    assert_eq!(format_path("%upper{open", &item).unwrap(), "OPEN");
    assert_eq!(format_path("", &item).unwrap(), "");
}
