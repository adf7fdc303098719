use rsbts::musicbrainz::{rate_limit_wait, RATE_LIMIT_MS};
use rsbts::tags::{is_audio_extension, is_audio_file};
use rsbts::units::{format_duration, format_size};
use rsbts::{AudioFormat, Item};

#[test]
fn formats_from_extension() {
    assert_eq!(AudioFormat::from_extension("MP3"), AudioFormat::Mp3);
    assert_eq!(AudioFormat::from_extension("Flac"), AudioFormat::Flac);
    assert_eq!(AudioFormat::from_extension("oga"), AudioFormat::Ogg);
    assert_eq!(AudioFormat::from_extension("M4A"), AudioFormat::Aac);
    assert_eq!(AudioFormat::from_extension("aif"), AudioFormat::Aiff);
    assert_eq!(AudioFormat::from_extension("alac"), AudioFormat::Alac);
    assert_eq!(AudioFormat::from_extension("txt"), AudioFormat::Unknown);
    assert_eq!(AudioFormat::from_lower_extension("MP3"), AudioFormat::Unknown);
    assert_eq!(AudioFormat::Ogg.as_str(), "Ogg Vorbis");
    assert_eq!(AudioFormat::Unknown.as_str(), "Unknown");
}

#[test]
fn audio_files_by_extension() {
    assert!(is_audio_file("/music/a/Song.FLAC"));
    assert!(is_audio_file("x.opus"));
    assert!(!is_audio_file("/music/cover.jpg"));
    assert!(!is_audio_file("/music/mp3"));
    assert!(!is_audio_file("/music/.mp3"));
    assert!(!is_audio_file("song.alac"));
    assert!(is_audio_extension("wav"));
    assert!(!is_audio_extension("WAV"));
}

#[test]
fn sizes_in_units() {
    assert_eq!(format_size(0), "0 B");
    assert_eq!(format_size(1023), "1023 B");
    assert_eq!(format_size(1024), "1.0 KB");
    assert_eq!(format_size(1536), "1.5 KB");
    assert_eq!(format_size(1024 * 1024 * 5 / 2), "2.5 MB");
    assert_eq!(format_size(3 * 1024 * 1024 * 1024), "3.0 GB");
    // 1.25 KB is a tie: it goes to the even tenth.
    assert_eq!(format_size(1280), "1.2 KB");
    assert_eq!(format_size(1792), "1.8 KB");
    assert_eq!(format_size(u64::MAX), "17179869184.0 GB");
}

#[test]
fn durations() {
    assert_eq!(format_duration(0), "0:00");
    assert_eq!(format_duration(65), "1:05");
    assert_eq!(format_duration(3600), "1:00:00");
    assert_eq!(format_duration(3725), "1:02:05");
}

#[test]
fn effective_album_artist() {
    let mut it = Item {
        id: None,
        album_id: None,
        path: "/x.mp3".to_string(),
        title: "t".to_string(),
        artist: "Solo".to_string(),
        album: "a".to_string(),
        albumartist: None,
        genre: None,
        year: None,
        track: None,
        disc: None,
        format: AudioFormat::Mp3,
        bitrate: 0,
        length_ms: 0,
        mb_trackid: None,
        mb_albumid: None,
        added: 0,
        mtime: 0,
    };
    assert_eq!(it.effective_albumartist(), "Solo");
    it.albumartist = Some("Band".to_string());
    assert_eq!(it.effective_albumartist(), "Band");
}

#[test]
fn rate_limit_waits_out_the_interval() {
    assert_eq!(rate_limit_wait(None, RATE_LIMIT_MS), None);
    assert_eq!(rate_limit_wait(Some(250), RATE_LIMIT_MS), Some(750));
    assert_eq!(rate_limit_wait(Some(1000), 1000), Some(0));
    assert_eq!(rate_limit_wait(Some(1001), 1000), None);
}
