use std::path::PathBuf;

use lumen::audio_tags::{audio_tags_from_fields, tag_update, AudioTags, TagFields, TextEdit};
use lumen::convert::{conversion_route, converted_file_name, ConvertRoute, FileCategory};
use lumen::games::{is_gtav_extension, is_gtav_supported, GameTarget};
use lumen::paths::{after_rename, data_dir_step, DataDirStep, DataFolder};
use lumen::thumbnail::{thumbnail_from_bytes, thumbnail_target};

fn fields() -> TagFields {
    TagFields {
        title: Some("Song".into()),
        artist: Some("Artist".into()),
        album: None,
        genre: Some("Rock".into()),
        year: None,
        recording_date: Some("1999-05-01".into()),
        track: Some(7),
        integer_bpm: None,
        bpm: Some("120.5".into()),
        initial_key: Some("Am".into()),
    }
}

#[test]
fn tags_shown_from_fields() {
    let t = audio_tags_from_fields(&Some(fields()));
    assert_eq!(t.title, "Song");
    assert_eq!(t.artist, "Artist");
    assert_eq!(t.album, "");
    assert_eq!(t.year, "1999-05-01");
    assert_eq!(t.genre, "Rock");
    assert_eq!(t.track, "7");
    assert_eq!(t.bpm, "120.5");
    assert_eq!(t.key, "Am");
}

#[test]
fn tags_prefer_year_and_integer_bpm() {
    let mut f = fields();
    f.year = Some("2001".into());
    f.integer_bpm = Some("128".into());
    f.track = Some(1234567);
    let t = audio_tags_from_fields(&Some(f));
    assert_eq!(t.year, "2001");
    assert_eq!(t.bpm, "128");
    assert_eq!(t.track, "1234567");
}

#[test]
fn unreadable_file_shows_empty_tags() {
    let t = audio_tags_from_fields(&None);
    assert_eq!(t.title, "");
    assert_eq!(t.track, "");
    assert_eq!(t.key, "");
}

fn tags(title: &str, year: &str, track: &str) -> AudioTags {
    AudioTags {
        title: title.into(),
        artist: "  ".into(),
        album: "Album ".into(),
        year: year.into(),
        genre: "".into(),
        track: track.into(),
        bpm: " 90 ".into(),
        key: "".into(),
    }
}

#[test]
fn update_sets_and_removes() {
    let u = tag_update(&tags(" My Title ", " 2020 ", " 5 "));
    assert!(matches!(u.title, TextEdit::Write(ref s) if s == " My Title "));
    assert!(matches!(u.artist, TextEdit::Remove));
    assert!(matches!(u.album, TextEdit::Write(ref s) if s == "Album "));
    assert!(matches!(u.genre, TextEdit::Remove));
    assert_eq!(u.year, Some("2020".to_string()));
    assert_eq!(u.track, Some(5));
    assert_eq!(u.bpm, Some("90".to_string()));
    assert_eq!(u.key, None);
}

#[test]
fn update_track_parsing() {
    assert_eq!(tag_update(&tags("t", "", "+12")).track, Some(12));
    assert_eq!(tag_update(&tags("t", "", "-1")).track, None);
    assert_eq!(tag_update(&tags("t", "", "+")).track, None);
    assert_eq!(tag_update(&tags("t", "", "")).track, None);
    assert_eq!(tag_update(&tags("t", "", "4294967295")).track, Some(u32::MAX));
    assert_eq!(tag_update(&tags("t", "", "4294967296")).track, None);
    assert_eq!(tag_update(&tags("t", "", "3/12")).track, None);
    assert_eq!(tag_update(&tags("t", "", "007")).track, Some(7));
    assert_eq!(tag_update(&tags("t", "   ", "1")).year, None);
}

#[test]
fn track_round_trip() {
    for n in [0u32, 1, 9, 10, 42, 65535, u32::MAX] {
        let mut f = fields();
        f.track = Some(n);
        let shown = audio_tags_from_fields(&Some(f));
        assert_eq!(tag_update(&shown).track, Some(n));
    }
}

#[test]
fn gtav_extensions() {
    assert!(is_gtav_extension("mp3"));
    assert!(is_gtav_extension("MP3"));
    assert!(is_gtav_extension("M4a"));
    assert!(is_gtav_extension("wma"));
    assert!(!is_gtav_extension("flac"));
    assert!(!is_gtav_extension("mp33"));
    assert_eq!(GameTarget::GtaV, GameTarget::GtaV);
}

#[test]
fn gtav_paths() {
    assert!(is_gtav_supported(&PathBuf::from("music/song.MP3")));
    assert!(is_gtav_supported(&PathBuf::from("a.b/track.aac")));
    assert!(!is_gtav_supported(&PathBuf::from("music/song.ogg")));
    assert!(!is_gtav_supported(&PathBuf::from("music/mp3")));
    assert!(!is_gtav_supported(&PathBuf::from(".mp3")));
}

#[test]
fn thumbnail_sizes() {
    assert_eq!(thumbnail_target(360, 1000), None);
    assert_eq!(thumbnail_target(720, 480), Some((360, 240)));
    assert_eq!(thumbnail_target(1000, 1), Some((360, 1)));
    assert_eq!(thumbnail_target(1280, 720), Some((360, 202)));
}

fn png(width: u32, height: u32) -> Vec<u8> {
    let img = image::RgbaImage::new(width, height);
    let mut bytes: Vec<u8> = Vec::new();
    img.write_to(&mut std::io::Cursor::new(&mut bytes), image::ImageFormat::Png).unwrap();
    bytes
}

#[test]
fn thumbnail_decoding() {
    assert!(thumbnail_from_bytes(b"not an image").is_none());
    let small = thumbnail_from_bytes(&png(100, 50)).unwrap();
    assert_eq!((small.width, small.height), (100, 50));
    assert_eq!(small.rgba.len(), 100 * 50 * 4);
    let big = thumbnail_from_bytes(&png(720, 480)).unwrap();
    assert_eq!((big.width, big.height), (360, 240));
    assert_eq!(big.rgba.len(), 360 * 240 * 4);
}

fn patterned(width: u32, height: u32) -> image::RgbaImage {
    image::RgbaImage::from_fn(width, height, |x, y| {
        image::Rgba([(x % 256) as u8, (y % 256) as u8, ((x + y) % 256) as u8, 255])
    })
}

fn encode(img: &image::RgbaImage) -> Vec<u8> {
    let mut bytes: Vec<u8> = Vec::new();
    img.write_to(&mut std::io::Cursor::new(&mut bytes), image::ImageFormat::Png).unwrap();
    bytes
}

#[test]
fn thumbnail_keeps_pixels_of_small_images() {
    let img = patterned(40, 30);
    let thumb = thumbnail_from_bytes(&encode(&img)).unwrap();
    assert_eq!((thumb.width, thumb.height), (40, 30));
    assert_eq!(thumb.rgba, img.into_raw());
}

#[test]
fn thumbnail_scales_pixels_of_wide_images() {
    let img = image::RgbaImage::from_pixel(720, 100, image::Rgba([10, 200, 30, 255]));
    let thumb = thumbnail_from_bytes(&encode(&img)).unwrap();
    assert_eq!((thumb.width, thumb.height), (360, 50));
    assert!(thumb.rgba.chunks(4).all(|p| p == [10, 200, 30, 255]));
}

#[test]
fn thumbnail_of_a_flat_image_fits_its_target() {
    // Target 360 by 1; the height limits the scale, so the width shrinks too.
    let thumb = thumbnail_from_bytes(&encode(&patterned(1000, 5))).unwrap();
    assert_eq!(thumbnail_target(1000, 5), Some((360, 1)));
    assert_eq!((thumb.width, thumb.height), (200, 1));
    assert!(thumb.width <= 360);
}

#[test]
fn conversion_routes() {
    assert_eq!(conversion_route(FileCategory::Document, "txt", false), ConvertRoute::PdfToText);
    assert_eq!(conversion_route(FileCategory::Document, "png", false), ConvertRoute::PdfToImages);
    assert_eq!(conversion_route(FileCategory::Office, "pdf", false), ConvertRoute::Office);
    assert_eq!(conversion_route(FileCategory::Media, "pdf", false), ConvertRoute::ImageToPdf);
    assert_eq!(conversion_route(FileCategory::Media, "mp3", true), ConvertRoute::TranscodeAudio);
    assert_eq!(conversion_route(FileCategory::Media, "mp4", false), ConvertRoute::TranscodeMedia);
    assert_eq!(converted_file_name(Some("clip"), "mp4"), "clip_convertido.mp4");
    assert_eq!(converted_file_name(None, "mp3"), "convertido_convertido.mp3");
}

#[test]
fn data_folder_steps() {
    assert_eq!(data_dir_step(true, true), DataDirStep::Use(DataFolder::Current));
    assert_eq!(data_dir_step(false, true), DataDirStep::RenameLegacy);
    assert_eq!(data_dir_step(false, false), DataDirStep::Use(DataFolder::Current));
    assert_eq!(after_rename(true), DataFolder::Current);
    assert_eq!(after_rename(false), DataFolder::Legacy);
}

/// Two start-ups in a row on a simulated disk: the same folder both times.
fn start_up(disk: &mut (bool, bool), rename_works: bool) -> DataFolder {
    match data_dir_step(disk.0, disk.1) {
        DataDirStep::Use(f) => f,
        DataDirStep::RenameLegacy => {
            if rename_works {
                *disk = (true, false);
            }
            after_rename(rename_works)
        }
    }
}

#[test]
fn data_folder_is_idempotent() {
    for &(cur, leg) in &[(true, true), (true, false), (false, true), (false, false)] {
        for &works in &[true, false] {
            let mut disk = (cur, leg);
            let first = start_up(&mut disk, works);
            let after_first = disk;
            let second = start_up(&mut disk, works);
            assert_eq!(first, second);
            assert_eq!(disk, after_first);
        }
    }
    let mut disk = (false, true);
    assert_eq!(start_up(&mut disk, true), DataFolder::Current);
    assert_eq!(disk, (true, false));
}
