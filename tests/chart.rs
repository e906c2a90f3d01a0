use mosu::chart::{parse_osu_content, OsuSection, ParsedChart, TimeRange};
use mosu::header::parse_header_creator_and_version;
use mosu::number::{parse_micros, parse_micros_or};
use mosu::text::{
    csv_field, csv_field_count, eq_ascii_ci, memchr_comma, parse_i32, trim_slice,
};
use mosu::chart::is_image_ext;

fn parse(s: &str) -> ParsedChart {
    parse_osu_content(s.as_bytes())
}

#[test]
fn slider_duration_from_uninherited_point() {
    let c = parse(
        "[Difficulty]\nSliderMultiplier:1.4\n\n[TimingPoints]\n0,500,4,2,0,100,1,0\n\n[HitObjects]\n256,192,1000,2,0,B|300:200,2,280\n",
    );
    assert_eq!(c.hit_starts, vec![1000]);
    assert_eq!(c.hit_ends, vec![3000]);
}

#[test]
fn slider_duration_under_speed_change() {
    let c = parse(
        "[Difficulty]\nSliderMultiplier:1.4\n[TimingPoints]\n0,500,4,2,0,100,1,0\n500,-50,4,2,0,100,0,0\n2000,-25,4,2,0,100,0,0\n[HitObjects]\n256,192,1000,2,0,B|300:200,1,140\n",
    );
    // speed 2 at 1000 ms: 140 / (1.4 * 100 * 2) * 500 = 250
    assert_eq!(c.hit_ends, vec![1250]);
}

#[test]
fn slider_defaults_without_timing_points() {
    let c = parse("[HitObjects]\n0,0,100,2,0,L|1:1,1,100\n");
    // multiplier 1, beat 500 ms: 100 / 100 * 500 = 500
    assert_eq!(c.hit_ends, vec![600]);
}

#[test]
fn timing_points_are_read_in_file_order() {
    let c = parse(
        "[TimingPoints]\n2000,250,4,2,0,100,1,0\n0,500,4,2,0,100,1,0\n[HitObjects]\n0,0,1000,2,0,L|1:1,1,100\n",
    );
    // the first point is later than the slider, so the scan stops there
    assert_eq!(c.hit_ends, vec![1500]);
}

#[test]
fn previous_slider_is_extended_to_next_start() {
    let c = parse("[HitObjects]\n0,0,1000,2,0,L|1:1,1,0\n0,0,2000,1,0\n");
    assert_eq!(c.hit_starts, vec![1000, 2000]);
    assert_eq!(c.hit_ends, vec![2000, 2000]);
}

#[test]
fn circle_after_circle_is_not_extended() {
    let c = parse("[HitObjects]\n0,0,1000,1,0\n0,0,2000,1,0\n");
    assert_eq!(c.hit_ends, vec![1000, 2000]);
}

#[test]
fn spinner_and_hold_end_times() {
    let c = parse(
        "[HitObjects]\n256,192,3000,12,0,4000,0:0:0:0:\n64,192,5000,128,0,6500:0:0:0:0:\n64,192,7000,128,0\n",
    );
    assert_eq!(c.hit_starts, vec![3000, 5000, 7000]);
    assert_eq!(c.hit_ends, vec![4000, 6500, 7000]);
}

#[test]
fn end_is_never_before_start() {
    let c = parse("[HitObjects]\n256,192,3000,8,0,100\n1,2\n");
    assert_eq!(c.hit_starts, vec![3000]);
    assert_eq!(c.hit_ends, vec![3000]);
}

#[test]
fn metadata_and_general_fields() {
    let c = parse(
        "osu file format v14\n\n[General]\nAudioFilename: audio.mp3\nPreviewTime: 1234\nMode: 3\n\n[Metadata]\ntitle:Song\nArtist: Someone \nCreator:BlueDragon\nVersion:Insane\nBeatmapSetID:12345\n",
    );
    let m = &c.metadata;
    assert_eq!(m.title, b"Song".to_vec());
    assert_eq!(m.artist, b"Someone".to_vec());
    assert_eq!(m.creator, b"BlueDragon".to_vec());
    assert_eq!(m.version, b"Insane".to_vec());
    assert_eq!(m.audio, b"audio.mp3".to_vec());
    assert_eq!(m.preview_time, 1234);
    assert_eq!(m.mode, 3);
    assert_eq!(m.beatmap_set_id, b"https://osu.ppy.sh/beatmapsets/12345".to_vec());
}

#[test]
fn non_positive_or_textual_set_id_is_kept() {
    let c = parse("[Metadata]\nBeatmapSetID:-1\n");
    assert_eq!(c.metadata.beatmap_set_id, b"-1".to_vec());
    let c = parse("[Metadata]\nBeatmapSetID: abc \n");
    assert_eq!(c.metadata.beatmap_set_id, b"abc".to_vec());
}

#[test]
fn normalization_placeholders_and_mode_clamp() {
    let c = parse("[General]\nMode: 7\nPreviewTime: x\n");
    let m = &c.metadata;
    assert_eq!(m.title, b"Unknown Title".to_vec());
    assert_eq!(m.artist, b"Unknown Artist".to_vec());
    assert_eq!(m.creator, b"Unknown Creator".to_vec());
    assert_eq!(m.version, b"Unknown Version".to_vec());
    assert_eq!(m.beatmap_set_id, b"Unknown".to_vec());
    assert_eq!(m.mode, 3);
    assert_eq!(m.preview_time, -1);
    let c = parse("[General]\nMode: -2\n");
    assert_eq!(c.metadata.mode, 0);
}

#[test]
fn first_background_event_wins() {
    let c = parse(
        "[Events]\n0,0,\"notes.txt\",0,0\n0,0,\"bg.jpg\",0,0\n0,0,\"other.png\",0,0\n",
    );
    assert_eq!(c.metadata.background, b"bg.jpg".to_vec());
}

#[test]
fn break_periods_kept_only_when_valid() {
    let c = parse("[Events]\n2,100,200\nBreak,300,250\nbreak,400,900\n2,-5,10\n2,1\n");
    assert_eq!(
        c.break_periods,
        vec![TimeRange { start: 100, end: 200 }, TimeRange { start: 400, end: 900 }]
    );
}

#[test]
fn bookmarks_drop_unreadable_entries() {
    let c = parse("[Editor]\nBookmarks: 100, x ,300,,400\n");
    assert_eq!(c.bookmarks, vec![100, 300, 400]);
}

#[test]
fn comments_blank_lines_and_unknown_sections_are_ignored() {
    let c = parse(
        "// comment\n\n[Colours]\nTitle:nope\n[metadata]\n// Title:no\n  Title : Yes  \r\n[Unknown]\nTitle:later\n",
    );
    assert_eq!(c.metadata.title, b"Yes".to_vec());
}

#[test]
fn well_formed_on_garbage() {
    let c = parse("[HitObjects]\n,,,\n1,2,x,y,z\n[Events]\n2,9,3\n[General]\nMode:99\n");
    assert!(c.metadata.mode >= 0 && c.metadata.mode <= 3);
    assert_eq!(c.hit_starts.len(), c.hit_ends.len());
    for i in 0..c.hit_starts.len() {
        assert!(c.hit_ends[i] >= c.hit_starts[i]);
    }
    for b in &c.break_periods {
        assert!(b.start >= 0 && b.end > b.start);
    }
    assert!(!c.metadata.title.is_empty());
}

#[test]
fn parsing_is_repeatable() {
    let text = "[Metadata]\nTitle:A\n[HitObjects]\n0,0,10,2,0,L|1:1,1,50\n0,0,20,1,0\n";
    let a = parse(text);
    let b = parse(text);
    assert_eq!(a.hit_starts, b.hit_starts);
    assert_eq!(a.hit_ends, b.hit_ends);
    assert_eq!(a.metadata.title, b.metadata.title);
    assert_eq!(a.bookmarks, b.bookmarks);
}

#[test]
fn header_extractor_takes_last_value_in_metadata() {
    let text = "[Metadata]\nCreator:First\nVersion:Hard\nCreator:Second\n";
    let (c, v) = parse_header_creator_and_version(text.as_bytes());
    assert_eq!(c, b"Second".to_vec());
    assert_eq!(v, b"Hard".to_vec());
    let full = parse_osu_content(text.as_bytes());
    assert_eq!(full.metadata.creator, c);
    assert_eq!(full.metadata.version, v);
}

#[test]
fn header_extractor_stops_after_leaving_metadata() {
    let (c, v) = parse_header_creator_and_version(
        b"[Metadata]\nCreator:A\nVersion:B\n[Difficulty]\nHPDrainRate:5\n[Metadata]\nCreator:Z\n",
    );
    assert_eq!(c, b"A".to_vec());
    assert_eq!(v, b"B".to_vec());
}

#[test]
fn header_extractor_tolerates_truncation() {
    let (c, v) = parse_header_creator_and_version(b"[Metadata]\nCreator:Someone\nVers");
    assert_eq!(c, b"Someone".to_vec());
    assert_eq!(v, Vec::<u8>::new());
}

#[test]
fn header_extractor_ignores_other_sections() {
    let (c, v) = parse_header_creator_and_version(b"[General]\nCreator:No\n[Metadata]\nVersion:Easy\n");
    assert_eq!(c, Vec::<u8>::new());
    assert_eq!(v, b"Easy".to_vec());
}

#[test]
fn section_headers_case_insensitive() {
    assert_eq!(OsuSection::from_header(b"hitobjects"), OsuSection::HitObjects);
    assert_eq!(OsuSection::from_header(b"TimingPoints"), OsuSection::TimingPoints);
    assert_eq!(OsuSection::from_header(b"Colours"), OsuSection::Other);
}

#[test]
fn csv_helpers() {
    assert_eq!(csv_field(b"a,b,,d", 0), Some(&b"a"[..]));
    assert_eq!(csv_field(b"a,b,,d", 2), Some(&b""[..]));
    assert_eq!(csv_field(b"a,b,,d", 3), Some(&b"d"[..]));
    assert_eq!(csv_field(b"a,b,,d", 4), None);
    assert_eq!(csv_field_count(b""), 0);
    assert_eq!(csv_field_count(b"a"), 1);
    assert_eq!(csv_field_count(b"a,b,,d"), 4);
    assert_eq!(memchr_comma(b"ab,c", 0), Some(2));
    assert_eq!(memchr_comma(b"ab,c", 3), None);
}

#[test]
fn text_helpers() {
    assert!(eq_ascii_ci(b"MetaData", b"metadata"));
    assert!(!eq_ascii_ci(b"Meta", b"metadata"));
    assert_eq!(trim_slice(b"  x y \t\r"), &b"x y"[..]);
    assert_eq!(parse_i32(b"-42"), Some(-42));
    assert_eq!(parse_i32(b"+7"), Some(7));
    assert_eq!(parse_i32(b"2147483647"), Some(i32::MAX));
    assert_eq!(parse_i32(b"-2147483648"), Some(i32::MIN));
    assert_eq!(parse_i32(b"2147483648"), None);
    assert_eq!(parse_i32(b"1.5"), None);
    assert_eq!(parse_i32(b"-"), None);
}

#[test]
fn decimal_fields_in_millionths() {
    assert_eq!(parse_micros(b"1.4"), Some(1_400_000));
    assert_eq!(parse_micros(b"-76.9230769230769"), Some(-76_923_076));
    assert_eq!(parse_micros(b".5"), Some(500_000));
    assert_eq!(parse_micros(b"3."), Some(3_000_000));
    assert_eq!(parse_micros(b"."), None);
    assert_eq!(parse_micros(b"1e3"), None);
    assert_eq!(parse_micros_or(b"x", 7), 7);
}

#[test]
fn image_extensions() {
    assert!(is_image_ext(b"bg.JPG"));
    assert!(is_image_ext(b"a.jpeg"));
    assert!(is_image_ext(b"a.WebP"));
    assert!(is_image_ext(b"a.bmp"));
    assert!(!is_image_ext(b"video.avi"));
    assert!(!is_image_ext(b"png"));
}
