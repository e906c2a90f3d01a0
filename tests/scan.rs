use mosu::batch::{chunk_ranges, worker_count, BatchBuffer, ScanProgress, BATCH_SIZE};
use mosu::media::{get_mime_type, image_data_url, is_web_url};
use mosu::order::sort_scan_results;
use mosu::remote::{release_version, user_id_from_input};
use mosu::scan::{
    file_matches_mapper, header_matches_filter, is_chart_file, is_unchanged, parse_filter,
    plan_read, scan_single_osu_file, FileOutcome, ReadPlan, ScanResult,
};

const CHART: &[u8] = b"[Metadata]\nCreator:BlueDragon\nVersion:Insane\n[HitObjects]\n0,0,100,1,0\n";

fn result(path: &str) -> ScanResult {
    ScanResult { path: path.as_bytes().to_vec(), mtime: 0, chart: None }
}

#[test]
fn filter_matches_substring_ignoring_case() {
    let terms = parse_filter(b"dragon");
    assert!(file_matches_mapper(&terms, b"BlueDragon", b"Insane"));
    let terms = parse_filter(b"red");
    assert!(!file_matches_mapper(&terms, b"BlueDragon", b"Insane"));
    let terms = parse_filter(b"nope, INSANE");
    assert!(file_matches_mapper(&terms, b"BlueDragon", b"Insane"));
}

#[test]
fn filter_terms_are_trimmed_lowered_and_non_empty() {
    assert_eq!(parse_filter(b" A , ,b,"), vec![b"a".to_vec(), b"b".to_vec()]);
    assert!(parse_filter(b"").is_empty());
    assert!(parse_filter(b" , ").is_empty());
}

#[test]
fn cache_window_is_half_a_millisecond() {
    assert!(is_unchanged(Some(1_000_000), 1_000_400));
    assert!(is_unchanged(Some(1_000_400), 1_000_000));
    assert!(!is_unchanged(Some(1_000_000), 1_000_500));
    assert!(!is_unchanged(None, 1_000_000));
}

#[test]
fn unchanged_file_has_no_payload() {
    let terms = parse_filter(b"");
    assert_eq!(plan_read(Some(1000), 1200, &terms), ReadPlan::Nothing);
    match scan_single_osu_file(b"/a.osu", 1200, Some(1000), &terms, None) {
        FileOutcome::Included(r) => {
            assert!(r.chart.is_none());
            assert_eq!(r.path, b"/a.osu".to_vec());
            assert_eq!(r.mtime, 1200);
        }
        _ => panic!("expected inclusion"),
    }
}

#[test]
fn changed_file_is_parsed() {
    let terms = parse_filter(b"");
    assert_eq!(plan_read(Some(1000), 1500, &terms), ReadPlan::Full);
    match scan_single_osu_file(b"/a.osu", 1500, Some(1000), &terms, Some(CHART)) {
        FileOutcome::Included(r) => {
            let c = r.chart.expect("payload");
            assert_eq!(c.metadata.creator, b"BlueDragon".to_vec());
            assert_eq!(c.hit_starts, vec![100]);
        }
        _ => panic!("expected inclusion"),
    }
}

#[test]
fn filtered_and_unreadable_files_are_excluded() {
    let terms = parse_filter(b"red");
    assert_eq!(plan_read(Some(1000), 1000, &terms), ReadPlan::Header);
    assert!(matches!(
        scan_single_osu_file(b"/a.osu", 1000, Some(1000), &terms, Some(CHART)),
        FileOutcome::ExcludedByFilter
    ));
    assert!(matches!(
        scan_single_osu_file(b"/a.osu", 1000, Some(1000), &terms, None),
        FileOutcome::ExcludedByIoError
    ));
    assert!(matches!(
        scan_single_osu_file(b"/a.osu", 9000, None, &terms, Some(CHART)),
        FileOutcome::ExcludedByFilter
    ));
    let terms = parse_filter(b"dragon");
    match scan_single_osu_file(b"/a.osu", 1000, Some(1000), &terms, Some(CHART)) {
        FileOutcome::Included(r) => assert!(r.chart.is_none()),
        _ => panic!("expected inclusion"),
    }
    assert!(header_matches_filter(&terms, Some(CHART)));
    assert!(!header_matches_filter(&terms, None));
}

#[test]
fn streaming_batches_of_one_hundred_twenty() {
    let mut buf = BatchBuffer::new();
    let mut progress = ScanProgress::new();
    let mut sizes = Vec::new();
    let mut indices = Vec::new();
    for i in 0..120 {
        if let Some(b) = buf.push(result(&format!("/f{i}.osu"))) {
            indices.push(progress.claim(b.len() as u64));
            sizes.push(b.len());
        }
    }
    if let Some(b) = buf.finish() {
        indices.push(progress.claim(b.len() as u64));
        sizes.push(b.len());
    }
    assert_eq!(sizes, vec![50, 50, 20]);
    assert!(sizes.iter().all(|s| *s <= BATCH_SIZE));
    assert_eq!(sizes.iter().sum::<usize>(), 120);
    assert_eq!(indices, vec![0, 1, 2]);
    assert_eq!(progress.emitted, 120);
}

#[test]
fn exact_multiple_leaves_no_remainder() {
    let mut buf = BatchBuffer::new();
    let mut n = 0;
    for i in 0..100 {
        if buf.push(result(&format!("/f{i}"))).is_some() {
            n += 1;
        }
    }
    assert_eq!(n, 2);
    assert!(buf.finish().is_none());
}

#[test]
fn sorted_output_is_strictly_ascending() {
    let v = vec![result("/b"), result("/a/z"), result("/c"), result("/a"), result("/b")];
    let r = sort_scan_results(v);
    let paths: Vec<Vec<u8>> = r.iter().map(|x| x.path.clone()).collect();
    assert_eq!(paths, vec![b"/a".to_vec(), b"/a/z".to_vec(), b"/b".to_vec(), b"/c".to_vec()]);
}

#[test]
fn worker_partition() {
    assert_eq!(worker_count(1, 100), 4);
    assert_eq!(worker_count(8, 100), 16);
    assert_eq!(worker_count(64, 100), 32);
    assert_eq!(worker_count(8, 3), 3);
    assert_eq!(chunk_ranges(10, 4), vec![(0, 3), (3, 6), (6, 9), (9, 10)]);
    assert_eq!(chunk_ranges(8, 4), vec![(0, 2), (2, 4), (4, 6), (6, 8)]);
    assert!(chunk_ranges(0, 4).is_empty());
}

#[test]
fn chart_files_by_extension() {
    assert!(is_chart_file(b"/songs/x/map [Hard].OSU"));
    assert!(!is_chart_file(b"/songs/x/audio.mp3"));
    assert!(!is_chart_file(b"/songs/.osu"));
}

#[test]
fn mime_types_and_data_url() {
    assert_eq!(get_mime_type(b"/x/bg.JPEG"), "image/jpeg");
    assert_eq!(get_mime_type(b"/x/bg.png"), "image/png");
    assert_eq!(get_mime_type(b"/x/bg.webp"), "image/webp");
    assert_eq!(get_mime_type(b"/x/bg.bmp"), "application/octet-stream");
    assert_eq!(get_mime_type(b"/x.d/bg"), "application/octet-stream");
    let url = image_data_url(b"/x/a.png", b"hi").unwrap();
    assert_eq!(url, b"data:image/png;base64,aGk=".to_vec());
    let url = image_data_url(b"/x/a.gif", b"").unwrap();
    assert_eq!(url, b"data:image/gif;base64,".to_vec());
}

#[test]
fn web_urls() {
    assert!(is_web_url(b"https://osu.ppy.sh"));
    assert!(is_web_url(b"http://x"));
    assert!(!is_web_url(b"file:///etc"));
    assert!(!is_web_url(b"http:/"));
}

#[test]
fn release_tags_and_user_ids() {
    assert_eq!(release_version(b"v1.2.3"), &b"1.2.3"[..]);
    assert_eq!(release_version(b"vv2"), &b"2"[..]);
    assert_eq!(release_version(b"1.0"), &b"1.0"[..]);
    assert_eq!(user_id_from_input(b"https://osu.ppy.sh/users/123?mode=osu"), Some(b"123".to_vec()));
    assert_eq!(user_id_from_input(b"peppy"), Some(b"peppy".to_vec()));
    assert_eq!(user_id_from_input(b"https://osu.ppy.sh/users/"), None);
    assert_eq!(user_id_from_input(b""), None);
}

#[test]
fn capitalised_filter_term_matches_full_parse() {
    let terms = parse_filter(b"Dragon");
    let content: &[u8] = b"[Metadata]\nCreator: BlueDragon\nVersion: Insane\n";
    match scan_single_osu_file(b"/only.osu", 5000, None, &terms, Some(content)) {
        FileOutcome::Included(r) => {
            assert_eq!(r.chart.unwrap().metadata.creator, b"BlueDragon".to_vec());
        }
        _ => panic!("expected inclusion"),
    }
    let terms = parse_filter(b"red");
    assert!(matches!(
        scan_single_osu_file(b"/only.osu", 5000, None, &terms, Some(content)),
        FileOutcome::ExcludedByFilter
    ));
}
