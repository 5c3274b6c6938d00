use std::cmp::Ordering;

use video_tagger::config::{compute_digit_count, format_video_name, parse_video_name, sanitize_filename, VideoFile};
use video_tagger::media::duration_field;
use video_tagger::natord::{compare, compare_ignore_case};
use video_tagger::paths::{
    cache_dir, config_path, folder_progress_path, generate_identifier, identifier_from_seed, logs_dir, models_dir, path_name,
    resolve_name_conflict, simple_hash,
    tag_library_path,
};
use video_tagger::progress::{
    count_processed, detect_identifier_from_filenames, detect_progress_from_filenames, init_progress,
    init_progress_for_folder, is_processed, mark_processed, resume_index,
};
use video_tagger::scanner::{sort_videos_by_name, video_extension};

fn video(name: &str) -> VideoFile {
    VideoFile { path: format!("/videos/{}.mp4", name), filename: name.to_string(), extension: "mp4".to_string(), size: 0 }
}

fn strings(items: &[&str]) -> Vec<String> {
    items.iter().map(|s| s.to_string()).collect()
}

#[test]
fn natural_order_reads_numbers_as_numbers() {
    assert_eq!(compare("file2", "file10"), Ordering::Less);
    assert_eq!(compare("file10", "file2"), Ordering::Greater);
    assert_eq!(compare("a1b", "a1b"), Ordering::Equal);
    assert_eq!(compare("abc", "abd"), Ordering::Less);
    assert_eq!(compare("ab", "abc"), Ordering::Less);
    assert_eq!(compare("a01", "a1"), Ordering::Greater);
}

#[test]
fn names_without_digits_compare_character_by_character() {
    assert_eq!(compare("ab", "ab"), Ordering::Equal);
    assert_eq!(compare("abz", "aca"), Ordering::Less);
    assert_eq!(compare("b", "abc"), Ordering::Greater);
    assert_eq!(compare("", "a"), Ordering::Less);
    assert_eq!(compare("Z", "a"), Ordering::Less);
}

#[test]
fn numbers_compare_by_value() {
    for (n, m) in [(0u64, 0u64), (9, 10), (100, 99), (7, 7), (u64::MAX, 1)] {
        assert_eq!(compare(&n.to_string(), &m.to_string()), n.cmp(&m));
    }
}

#[test]
fn natural_order_ignores_case_when_asked() {
    assert_eq!(compare_ignore_case("ABC", "abd"), Ordering::Less);
    assert_eq!(compare_ignore_case("Video2", "video10"), Ordering::Less);
    assert_eq!(compare_ignore_case("X", "x"), Ordering::Equal);
    assert_eq!(compare("B", "a"), Ordering::Less);
}

#[test]
fn natural_order_overflowing_numbers_count_as_zero() {
    assert_eq!(compare("a99999999999999999999", "a1"), Ordering::Less);
}

#[test]
fn sanitize_drops_forbidden_characters() {
    assert_eq!(sanitize_filename("a/b\\c:d*e?f\"g<h>i|j"), "abcdefghij");
    assert_eq!(sanitize_filename("风景 1"), "风景 1");
}

#[test]
fn digit_count_steps_at_powers_of_ten() {
    assert_eq!(compute_digit_count(0), 1);
    assert_eq!(compute_digit_count(9), 1);
    assert_eq!(compute_digit_count(10), 2);
    assert_eq!(compute_digit_count(99), 2);
    assert_eq!(compute_digit_count(100), 3);
    assert_eq!(compute_digit_count(9999), 4);
    assert_eq!(compute_digit_count(10000), 5);
    assert_eq!(compute_digit_count(1_000_000), 5);
}

#[test]
fn format_video_name_keeps_or_drops_the_old_name() {
    let labels = strings(&["风景", "清晰"]);
    assert_eq!(format_video_name("ab12", 0, 3, &labels, true, "holiday", "mp4", false), "[ab12]001[★][风景][清晰]holiday.mp4");
    assert_eq!(format_video_name("ab12", 41, 2, &labels, false, "holiday", "mkv", true), "[ab12]42[风景][清晰].mkv");
    assert_eq!(format_video_name("ab12", 9, 1, &[], false, "x", "mp4", false), "[ab12]10x.mp4");
}

#[test]
fn parse_video_name_reads_back_a_formatted_name() {
    let labels = strings(&["风景", "清晰"]);
    let name = format_video_name("ab12", 6, 3, &labels, true, "", "mp4", true);
    let stem = name.strip_suffix(".mp4").unwrap();
    let parsed = parse_video_name(stem).unwrap();
    assert_eq!(parsed.identifier, "ab12");
    assert_eq!(parsed.index, 7);
    assert_eq!(parsed.labels, labels);
    assert!(parsed.starred);
    assert!(parse_video_name("holiday").is_none());
    assert!(parse_video_name("[ab12]x").is_none());
}

#[test]
fn paths_live_under_the_application_directory() {
    assert_eq!(cache_dir("/app"), "/app/cache");
    assert_eq!(config_path("/app"), "/app/video_tagger_config.json");
    assert_eq!(tag_library_path("/app"), "/app/tag_library.json");
    assert_eq!(models_dir("/app"), "/app/models");
    assert_eq!(logs_dir("/app"), "/app/logs");
    let p = folder_progress_path("/app", "/videos");
    assert_eq!(p, format!("/app/progress_{}.json", simple_hash("/videos")));
}

#[test]
fn simple_hash_is_sixteen_hex_digits() {
    let h = simple_hash("/videos");
    assert_eq!(h.len(), 16);
    assert!(h.chars().all(|c| c.is_ascii_hexdigit() && !c.is_ascii_uppercase()));
    assert_eq!(h, simple_hash("/videos"));
}

#[test]
fn identifier_from_seed_takes_four_hash_digits() {
    let id = identifier_from_seed(123456789);
    assert_eq!(id, simple_hash("123456789")[..4].to_string());
    assert_eq!(identifier_from_seed(-5), simple_hash("-5")[..4].to_string());
}

#[test]
fn path_name_is_the_last_component() {
    assert_eq!(path_name("/a/b/c.mp4"), "c.mp4");
    assert_eq!(path_name("/"), "/");
}

#[test]
fn progress_detects_the_most_common_identifier() {
    let videos = vec![video("[aaaa]1[x]"), video("[bbbb]2"), video("[bbbb]5[y]"), video("plain")];
    assert_eq!(detect_identifier_from_filenames(&videos), Some("bbbb".to_string()));
    assert_eq!(detect_progress_from_filenames(&videos, "bbbb"), Some((5, 4)));
    assert_eq!(detect_progress_from_filenames(&videos, "cccc"), None);
    let tie = vec![video("[aaaa]1"), video("[bbbb]1")];
    assert_eq!(detect_identifier_from_filenames(&tie), Some("bbbb".to_string()));
    assert_eq!(detect_identifier_from_filenames(&[video("plain")]), None);
}

#[test]
fn progress_of_a_new_and_of_a_known_folder() {
    let videos = vec![video("[bbbb]2"), video("[bbbb]5[y]"), video("plain")];
    let fresh = init_progress(&videos, "bbbb");
    assert_eq!((fresh.identifier.as_str(), fresh.digit_count, fresh.last_processed, fresh.video_count), ("bbbb", 1, 5, 3));
    let none = init_progress_for_folder(None, &[video("plain")], "zzzz");
    assert_eq!((none.identifier.as_str(), none.last_processed), ("zzzz", 0));
    let mut saved = fresh.clone();
    saved.last_processed = 7;
    saved.digit_count = 3;
    let again = init_progress_for_folder(Some(saved), &videos, "zzzz");
    assert_eq!((again.identifier.as_str(), again.digit_count, again.last_processed, again.video_count), ("bbbb", 3, 7, 3));
}

#[test]
fn processed_videos_carry_the_identifier() {
    let videos = vec![video("[bbbb]2"), video("[aaaa]5"), video("plain")];
    assert_eq!(count_processed(&videos, "bbbb"), 1);
    assert!(is_processed(&videos, 0, "bbbb"));
    assert!(!is_processed(&videos, 1, "bbbb"));
    assert!(!is_processed(&videos, 9, "bbbb"));
}

#[test]
fn progress_moves_forward_only() {
    let mut p = init_progress(&[video("a")], "abcd");
    mark_processed(&mut p, 4);
    assert_eq!(p.last_processed, 5);
    mark_processed(&mut p, 1);
    assert_eq!(p.last_processed, 5);
    assert_eq!(resume_index(&Some(p.clone()), 3), Some(2));
    assert_eq!(resume_index(&Some(p), 10), Some(5));
    assert_eq!(resume_index(&None, 10), Some(0));
    assert_eq!(resume_index(&None, 0), None);
}

#[test]
fn videos_sort_in_natural_order() {
    let mut videos = vec![video("Clip10"), video("clip2"), video("b"), video("clip1")];
    sort_videos_by_name(&mut videos);
    let names: Vec<&str> = videos.iter().map(|v| v.filename.as_str()).collect();
    assert_eq!(names, vec!["b", "clip1", "clip2", "Clip10"]);
}

#[test]
fn video_extensions_are_recognised_in_any_case() {
    assert_eq!(video_extension("MP4"), (true, "mp4".to_string()));
    assert_eq!(video_extension("ogv"), (true, "ogv".to_string()));
    assert_eq!(video_extension("txt"), (false, "txt".to_string()));
}

#[test]
fn duration_is_read_from_the_ffmpeg_report() {
    let report = "Input #0, mov,mp4, from 'a.mp4':\n  Metadata:\n  Duration: 00:01:30.50, start: 0.000000, bitrate: 1 kb/s\n";
    assert_eq!(duration_field(report), Some("00:01:30.50".to_string()));
    assert_eq!(duration_field("no duration here\n"), None);
    assert_eq!(duration_field("xDuration: 5\r\n  Duration:\n Duration: 12:00:00,,\r\n"), Some("12:00:00".to_string()));
    assert_eq!(duration_field("Duration: 1\nDuration: 2"), Some("1".to_string()));
}

#[test]
fn name_conflicts_get_the_first_free_counter() {
    let taken = vec!["/v/clip.mp4".to_string(), "/v/clip[1].mp4".to_string(), "/v/clip[3].mp4".to_string()];
    let check = |q: &str| taken.iter().any(|t| t == q);
    let mut p = "/v/clip.mp4".to_string();
    resolve_name_conflict(&mut p, check);
    assert_eq!(p, "/v/clip[2].mp4");
    let mut free = "/v/other.mp4".to_string();
    resolve_name_conflict(&mut free, check);
    assert_eq!(free, "/v/other.mp4");
    let mut bare = "clip.mp4".to_string();
    resolve_name_conflict(&mut bare, |q: &str| q == "clip.mp4");
    assert_eq!(bare, "clip[1].mp4");
}

#[test]
fn generated_identifiers_come_from_the_time() {
    assert_eq!(generate_identifier(Some(123456789)), identifier_from_seed(123456789));
    assert_eq!(generate_identifier(None), identifier_from_seed(0));
    assert_eq!(generate_identifier(Some(5)).len(), 4);
}
