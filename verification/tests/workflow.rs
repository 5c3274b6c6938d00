use video_tagger::ai::{run_stream_timeout, AiAnalysisResult};
use video_tagger::audio::AudioPlayer;
use video_tagger::batch::{AiBatch, AiBatchState, BatchStep};
use video_tagger::scanner::sort_videos_by_name;
use video_tagger::cache::{range_key, screenshot_range_key, ScreenshotCache};
use video_tagger::loader::{RangeRequest, ResultEffect, ScreenshotLoader};
use video_tagger::overview::sorted_filtered_indices;
use video_tagger::thumbs::ThumbnailQueue;
use video_tagger::config::parse_video_name;
use video_tagger::session::{next_video, KeyEffect, NextVideo, ScreenshotResult, SortMode, SortingKey, SortingSession, ThumbnailResult};
use video_tagger::tags::{TagLibrary, Timestamp};

fn categories() -> Vec<Vec<String>> {
    vec![
        vec!["风景".to_string(), "人文".to_string()],
        vec!["清晰".to_string(), "模糊".to_string(), "老电影".to_string()],
    ]
}

#[test]
fn labelling_walks_through_the_categories_and_the_star() {
    let cats = categories();
    let mut s = SortingSession::new();
    assert_eq!(s.handle_key(SortingKey::Confirm, &cats), KeyEffect::Chosen { finalize: false });
    assert_eq!(s.current_labels, vec!["风景"]);
    assert_eq!(s.active_category_index, 1);
    assert_eq!(s.handle_key(SortingKey::Number(1), &cats), KeyEffect::Chosen { finalize: false });
    assert_eq!(s.current_labels, vec!["风景", "模糊"]);
    assert!(s.is_star_category(&cats));
    assert_eq!(s.current_category_tags(&cats), vec!["不打星", "星标"]);
    assert_eq!(s.handle_key(SortingKey::TagRight, &cats), KeyEffect::Nothing);
    assert_eq!(s.handle_key(SortingKey::Confirm, &cats), KeyEffect::Chosen { finalize: true });
    assert!(s.is_starred);
    assert_eq!(s.final_labels(), vec!["风景", "模糊"]);
    assert!(s.should_rename());
}

#[test]
fn number_keys_beyond_the_tags_do_nothing() {
    let cats = categories();
    let mut s = SortingSession::new();
    assert_eq!(s.handle_key(SortingKey::Number(5), &cats), KeyEffect::Nothing);
    assert!(s.current_labels.is_empty());
    assert_eq!(s.handle_key(SortingKey::ScreensForward, &cats), KeyEffect::ScreensForward);
    assert_eq!(s.handle_key(SortingKey::PlayAudio, &cats), KeyEffect::PlayAudio);
}

#[test]
fn undo_and_redo_a_label() {
    let cats = categories();
    let mut s = SortingSession::new();
    s.handle_key(SortingKey::Confirm, &cats);
    s.handle_key(SortingKey::Confirm, &cats);
    assert_eq!(s.current_labels, vec!["风景", "清晰"]);
    s.handle_key(SortingKey::Undo, &cats);
    assert_eq!(s.current_labels, vec!["风景"]);
    assert_eq!(s.undone_labels, vec!["清晰"]);
    assert_eq!(s.active_category_index, 1);
    s.redo_label(&cats);
    assert_eq!(s.current_labels, vec!["风景", "清晰"]);
    assert!(s.undone_labels.is_empty());
}

#[test]
fn undo_in_the_star_category_takes_back_the_star_first() {
    let cats = categories();
    let mut s = SortingSession::new();
    s.is_starred = true;
    s.select_category(2, &cats);
    assert_eq!(s.selected_tag_index, 1);
    s.undo_label(&cats);
    assert!(!s.is_starred);
    assert_eq!(s.selected_tag_index, 0);
}

#[test]
fn a_label_is_not_used_by_two_categories() {
    let cats = vec![vec!["a".to_string()], vec!["a".to_string(), "b".to_string()]];
    let mut s = SortingSession::new();
    s.handle_key(SortingKey::Confirm, &cats);
    assert_eq!(s.active_category_index, 1);
    s.handle_key(SortingKey::Confirm, &cats);
    assert_eq!(s.current_labels, vec!["a"]);
}

#[test]
fn cursors_stay_in_range() {
    let cats = categories();
    let mut s = SortingSession::new();
    s.handle_key(SortingKey::ShotLeft, &cats);
    assert_eq!(s.selected_screenshot_index, 0);
    s.handle_key(SortingKey::ShotDown, &cats);
    assert_eq!(s.selected_screenshot_index, 5);
    s.handle_key(SortingKey::ShotRight, &cats);
    s.handle_key(SortingKey::ShotRight, &cats);
    s.handle_key(SortingKey::ShotRight, &cats);
    s.handle_key(SortingKey::ShotRight, &cats);
    s.handle_key(SortingKey::ShotRight, &cats);
    assert_eq!(s.selected_screenshot_index, 9);
    s.handle_key(SortingKey::ShotDown, &cats);
    assert_eq!(s.selected_screenshot_index, 9);
    s.handle_key(SortingKey::ShotUp, &cats);
    assert_eq!(s.selected_screenshot_index, 4);
    for _ in 0..5 {
        s.handle_key(SortingKey::CategoryDown, &cats);
    }
    assert_eq!(s.active_category_index, 2);
    s.handle_key(SortingKey::TagRight, &cats);
    s.handle_key(SortingKey::TagRight, &cats);
    assert_eq!(s.selected_tag_index, 1);
    s.handle_key(SortingKey::CategoryUp, &cats);
    assert_eq!(s.active_category_index, 1);
    assert_eq!(s.selected_tag_index, 0);
}

#[test]
fn a_named_video_brings_back_its_labels() {
    let cats = categories();
    let mut s = SortingSession::new();
    s.hydrate_labels(parse_video_name("[ab12]3[★][人文][老电影][人文]"), &cats);
    assert_eq!(s.current_labels, vec!["人文", "老电影"]);
    assert!(s.is_starred);
    assert_eq!(s.active_category_index, 2);
    assert_eq!(s.selected_tag_index, 1);
    s.select_category(1, &cats);
    assert_eq!(s.selected_tag_index, 2);
    s.hydrate_labels(None, &cats);
    assert!(s.current_labels.is_empty());
    assert_eq!(s.active_category_index, 0);
    s.reset_edit_state();
    assert!(!s.should_rename());
}

#[test]
fn blank_labels_are_left_out_of_the_name() {
    let cats = categories();
    let mut s = SortingSession::new();
    s.set_current_category_label("  ".to_string(), &cats);
    s.select_category(1, &cats);
    s.set_current_category_label("清晰".to_string(), &cats);
    assert_eq!(s.final_labels(), vec!["清晰"]);
}

#[test]
fn next_video_after_finishing() {
    assert_eq!(next_video(0, 3, false), NextVideo::Edit(1));
    assert_eq!(next_video(2, 3, false), NextVideo::Completed);
    assert_eq!(next_video(0, 3, true), NextVideo::Overview);
}

#[test]
fn audio_player_ignores_news_of_replaced_requests() {
    let mut p = AudioPlayer::new();
    assert!(!p.is_playing());
    let first = p.start_clip();
    assert!(p.is_playing());
    let second = p.start_clip();
    assert_ne!(first, second);
    assert!(!p.on_clip_ready(first, true));
    assert!(p.is_playing());
    assert!(p.on_clip_ready(second, true));
    p.on_playback_finished(first);
    assert!(p.is_playing());
    p.on_playback_finished(second);
    assert!(!p.is_playing());
}

#[test]
fn audio_player_stops_when_the_clip_fails_or_on_stop() {
    let mut p = AudioPlayer::new();
    let r = p.start_clip();
    assert!(!p.on_clip_ready(r, false));
    assert!(!p.is_playing());
    let r2 = p.start_clip();
    p.stop();
    assert!(!p.is_playing());
    assert!(!p.on_clip_ready(r2, true));
    assert!(!p.is_playing());
}

#[test]
fn screenshot_cache_keeps_ranges_and_evicts_the_oldest() {
    let mut cache = ScreenshotCache::new("/tmp/shots".to_string(), 1);
    assert_eq!(cache.video_dir("abc"), "/tmp/shots/abc");
    assert_eq!(cache.cached_screenshots("v1", "0_1000"), None);
    cache.insert_screenshots("v1", "0_1000", vec!["a.jpg".to_string()]);
    cache.insert_screenshots("v2", "0_1000", vec!["b.jpg".to_string()]);
    assert_eq!(cache.cached_screenshots("v1", "0_1000"), Some(vec!["a.jpg".to_string()]));
    assert_eq!(cache.cached_screenshots("v1", "5_1000"), None);
    cache.set_entry_size("v1", 600_000);
    cache.set_entry_size("v2", 600_000);
    assert_eq!(cache.current_size(), 1_200_000);
    assert_eq!(cache.evict_excess(), vec!["v2".to_string()]);
    assert_eq!(cache.current_size(), 600_000);
    assert_eq!(cache.cached_screenshots("v2", "0_1000"), None);
    assert_eq!(cache.entry_paths("v1"), vec!["a.jpg".to_string()]);
}

#[test]
fn storing_again_replaces_the_paths_of_that_range_only() {
    let mut cache = ScreenshotCache::new("/tmp/shots".to_string(), 1);
    cache.insert_screenshots("v1", "0_1000", vec!["a.jpg".to_string()]);
    cache.insert_screenshots("v1", "5_1000", vec!["b.jpg".to_string()]);
    cache.insert_screenshots("v1", "0_1000", vec!["c.jpg".to_string()]);
    assert_eq!(cache.cached_screenshots("v1", "0_1000"), Some(vec!["c.jpg".to_string()]));
    assert_eq!(cache.cached_screenshots("v1", "5_1000"), Some(vec!["b.jpg".to_string()]));
    assert_eq!(cache.cached_screenshots("v2", "0_1000"), None);
    assert_eq!(cache.entry_paths("v1"), vec!["c.jpg".to_string(), "b.jpg".to_string()]);
}

#[test]
fn video_hash_is_stable() {
    let h = ScreenshotCache::video_hash("/videos/a.mp4");
    assert_eq!(h.len(), 16);
    assert_eq!(h, ScreenshotCache::video_hash("/videos/a.mp4"));
}

#[test]
fn tag_library_adds_removes_and_counts() {
    let mut lib = TagLibrary::new();
    let t = Timestamp { secs: 100, nanos: 0 };
    lib.add_tag("  风/景 ", t);
    lib.add_tag("风景", t);
    lib.add_tag("   ", t);
    lib.add_tag("人文", t);
    assert_eq!(lib.names_in_saved_order(), vec!["风景", "人文"]);
    let later = Timestamp { secs: 200, nanos: 5 };
    lib.record_usage(&["人文".to_string(), "nope".to_string()], later);
    let entries = lib.entries_in_saved_order();
    assert_eq!(entries[1].use_count, 1);
    assert_eq!(entries[1].last_used, later);
    assert_eq!(entries[0].use_count, 0);
    lib.remove_tag("风景");
    assert_eq!(lib.names_in_saved_order(), vec!["人文"]);
}

fn named(name: &str, size: u64) -> video_tagger::config::VideoFile {
    video_tagger::config::VideoFile { path: format!("/v/{}.mp4", name), filename: name.to_string(), extension: "mp4".to_string(), size }
}

#[test]
fn overview_filters_by_name_and_sorts() {
    let videos = vec![named("Beach", 30), named("city", 10), named("beach night", 20), named("Forest", 20)];
    let times = vec![Some(5), None, Some(9), Some(5)];
    assert_eq!(sorted_filtered_indices(&videos, "", SortMode::Name, &times), vec![0, 2, 1, 3]);
    assert_eq!(sorted_filtered_indices(&videos, "BEACH", SortMode::Name, &times), vec![0, 2]);
    assert_eq!(sorted_filtered_indices(&videos, "", SortMode::Size, &times), vec![0, 2, 3, 1]);
    assert_eq!(sorted_filtered_indices(&videos, "", SortMode::Date, &times), vec![2, 0, 3, 1]);
    assert_eq!(sorted_filtered_indices(&videos, "zzz", SortMode::Date, &times), Vec::<usize>::new());
}

#[test]
fn range_keys_join_their_parts() {
    assert_eq!(range_key(0, 10000), "0_10000");
    assert_eq!(screenshot_range_key("abcd", 1200, 500), "abcd:1200:500");
}

#[test]
fn thumbnails_are_made_two_at_a_time_in_priority_order() {
    let mut q = ThumbnailQueue::new();
    q.queue_if_needed(4);
    q.queue_if_needed(5);
    q.queue_if_needed(4);
    q.queue_if_needed(6);
    assert_eq!(q.queue, vec![4, 5, 6]);
    q.prioritize(&[6, 9]);
    assert_eq!(q.queue, vec![6, 9, 4, 5]);
    assert_eq!(q.start_jobs(20), vec![6, 9]);
    assert_eq!(q.queue, vec![4, 5]);
    assert_eq!(q.start_jobs(20), Vec::<usize>::new());
    q.on_result(ThumbnailResult::Loaded { index: 6, size: [1, 1], rgba: vec![0, 0, 0, 0] });
    q.on_result(ThumbnailResult::Failed { index: 9, reason: "bad".to_string() });
    assert!(q.loaded.contains(&6));
    assert_eq!(q.errors.get(&9), Some(&"bad".to_string()));
    q.prioritize(&[6]);
    assert_eq!(q.queue, vec![4, 5]);
    assert_eq!(q.start_jobs(5), vec![4]);
    assert!(q.is_busy());
    q.forget(6);
    assert!(!q.loaded.contains(&6));
    q.clear();
    assert!(!q.is_busy());
}

#[test]
fn thumbnails_past_the_videos_use_up_their_turn() {
    let mut q = ThumbnailQueue::new();
    q.queue_if_needed(7);
    q.queue_if_needed(1);
    q.queue_if_needed(2);
    assert_eq!(q.start_jobs(3), vec![1]);
    assert_eq!(q.queue, vec![2]);
}

#[test]
fn screenshot_loader_follows_the_latest_request() {
    let mut l = ScreenshotLoader::new();
    let first = match l.request_range("k0") {
        RangeRequest::Extract(id) => id,
        RangeRequest::Cached(_) => panic!("nothing is cached yet"),
    };
    assert!(l.loading);
    let second = match l.request_range("k1") {
        RangeRequest::Extract(id) => id,
        RangeRequest::Cached(_) => panic!("nothing is cached yet"),
    };
    assert_eq!(second, first + 1);
    let old = ScreenshotResult::Loaded { request_id: first, key: "k0".to_string(), paths: vec!["a".to_string()] };
    assert_eq!(l.on_result(old), ResultEffect::Ignored);
    assert!(l.loading);
    let new = ScreenshotResult::Loaded { request_id: second, key: "k1".to_string(), paths: vec!["b".to_string()] };
    assert_eq!(l.on_result(new), ResultEffect::Shown);
    assert!(!l.loading);
    assert_eq!(l.paths, vec!["b".to_string()]);
    match l.request_range("k1") {
        RangeRequest::Cached(p) => assert_eq!(p, vec!["b".to_string()]),
        RangeRequest::Extract(_) => panic!("k1 is cached"),
    }
    assert!(l.claim_prefetch("k2"));
    assert!(!l.claim_prefetch("k2"));
    assert!(!l.claim_prefetch("k1"));
    let pre = ScreenshotResult::Prefetched { key: "k2".to_string(), paths: vec!["c".to_string()] };
    assert_eq!(l.on_result(pre), ResultEffect::Stored);
    assert!(!l.claim_prefetch("k2"));
    let third = match l.request_range("k3") {
        RangeRequest::Extract(id) => id,
        RangeRequest::Cached(_) => panic!("k3 is not cached"),
    };
    let failed = ScreenshotResult::Failed { request_id: third, reason: "ffmpeg 截图为空".to_string() };
    assert_eq!(l.on_result(failed), ResultEffect::Failed);
    assert_eq!(l.error, Some("ffmpeg 截图为空".to_string()));
    assert!(l.paths.is_empty());
}

#[test]
fn recording_usage_counts_each_use() {
    let mut lib = TagLibrary::new();
    lib.add_tag("风景", Timestamp { secs: 1, nanos: 0 });
    lib.record_usage(&["风景".to_string(), "风景".to_string()], Timestamp { secs: 2, nanos: 0 });
    assert_eq!(lib.entries_in_saved_order()[0].use_count, 2);
}

#[test]
fn ai_run_waits_for_confirmation_unless_automatic() {
    let result = |score: u8| AiAnalysisResult { labels: vec!["风景".to_string()], score, evidence_summary: String::new() };
    let mut batch = AiBatch::new(false);
    batch.begin();
    let w = batch.start_video();
    assert!(matches!(batch.on_done(w + 5, result(70)), BatchStep::Ignore));
    assert!(matches!(batch.on_done(w, result(70)), BatchStep::AwaitConfirmation));
    assert_eq!(batch.state, AiBatchState::AwaitingConfirmation);
    assert_eq!(batch.accept(), Some(vec!["风景".to_string(), "point070".to_string()]));
    assert_eq!(batch.accept(), None);
    assert_eq!(batch.success_count, 1);
    let w2 = batch.regenerate();
    assert_eq!(w2, w + 1);
    assert!(matches!(batch.on_failed(w2, "v".to_string(), "bad".to_string()), BatchStep::Stopped));
    assert!(batch.failures.is_empty());

    let mut auto = AiBatch::new(true);
    let a = auto.start_video();
    match auto.on_done(a, result(55)) {
        BatchStep::Finish(labels) => assert_eq!(labels, vec!["风景".to_string(), "point055".to_string()]),
        _ => panic!("expected the video to be finished"),
    }
    let b = auto.start_video();
    assert!(matches!(auto.on_failed(b, "clip".to_string(), "超时".to_string()), BatchStep::SkipVideo));
    assert_eq!(auto.finish(), "AI 分析完成。成功：1 个，失败：1 个。\n失败文件：\n1. clip：超时");
    assert_eq!(auto.state, AiBatchState::Idle);
    assert_eq!(AiBatch::new(true).finish(), "AI 分析完成。成功：0 个，失败：0 个。");
}

#[test]
fn ai_runs_wait_at_least_ten_minutes_for_the_stream() {
    assert_eq!(run_stream_timeout(120), 600);
    assert_eq!(run_stream_timeout(900), 900);
}

#[test]
fn sorting_keeps_equal_names_in_their_order() {
    let mut videos = vec![named("clip", 1), named("b", 2), named("Clip", 3)];
    sort_videos_by_name(&mut videos);
    let sizes: Vec<u64> = videos.iter().map(|v| v.size).collect();
    assert_eq!(sizes, vec![2, 1, 3]);
    let mut reversed = vec![named("Clip", 3), named("clip", 1)];
    sort_videos_by_name(&mut reversed);
    let sizes: Vec<u64> = reversed.iter().map(|v| v.size).collect();
    assert_eq!(sizes, vec![3, 1]);
}
