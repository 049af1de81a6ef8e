use bili_clip_flow::anchors::{
    any_lacks_source, can_find_source, check_clip_request, check_starts_recording,
    check_submission_config, checked_anchor, clip_duration, find_source, is_clip_file, no_clips,
    parse_room_live, requested_uids, settled_status, unknown_live_info, updated_clip_time,
    with_user_info, Anchor, AnchorSubmissionConfigInput, LiveClipItem, SubscribeRequest,
};
use bili_clip_flow::clips::{
    compute_clip_intervals, compute_sliding_intervals, find_lively_passages,
    merge_overlapping_intervals, normalize_record_ids, ClipInterval, Timeline,
};
use bili_clip_flow::json::Json;
use bili_clip_flow::outside::TimePoint;
use bili_clip_flow::runtime::LiveRecordInfo;
use bili_clip_flow::segments::{
    build_clip_file_name, build_segments, clip_args, clip_key, comment_offset, comment_times,
    covered_seconds, date_label, find_earliest, length_is_off, locate_segment_for_offset,
    needs_duration, normalize_segments_for_analysis, plan_cuts, read_record_ids, record_file_names,
    time_rows, LiveRecordSegment, RecordRow,
};

fn some(s: &str) -> Option<String> {
    Some(s.to_string())
}

fn object(fields: Vec<(&str, Json)>) -> Json {
    Json::Object(fields.into_iter().map(|(k, v)| (k.to_string(), v)).collect())
}

fn interval(start: i64, end: i64, peak: i64) -> ClipInterval {
    ClipInterval { start_offset: start, end_offset: end, peak_count: peak }
}

fn plain(list: &[ClipInterval]) -> Vec<(i64, i64, i64)> {
    list.iter().map(|i| (i.start_offset, i.end_offset, i.peak_count)).collect()
}

fn row(id: i64, start: &str, end: Option<&str>) -> RecordRow {
    RecordRow {
        record_id: id,
        file_path: format!("/r/{}.mp4", id),
        start_time: start.to_string(),
        end_time: end.map(|s| s.to_string()),
    }
}

fn segment(id: i64, from: i64, to: i64) -> LiveRecordSegment {
    LiveRecordSegment {
        record_id: id,
        file_path: format!("/r/{}.mp4", id),
        start_time: TimePoint { secs: from, nanos: 0 },
        end_time: TimePoint { secs: to, nanos: 0 },
        offset_start: from,
        offset_end: to,
    }
}

#[test]
fn record_ids_are_sorted_once_each() {
    assert_eq!(normalize_record_ids(&[5, -1, 3, 5, 0, 9, 3]), vec![3, 5, 9]);
    let (ids, key) = clip_key(&[2, 1, 2]).expect("ids");
    assert_eq!(ids, vec![1, 2]);
    assert_eq!(key, "[1,2]");
    assert!(clip_key(&[0, -4]).is_none());
}

#[test]
fn comments_are_counted_by_the_minute() {
    let mut t = Timeline::new();
    for s in [61, 5, -3, 59, 120, 62] {
        t.push_danmaku_offset(s);
    }
    assert_eq!(t.offsets, vec![61, 5, 59, 120, 62]);
    assert_eq!(t.buckets, vec![(0, 2), (60, 2), (120, 1)]);
}

#[test]
fn leaps_are_found() {
    let buckets = vec![(0, 4), (60, 10), (120, 12), (180, 9), (240, 1)];
    assert_eq!(plain(&compute_clip_intervals(&buckets)), vec![(30, 270, 12)]);
    let open = vec![(0, 0), (60, 3)];
    assert_eq!(plain(&compute_clip_intervals(&open)), vec![(30, 150, 3)]);
    assert!(compute_clip_intervals(&vec![(0, 4), (60, 9)]).is_empty());
}

#[test]
fn dense_windows_stand_apart() {
    let mut times = Vec::new();
    for s in [100, 101, 102, 400, 401, 110] {
        times.push(s);
    }
    let found = compute_sliding_intervals(&times, 60, 2, 30, 1);
    assert_eq!(plain(&found), vec![(70, 190, 4), (370, 490, 2)]);
    assert!(compute_sliding_intervals(&times, 0, 2, 30, 1).is_empty());
    assert!(compute_sliding_intervals(&[], 60, 2, 30, 1).is_empty());
}

#[test]
fn touching_passages_are_merged() {
    let merged = merge_overlapping_intervals(&vec![
        interval(100, 200, 3),
        interval(0, 50, 1),
        interval(150, 260, 7),
        interval(50, 60, 2),
    ]);
    assert_eq!(plain(&merged), vec![(0, 60, 2), (100, 260, 7)]);
}

#[test]
fn lively_passages_are_in_order() {
    let mut t = Timeline::new();
    for s in 0..10 {
        t.push_danmaku_offset(s * 30);
    }
    for s in 0..40 {
        t.push_danmaku_offset(600 + s);
    }
    let found = find_lively_passages(&t);
    assert!(!found.is_empty());
    for pair in found.windows(2) {
        assert!(pair[0].end_offset < pair[1].start_offset);
    }
    assert!(found.iter().any(|p| p.start_offset <= 600 && p.end_offset >= 640));
}

#[test]
fn records_become_segments() {
    let rows = vec![
        row(2, "2024-01-01T00:10:00Z", None),
        row(1, "2024-01-01T00:00:00Z", None),
    ];
    let records = time_rows(&rows).ok().expect("times");
    assert_eq!(records[0].record_id, 1);
    assert!(needs_duration(&records));
    let segments = build_segments(&records, Some(300)).expect("on the calendar").ok().expect("segments");
    let offsets: Vec<(i64, i64)> = segments.iter().map(|s| (s.offset_start, s.offset_end)).collect();
    assert_eq!(offsets, vec![(0, 600), (600, 900)]);
    assert_eq!(date_label(&segments), some("2024-01-01"));
    assert!(matches!(
        build_segments(&records, None),
        Some(Err(e)) if e == "无法获取录播时长: /r/2.mp4"
    ));
    let bad = time_rows(&vec![row(3, "2024-01-01T00:10:00Z", Some("2024-01-01T00:10:00Z"))])
        .ok()
        .expect("times");
    assert!(matches!(
        build_segments(&bad, None),
        Some(Err(e)) if e == "录播结束时间异常: /r/3.mp4"
    ));
    let error = time_rows(&vec![row(3, "?", None)]).err().expect("an error");
    assert!(error.starts_with("解析录播开始时间失败: 时间解析失败: "));
    let error = time_rows(&vec![row(3, "2024-01-01T00:10:00Z", Some("?"))]).err().expect("an error");
    assert!(error.starts_with("时间解析失败: "));
}

#[test]
fn lengths_correct_the_timeline() {
    let segments = vec![segment(1, 0, 600), segment(2, 600, 900), segment(3, 900, 1000)];
    let probes = vec![None, Some(("/x/2.flv".to_string(), Some(290))), Some(("/r/3.mp4".to_string(), Some(500)))];
    let kept = normalize_segments_for_analysis(&segments, &probes).expect("on the calendar");
    assert_eq!(kept.len(), 2);
    assert_eq!(kept[0].file_path, "/x/2.flv");
    assert_eq!((kept[0].offset_start, kept[0].offset_end), (0, 300));
    assert_eq!((kept[1].offset_start, kept[1].offset_end), (300, 800));
    assert!(length_is_off(0, 5));
    assert!(!length_is_off(100, 130));
    assert!(length_is_off(100, 131));
    assert_eq!(covered_seconds(-5, -9), (0, 0));
    assert_eq!(covered_seconds(5, 9), (5, 9));
}

#[test]
fn comment_times_are_read() {
    let base = TimePoint { secs: 1_704_067_200, nanos: 500_000_000 };
    let line = object(vec![
        ("cmd", Json::Str("DANMU_MSG".to_string())),
        ("timestamp", Json::Str("2024-01-01T00:01:00Z".to_string())),
    ]);
    assert_eq!(comment_offset(&line, base), Some(59));
    let other = object(vec![
        ("cmd", Json::Str("SEND_GIFT".to_string())),
        ("timestamp", Json::Str("2024-01-01T00:01:00Z".to_string())),
    ]);
    assert_eq!(comment_offset(&other, base), None);
    assert_eq!(
        comment_times("<d p=\"1.5,1,25\">a</d><d p=\"2\">b</d><d p=\"3"),
        vec!["1.5".to_string(), "2".to_string()]
    );
    assert!(comment_times("<d>").is_empty());
}

#[test]
fn clips_are_cut_within_their_files() {
    let segments = vec![segment(1, 0, 600), segment(2, 600, 1200)];
    let cuts = plan_cuts(
        &segments,
        &vec![interval(100, 300, 5), interval(570, 700, 3), interval(700, 800, 9), interval(5000, 6000, 1)],
    );
    assert_eq!(cuts.len(), 2);
    assert_eq!((cuts[0].segment, cuts[0].start_in_file, cuts[0].duration), (0, 100, 200));
    assert_eq!(cuts[0].raw_name, "clip_001_00_01_40-00_05_00");
    assert_eq!((cuts[1].segment, cuts[1].start_in_file, cuts[1].end_offset), (1, 100, 800));
    assert_eq!(cuts[1].raw_name, "clip_003_00_11_40-00_13_20");
    assert_eq!(locate_segment_for_offset(&segments, 650), Some((1, 50, 550)));
    assert_eq!(locate_segment_for_offset(&segments, 1200), None);
    assert_eq!(build_clip_file_name(12, -5, 36_000), "clip_012_00_00_00-10_00_00");
    let args = clip_args(5, 60, "in.mp4", "out.mp4");
    assert_eq!(
        args,
        vec!["-y", "-ss", "5", "-t", "60", "-accurate_seek", "-i", "in.mp4", "-c", "copy",
            "-avoid_negative_ts", "1", "out.mp4"]
    );
}

fn input() -> AnchorSubmissionConfigInput {
    AnchorSubmissionConfigInput {
        room_id: " 1 ".to_string(),
        title: " t ".to_string(),
        description: some(" "),
        partition_id: Some(17),
        collection_id: None,
        tags: some("a, ,b"),
        topic_id: None,
        mission_id: None,
        activity_title: None,
        video_type: " ORIGINAL ".to_string(),
    }
}

#[test]
fn submission_settings_are_checked() {
    let c = check_submission_config(input(), "now").ok().expect("settings");
    assert_eq!((c.room_id.as_str(), c.title.as_str(), c.tags), ("1", "t", some("a,b")));
    assert_eq!(c.description, None);
    let error = |change: fn(&mut AnchorSubmissionConfigInput)| {
        let mut i = input();
        change(&mut i);
        check_submission_config(i, "now").err().unwrap_or_default()
    };
    assert_eq!(error(|i| i.room_id = " ".to_string()), "room_id 不能为空");
    assert_eq!(error(|i| i.title = " ".to_string()), "请输入投稿标题");
    assert_eq!(error(|i| i.title = "题".repeat(81)), "投稿标题不能超过 80 个字符");
    assert_eq!(error(|i| i.title = "题".repeat(80)), "");
    assert_eq!(error(|i| i.partition_id = None), "请选择B站分区");
    assert_eq!(error(|i| i.video_type = "".to_string()), "请选择视频类型");
    assert_eq!(error(|i| i.tags = Some(" , ".to_string())), "请填写至少一个投稿标签");
    assert_eq!(
        error(|i| i.description = Some("d".repeat(2001))),
        "视频描述不能超过 2000 个字符"
    );
}

#[test]
fn streamers_are_checked() {
    let request = SubscribeRequest { uids: vec![" 1 ".to_string(), " ".to_string(), "2".to_string()] };
    assert_eq!(requested_uids(&request), vec!["1".to_string(), "2".to_string()]);
    let room = object(vec![
        ("live_status", Json::Int(1)),
        ("title", Json::Str("t".to_string())),
        ("area_name", Json::Str("c".to_string())),
        ("parent_area_name", Json::Str("p".to_string())),
        ("uid", Json::Int(9)),
    ]);
    let live = parse_room_live(&room);
    assert_eq!(live.uid, Some(9));
    assert_eq!(live.info.category, some("p / c"));
    let user = object(vec![("info", object(vec![("uname", Json::Str("n".to_string()))]))]);
    let info = with_user_info(live.info, &user);
    assert_eq!((info.nickname.clone(), info.avatar_url.clone()), (some("n"), None));
    let anchor = Anchor {
        id: 3,
        uid: "1".to_string(),
        nickname: None,
        live_status: 0,
        last_check_time: None,
        create_time: "c".to_string(),
        update_time: "u".to_string(),
        avatar_url: None,
        live_title: None,
        category: None,
        auto_record: true,
        baidu_sync_enabled: false,
        baidu_sync_path: None,
        recording_status: None,
        recording_file: None,
        recording_start_time: None,
    };
    let record = LiveRecordInfo { file_path: "f".to_string(), start_time: "s".to_string() };
    let checked = checked_anchor(anchor, info, Some(record), "now");
    assert_eq!((checked.live_status, checked.live_title, checked.update_time.as_str()), (1, some("t"), "now"));
    assert_eq!((checked.recording_status, checked.recording_file), (some("RECORDING"), some("f")));
    assert!(check_starts_recording(true, 1, false));
    assert!(!check_starts_recording(true, 1, true));
    assert_eq!(unknown_live_info(&some("n"), 2).live_status, 2);
}

fn item(source: Option<&str>, start: i64) -> LiveClipItem {
    LiveClipItem {
        id: 1,
        source_file_path: source.map(|s| s.to_string()),
        status: String::new(),
        file_path: "c.mp4".to_string(),
        start_offset: start,
        end_offset: start + 60,
        duration: 60,
        peak_count: 0,
        create_time: String::new(),
    }
}

#[test]
fn clip_items_are_completed() {
    let segments = vec![segment(1, 0, 600), segment(2, 600, 1200)];
    assert_eq!(find_source(&item(None, 700), &segments), some("/r/2.mp4"));
    assert_eq!(find_source(&item(Some("x"), 700), &segments), None);
    assert_eq!(find_source(&item(Some(""), 7000), &segments), None);
    assert!(any_lacks_source(&vec![item(Some("x"), 0), item(None, 0)]));
    assert!(!any_lacks_source(&vec![item(Some("x"), 0)]));
    assert_eq!(settled_status(" "), some("SUCCESS"));
    assert_eq!(settled_status("FAILED"), None);
    assert_eq!(no_clips("5").status, "NONE");
    assert_eq!(updated_clip_time(1, 5, 9), Ok(4));
    assert_eq!(updated_clip_time(0, 5, 9), Err("clip_id 无效".to_string()));
    assert_eq!(clip_duration(9, 9), Err("时间段无效".to_string()));
    assert!(can_find_source(1, "r", 0));
    assert!(!can_find_source(1, " ", 0));
    assert!(is_clip_file("clip_001.mp4"));
    assert!(!is_clip_file("clip_001.flv"));
    assert_eq!(check_clip_request(" 5 ", &[1]), Ok("5".to_string()));
    assert_eq!(check_clip_request("5", &[]), Err("record_ids 不能为空".to_string()));
    assert_eq!(check_clip_request(" ", &[]), Err("room_id 不能为空".to_string()));
}

#[test]
fn clips_are_filed_by_their_records() {
    let (ids, key) = clip_key(&[12, 3, 12, -5]).expect("ids");
    assert_eq!(ids, vec![3, 12]);
    assert_eq!(key, "[3,12]");
    assert_eq!(clip_key(&[3, 12]).expect("ids").1, key);
    assert_ne!(clip_key(&[31, 2]).expect("ids").1, key);
}

#[test]
fn the_earliest_file_starts_the_timeline() {
    let list = vec![segment(1, 40, 50), segment(2, 10, 20), segment(3, 25, 30)];
    assert_eq!(find_earliest(&list).secs, 10);
}

#[test]
fn a_recording_is_looked_for_under_each_ending() {
    assert_eq!(record_file_names("a.b"), vec!["a.b.mp4", "a.b.flv", "a.b.ts"]);
}

#[test]
fn filed_records_are_read_back() {
    let (ids, key) = clip_key(&[9, 3, 9, -2]).expect("a key");
    assert_eq!(key, "[3,9]");
    assert_eq!(read_record_ids(&key), ids);
    assert_eq!(read_record_ids(" [ -5, 7 ] "), vec![-5, 7]);
    assert!(read_record_ids("[1,\"2\"]").is_empty());
    assert!(read_record_ids("").is_empty());
}

#[test]
fn merged_passages_are_as_large_as_their_parts() {
    let list = vec![
        interval(50, 60, 1),
        interval(0, 10, 3),
        interval(10, 20, 9),
        interval(5, 12, 4),
        interval(100, 110, 2),
    ];
    let once = merge_overlapping_intervals(&list);
    assert_eq!(plain(&once), vec![(0, 20, 9), (50, 60, 1), (100, 110, 2)]);
    assert_eq!(plain(&merge_overlapping_intervals(&once)), plain(&once));
}

#[test]
fn the_densest_window_comes_first() {
    let mut times = vec![5, 6];
    times.extend([300, 301, 302, 303]);
    times.extend([900, 901, 902]);
    let found = compute_sliding_intervals(&times, 60, 2, 30, 1);
    assert_eq!(plain(&found)[0], (270, 390, 4));
    assert_eq!(plain(&found)[1], (870, 990, 3));
}

#[test]
fn minutes_before_the_beginning_count_too() {
    let found = compute_clip_intervals(&vec![(-120, 0), (-60, 5), (0, 1), (60, 0)]);
    assert_eq!(plain(&found), vec![(0, 90, 5)]);
}
