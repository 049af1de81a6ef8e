use bili_clip_flow::outside::TimePoint;
use bili_clip_flow::danmaku::{
    build_danmaku_auth_payload, build_danmaku_packet, danmaku_targets, danmaku_url, danmaku_wanted,
    decompress_brotli, decompress_zlib, packet_body_len, parse_danmaku_packets, recorded_line,
    should_record_danmaku,
};
use bili_clip_flow::flv::{FlvHeaderCache, FlvTag};
use bili_clip_flow::json::Json;
use bili_clip_flow::pipeline::{
    calculate_tag_hash, LiveFlvPipeline, LivePipelineSettings, SplitReason,
};
use bili_clip_flow::recording::{
    added_extension, after_copy, auto_record_action, build_live_remux_copy_args,
    build_live_remux_transcode_args, cover_extension, day_label,
    derive_end_time_from_media_duration, derive_recovered_record_end_time, end_after,
    finished_metadata, hls_args, hls_extension, hls_outcome, idle_plan, is_idle, is_remux_source,
    is_suspicious_remux_output, keeps_hls_extension, keeps_output, may_retry, missing_plan,
    moment_label, name_time, next_retry, part_file_name, path_parts, render_record_name, stale_plan,
    start_decision, started_metadata, AutoAction, RemuxStep, RunOutcome, StartDecision,
    StreamBuffer,
};
use bili_clip_flow::runtime::{new_live_runtime, LiveRecordHandle};
use bili_clip_flow::session::{
    is_unexpected_response, read_failure, reconnect_backoff_ms, RecordSession, RecordStatus,
    StreamFailure,
};
use bili_clip_flow::settings::LiveSettings;
use bili_clip_flow::stream::{
    earliest_expire, is_hls_url, join_stream_url, parse_quality, parse_room_info,
    parse_stream_expire_value, play_params, push_unique_url, refresh_decision, select_stream_urls,
    should_refresh_stream_url, stream_url_expire_at, stream_url_report, summarize_stream_url,
    LiveRoomInfo,
};

const SECOND: u64 = 1_000_000_000;

fn some(s: &str) -> Option<String> {
    Some(s.to_string())
}

fn text(s: &str) -> Json {
    Json::Str(s.to_string())
}

fn object(fields: Vec<(&str, Json)>) -> Json {
    Json::Object(fields.into_iter().map(|(k, v)| (k.to_string(), v)).collect())
}

fn settings() -> LiveSettings {
    LiveSettings {
        record_path: "/rec".to_string(),
        file_name_template: "{{ roomId }}".to_string(),
        recording_quality: "avc10000,hevc10000".to_string(),
        record_mode: 0,
        reconnect_keep_file: false,
        cutting_mode: 0,
        cutting_number: 0,
        cutting_by_title: false,
        title_split_min_seconds: 1800,
        stream_retry_ms: 6000,
        stream_retry_no_qn_sec: 90,
        stream_connect_timeout_ms: 5000,
        stream_read_timeout_ms: 15000,
        check_interval_sec: 180,
        write_metadata: false,
        save_cover: false,
        record_danmaku: true,
        record_danmaku_raw: false,
        record_danmaku_superchat: true,
        record_danmaku_gift: false,
        record_danmaku_guard: false,
        danmaku_transport: 0,
        flv_fix_split_on_missing: false,
        flv_fix_adjust_timestamp_jump: false,
        flv_fix_split_on_timestamp_jump: true,
        flv_fix_disable_on_annexb: true,
    }
}

fn tag(tag_type: u8, ts: u32, payload: &[u8]) -> FlvTag {
    let len = payload.len() as u32;
    let mut bytes = vec![tag_type, (len >> 16) as u8, (len >> 8) as u8, len as u8];
    bytes.extend([(ts >> 16) as u8, (ts >> 8) as u8, ts as u8, (ts >> 24) as u8, 0, 0, 0]);
    bytes.extend(payload);
    bytes.extend((11 + len).to_be_bytes());
    FlvTag { tag_type, bytes, data_offset: 11, data_len: payload.len() }
}

// Addresses

#[test]
fn qualities_are_read() {
    assert_eq!(parse_quality("avc10000,hevc10000"), 10000);
    assert_eq!(parse_quality("x, 400"), 400);
    assert_eq!(parse_quality("nothing"), 10000);
}

#[test]
fn addresses_are_put_together_once() {
    assert_eq!(
        join_stream_url("https://h", "/live.flv?", "expires=1"),
        some("https://h/live.flv?expires=1")
    );
    assert_eq!(join_stream_url("", "/live.flv?", "e"), None);
    let mut urls = Vec::new();
    push_unique_url(&mut urls, "a".to_string());
    push_unique_url(&mut urls, "b".to_string());
    push_unique_url(&mut urls, "a".to_string());
    assert_eq!(urls, vec!["a".to_string(), "b".to_string()]);
    assert!(is_hls_url("https://h/x.m3u8?a=1"));
    assert!(!is_hls_url("https://h/x.flv"));
}

#[test]
fn streams_are_selected() {
    let codec = object(vec![
        ("current_qn", Json::Int(10000)),
        ("accept_qn", Json::Array(vec![Json::Int(10000)])),
        ("base_url", text("/live.flv?")),
        (
            "url_info",
            Json::Array(vec![object(vec![("host", text("https://h")), ("extra", text("expires=9"))])]),
        ),
    ]);
    let data = object(vec![(
        "playurl_info",
        object(vec![(
            "playurl",
            object(vec![(
                "stream",
                Json::Array(vec![object(vec![
                    ("protocol_name", text("http_stream")),
                    (
                        "format",
                        Json::Array(vec![object(vec![
                            ("format_name", text("flv")),
                            ("codec", Json::Array(vec![codec])),
                        ])]),
                    ),
                ])]),
            )]),
        )]),
    )]);
    assert_eq!(
        select_stream_urls(&data, true, 10000),
        Ok(vec!["https://h/live.flv?expires=9".to_string()])
    );
    assert!(select_stream_urls(&Json::Null, true, 10000).is_err());
}

#[test]
fn addresses_tell_when_they_expire() {
    assert_eq!(parse_stream_expire_value("100"), Some(100));
    assert_eq!(parse_stream_expire_value("ff"), Some(255));
    assert_eq!(parse_stream_expire_value(""), None);
    assert_eq!(parse_stream_expire_value("xyz"), None);
    let pairs = vec![
        ("expires".to_string(), "300".to_string()),
        ("other".to_string(), "5".to_string()),
    ];
    assert_eq!(earliest_expire(&pairs), Some(300));
    assert_eq!(stream_url_expire_at("https://h/live.flv?expires=300"), Some(300));
    assert_eq!(stream_url_expire_at("no address"), None);
    assert!(refresh_decision(Some(300), 30, 270).is_some());
    assert!(refresh_decision(Some(300), 30, 200).is_none());
    assert!(refresh_decision(None, 30, 200).is_none());
    assert!(should_refresh_stream_url("https://h/live.flv?expires=300", 30, 290).is_some());
}

#[test]
fn rooms_are_read() {
    let data = object(vec![(
        "room_info",
        object(vec![
            ("room_id", Json::Int(5)),
            ("uid", text("9")),
            ("live_status", Json::Int(1)),
            ("title", text("t")),
        ]),
    )]);
    assert!(parse_room_info(&Json::Null, "7").is_err());
    let info = parse_room_info(&data, "7").ok().expect("a room");
    assert_eq!((info.room_id.as_str(), info.uid.as_str(), info.live_status), ("5", "9", 1));
    assert_eq!(info.title, "t");
}

// Comments

#[test]
fn packets_are_built_and_read() {
    let packet = build_danmaku_packet(5, b"{\"cmd\":1}".to_vec());
    assert_eq!(&packet[..16], &[0, 0, 0, 25, 0, 16, 0, 1, 0, 0, 0, 5, 0, 0, 0, 1]);
    let packets = parse_danmaku_packets(&packet, 4).expect("shallow").ok().expect("packets");
    assert_eq!(packets.len(), 1);
    assert_eq!(packets[0].op, 5);
    assert_eq!(packets[0].body, b"{\"cmd\":1}".to_vec());
}

#[test]
fn compressed_packets_are_unpacked() {
    let inner = build_danmaku_packet(5, b"hello".to_vec());
    let mut encoder = flate2::write::ZlibEncoder::new(Vec::new(), flate2::Compression::default());
    std::io::Write::write_all(&mut encoder, &inner).expect("compress");
    let squeezed = encoder.finish().expect("compress");
    assert_eq!(decompress_zlib(&squeezed), Ok(inner.clone()));
    assert!(decompress_zlib(b"garbage").is_err());
    let mut outer = build_danmaku_packet(5, squeezed);
    outer[7] = 2;
    let packets = parse_danmaku_packets(&outer, 4).expect("shallow").ok().expect("packets");
    assert_eq!(packets.len(), 1);
    assert_eq!(packets[0].body, b"hello".to_vec());

    let mut brotli_bytes = Vec::new();
    {
        let mut writer = brotli::CompressorWriter::new(&mut brotli_bytes, 4096, 5, 22);
        std::io::Write::write_all(&mut writer, &inner).expect("compress");
    }
    assert_eq!(decompress_brotli(&brotli_bytes), Ok(inner));
}

#[test]
fn comments_are_chosen() {
    let s = settings();
    assert!(should_record_danmaku(&s));
    assert!(danmaku_wanted("DANMU_MSG", &s));
    assert!(danmaku_wanted("SUPER_CHAT_MESSAGE", &s));
    assert!(!danmaku_wanted("SEND_GIFT", &s));
    assert_eq!(danmaku_url(0, "h", 443, 80, 2243), "wss://h:443/sub");
    assert_eq!(danmaku_url(0, "h", 0, 80, 2243), "ws://h:80/sub");
    assert_eq!(danmaku_url(1, "h", 443, 80, 2243), "tcp://h:2243");
    let auth = build_danmaku_auth_payload("5", "k", 9, some("b"));
    assert_eq!(
        String::from_utf8(auth).ok(),
        some("{\"buvid\":\"b\",\"key\":\"k\",\"platform\":\"web\",\"protover\":3,\"roomid\":5,\"type\":2,\"uid\":9}")
    );
    let auth = build_danmaku_auth_payload("x", "主", -1, None);
    assert_eq!(
        String::from_utf8(auth).ok(),
        some("{\"key\":\"主\",\"platform\":\"web\",\"protover\":3,\"roomid\":0,\"type\":2,\"uid\":-1}")
    );
}

#[test]
fn events_are_recorded_line_by_line() {
    let mut s = settings();
    s.record_danmaku_raw = false;
    let event = |cmd: &str| {
        Some(Json::Object(vec![("cmd".to_string(), Json::Str(cmd.to_string()))]))
    };
    assert_eq!(
        recorded_line("", event("DANMU_MSG"), &s, "t"),
        some("{\"cmd\":\"DANMU_MSG\",\"data\":{\"cmd\":\"DANMU_MSG\"},\"timestamp\":\"t\"}")
    );
    assert_eq!(recorded_line("", event("OTHER"), &s, "t"), None);
    assert_eq!(recorded_line("not json", None, &s, "t"), None);
    s.record_danmaku_raw = true;
    assert_eq!(recorded_line("not json", None, &s, "t"), some("not json"));
    assert!(recorded_line("", event("OTHER"), &s, "t").is_some());
}

// The pipeline

#[test]
fn equal_tags_have_equal_hashes() {
    assert_eq!(calculate_tag_hash(b"abc"), calculate_tag_hash(b"abc"));
}

#[test]
fn changed_headers_ask_for_a_new_file() {
    let mut pipeline = LiveFlvPipeline::new(
        LivePipelineSettings { split_on_script_tag: false, disable_split_on_h264_annexb: true },
        true,
        true,
        0,
    );
    let mut first = tag(9, 0, &[0x17, 0, 1, 2, 3]);
    assert!(pipeline.process_tag(&mut first, 0).request_split.is_none());
    let mut same = tag(9, 0, &[0x17, 0, 1, 2, 3]);
    assert!(pipeline.process_tag(&mut same, 0).request_split.is_none());
    let mut changed = tag(9, 40, &[0x17, 0, 9, 9, 9]);
    assert!(pipeline.process_tag(&mut changed, 0).request_split == Some(SplitReason::VideoHeaderChanged));
}

#[test]
fn a_stuck_stream_is_given_up() {
    let mut pipeline = LiveFlvPipeline::new(
        LivePipelineSettings { split_on_script_tag: false, disable_split_on_h264_annexb: true },
        false,
        false,
        0,
    );
    let mut after = None;
    for n in 0..400 {
        let mut frame = tag(9, 1000, &[0x27, 1, 0, 0, 0, 7]);
        assert!(pipeline.has_room());
        let decision = pipeline.process_tag(&mut frame, n * SECOND);
        if decision.disconnect_reason.is_some() {
            after = Some(n);
            break;
        }
    }
    assert_eq!(after, Some(300));
}

// Sessions

#[test]
fn waits_grow_and_stay_bounded() {
    let mut s = settings();
    let waits: Vec<u64> = (0..6).map(|n| reconnect_backoff_ms(n, &s)).collect();
    assert_eq!(waits, vec![0, 200, 500, 1000, 2000, 2000]);
    s.stream_retry_ms = 0;
    assert_eq!(reconnect_backoff_ms(9, &s), 0);
    s.stream_retry_ms = 500;
    assert_eq!(reconnect_backoff_ms(1, &s), 200);
    assert_eq!(reconnect_backoff_ms(3, &s), 500);
    s.stream_retry_ms = -5;
    assert_eq!(reconnect_backoff_ms(3, &s), 0);
    s.stream_retry_ms = 6000;
    assert_eq!(reconnect_backoff_ms(9, &s), 2000);
}

#[test]
fn mirrors_are_taken_in_turn() {
    let mut session = RecordSession::new(&settings(), "t", 0);
    assert!(session.needs_urls());
    session.set_urls(vec!["a".to_string(), "b".to_string()]);
    assert!(!session.needs_urls());
    let first = session.take_url().expect("an address");
    session.failover_or_refetch();
    let second = session.take_url().expect("an address");
    assert!(first != second);
}

#[test]
fn a_session_ends_after_three_failures() {
    let s = settings();
    let mut session = RecordSession::new(&s, "t", 0);
    let now = 1000 * SECOND;
    let mut ended = 0;
    for _ in 0..10 {
        let plan = session.on_failure(StreamFailure::ConnectFailed, &s, "t", now, 1000);
        assert!(plan.end.is_none());
    }
    for n in 1..10 {
        let failure = StreamFailure::Stuck("重复数据".to_string());
        let plan = session.on_failure(failure, &s, "t", now, 1000);
        if plan.end.is_some() {
            ended = n;
            break;
        }
    }
    assert_eq!(ended, 3);
}

#[test]
fn a_stream_is_written_to_files() {
    let s = settings();
    let mut session = RecordSession::new(&s, "t", 0);
    let mut cache = FlvHeaderCache::new();
    cache.set_header(vec![b'F', b'L', b'V', 1, 5, 0, 0, 0, 9, 0, 0, 0, 0]);
    session.on_data();
    let mut header = tag(9, 0, &[0x17, 0, 1, 2, 3]);
    cache.update_from_tag(&header);
    let verdict = session.inspect_tag(&mut header, 0);
    assert!(verdict.disconnect.is_none());
    let _ = session.place_tag(header, &cache, &s, verdict.progressed, false, false, "t", 0);
    let mut key = tag(9, 40, &[0x17, 1, 0, 0, 0, 5]);
    let verdict = session.inspect_tag(&mut key, 0);
    let plan = session.place_tag(key, &cache, &s, verdict.progressed, false, false, "t", 0);
    assert!(plan.write.is_some());
    assert!(session.segment.is_some());
    assert!(session.has_room(1000));
    assert!(session.on_stop() == Some(RecordStatus::Stopped));
}

#[test]
fn a_session_remembers_what_it_saw() {
    let mut session = RecordSession::new(&settings(), "t", 0);
    let mut header = tag(9, 0, &[0x17, 0, 1, 2, 3]);
    assert!(session.inspect_tag(&mut header, 0).split.is_none());
    let mut frame = tag(9, 40, &[0x27, 1, 0, 0, 0, 5]);
    assert!(session.inspect_tag(&mut frame, 0).split.is_none());
    let mut changed = tag(9, 40, &[0x17, 0, 1, 2, 4]);
    let verdict = session.inspect_tag(&mut changed, 0);
    assert!(verdict.split == Some(SplitReason::VideoHeaderChanged));
    assert!(session.pending_split);
    let mut reported = None;
    for n in 0..400 {
        let mut again = tag(9, 40, &[0x17, 0, 1, 2, 4]);
        let verdict = session.inspect_tag(&mut again, n * SECOND);
        assert!(verdict.split.is_none());
        if verdict.disconnect.is_some() && reported.is_none() {
            reported = Some(n);
        }
    }
    assert_eq!(reported, Some(297));
}

#[test]
fn pages_are_no_streams() {
    assert!(is_unexpected_response("text/html", ""));
    assert!(!is_unexpected_response("video/x-flv", ""));
}

#[test]
fn limits_come_from_the_settings() {
    let s = settings();
    assert_eq!(s.connect_timeout_ms(), 5000);
    assert_eq!(s.read_timeout_ms(), Some(15000));
}

// Recordings

#[test]
fn recordings_begin_when_a_room_is_live() {
    assert!(start_decision(true, 1) == StartDecision::AlreadyRunning);
    assert!(start_decision(false, 0) == StartDecision::NotLive);
    assert!(start_decision(false, 1) == StartDecision::Start);
    assert!(StartDecision::NotLive.error().is_some());
    assert!(StartDecision::Start.error().is_none());
    assert!(auto_record_action(1, true, false) == AutoAction::Start);
    assert!(auto_record_action(0, true, true) == AutoAction::Stop);
    assert!(auto_record_action(0, true, false) == AutoAction::Nothing);
    assert!(may_retry(true, false, 60, 0));
    assert!(!may_retry(true, false, 59, 0));
    assert!(!may_retry(true, true, 60, 0));
    assert!(!may_retry(true, false, 60, 10));
    assert_eq!(next_retry(0, Some(1)), Some(1));
    assert_eq!(next_retry(0, Some(0)), None);
}

#[test]
fn a_buffer_hands_out_all_bytes() {
    let mut buffer = StreamBuffer::new();
    let mut total = 0;
    for _ in 0..10 {
        assert!(buffer.needs_chunk());
        assert!(buffer.offer(vec![7u8; 10_000]));
        loop {
            let part = buffer.read(8192);
            if part.is_empty() {
                break;
            }
            assert!(part.iter().all(|b| *b == 7));
            total += part.len();
        }
    }
    assert_eq!(total, 100_000);
}

fn room() -> LiveRoomInfo {
    LiveRoomInfo {
        room_id: "5".to_string(),
        uid: "9".to_string(),
        live_status: 1,
        title: "题".to_string(),
        cover: None,
        area_name: None,
        parent_area_name: None,
    }
}

#[test]
fn file_names_are_rendered() {
    let time = name_time(1_704_067_200, 7_000_000).expect("a time");
    assert_eq!(time.date, "20240101");
    assert_eq!(time.time, "000000");
    assert_eq!(time.stamp, "20240101-000000");
    assert_eq!(time.millis, "007");
    let name = render_record_name("{{ roomId }}/{{ title }}", &room(), None, &time, "20240101");
    assert_eq!(name, "5/题");
    assert_eq!(path_parts("a\\b//c"), vec!["a".to_string(), "b".to_string(), "c".to_string()]);
    assert!(part_file_name(Some("x"), Some("flv"), 2).is_some());
    assert!(keeps_hls_extension("ts"));
    assert_eq!(cover_extension("image/png"), "png");
    assert_eq!(cover_extension("image/x"), "jpg");
}

#[test]
fn files_left_behind_are_settled() {
    assert!(missing_plan().status == RecordStatus::Failed);
    let plan = stale_plan(0, None, false);
    assert!(!plan.remux);
    let plan = stale_plan(1000, Some(60 * SECOND), false);
    assert!(plan.remux);
    assert!(!is_idle(true, Some(9_999 * SECOND)));
    assert!(is_idle(false, Some(1_800 * SECOND)));
    assert!(!is_idle(false, Some(SECOND)));
    let plan = idle_plan(1000, Some(1_900 * SECOND), 1, true);
    assert!(plan.adopt_mp4);
    let (status, message) = hls_outcome(true, false, None, "err");
    assert!(status == RecordStatus::Stopped);
    assert!(message.is_none());
}

#[test]
fn no_recording_is_lost_by_a_new_container() {
    let mib = 1_048_576u64;
    assert!(is_suspicious_remux_output(500 * mib, mib));
    assert!(!is_suspicious_remux_output(500 * mib, 400 * mib));
    assert!(after_copy(500 * mib, RunOutcome::Done, mib) == RemuxStep::Transcode);
    assert!(after_copy(500 * mib, RunOutcome::Done, 400 * mib) == RemuxStep::Finish);
    assert!(after_copy(500 * mib, RunOutcome::Failed, 0) == RemuxStep::Transcode);
    assert!(keeps_output(500 * mib, RunOutcome::Done, 400 * mib));
    assert!(!keeps_output(500 * mib, RunOutcome::Failed, 400 * mib));
    assert!(is_remux_source("flv"));
    let args = build_live_remux_copy_args("a.flv", "a.mp4");
    assert_eq!(args.last().map(|s| s.as_str()), Some("a.mp4"));
    let args = build_live_remux_transcode_args("a.flv", "a.mp4");
    assert!(args.iter().any(|a| a == "a.flv"));
}

#[test]
fn running_recordings_are_known() {
    let mut runtime = new_live_runtime();
    assert!(!runtime.is_recording("5"));
    assert!(runtime.get_record_info("5").is_none());
    runtime.insert("5", LiveRecordHandle::new("t", "start", "20240101"));
    assert!(runtime.is_recording("5"));
    runtime.update_current_file("5", "/f");
    let info = runtime.get_record_info("5").expect("a recording");
    assert_eq!((info.file_path.as_str(), info.start_time.as_str()), ("/f", "start"));
    assert_eq!(runtime.take_split_requests("5"), (false, false));
    runtime.mark_split("5");
    assert_eq!(runtime.take_split_requests("5").0, true);
    assert_eq!(runtime.take_split_requests("5").0, false);
    assert_eq!(runtime.current_title("5", "f"), "t");
    runtime.set_title("5", "u");
    assert_eq!(runtime.current_title("5", "f"), "u");
    assert_eq!(runtime.current_title("6", "f"), "f");
    assert_eq!(runtime.record_start_date("5", "today"), "20240101");
    assert_eq!(runtime.stop_requested("5"), Some(false));
    runtime.stop("5");
    assert!(runtime.stop_requested("5") != Some(false));
    runtime.remove("5");
    assert!(!runtime.is_recording("5"));
}

#[test]
fn addresses_are_reported_without_their_secrets() {
    assert_eq!(
        summarize_stream_url("https://h.example/live/a.flv?expires=1&sign=secret&expire=2&wsTime=5f"),
        "host=h.example path=/live/a.flv expires=2 txTime=- wsTime=5f"
    );
    assert_eq!(
        summarize_stream_url("no address"),
        "host=- path=- expires=- txTime=- wsTime=-"
    );
    assert_eq!(
        stream_url_report(&None, "/p", &vec![("txTime".to_string(), "1".to_string())]),
        "host=- path=/p expires=- txTime=1 wsTime=-"
    );
}

#[test]
fn addresses_are_asked_for_by_room_and_quality() {
    let params = play_params("42", 10000);
    assert_eq!(params.len(), 12);
    assert_eq!(params[0], ("room_id".to_string(), "42".to_string()));
    assert_eq!(params[3], ("qn".to_string(), "10000".to_string()));
    assert_eq!(params[11], ("web_location".to_string(), "444.8".to_string()));
}

#[test]
fn playlist_recordings_name_their_room() {
    let args = hls_args("42", "https://h/a.m3u8", "/rec/a.ts");
    assert_eq!(args.len(), 24);
    assert_eq!(args[16], "Referer:https://live.bilibili.com/42\r\n");
    assert_eq!(args[18], "https://h/a.m3u8");
    assert_eq!(args[23], "/rec/a.ts");
}

#[test]
fn notes_are_begun_and_finished() {
    let notes = started_metadata(&room(), &None, "t", "2024-01-01T00:00:00Z");
    assert_eq!(notes.get_text("roomId"), some("5"));
    assert!(matches!(notes.get("nickname"), Some(Json::Null)));
    let done = finished_metadata(notes, "2024-01-01T01:00:00Z", 5);
    assert_eq!(done.get_text("startTime"), some("2024-01-01T00:00:00Z"));
    assert_eq!(done.get_text("endTime"), some("2024-01-01T01:00:00Z"));
    assert_eq!(done.get_i64("fileSize"), Some(5));
    let fresh = finished_metadata(Json::Bool(true), "e", 0);
    assert_eq!(fresh.get_text("endTime"), some("e"));
}

#[test]
fn chat_packets_tell_their_length() {
    let packet = build_danmaku_packet(2, vec![1, 2, 3]);
    assert_eq!(packet_body_len(&packet[..16]), Some(3));
    assert_eq!(packet_body_len(&packet[..15]), None);
    let mut short = packet[..16].to_vec();
    short[3] = 15;
    assert_eq!(packet_body_len(&short), None);
}

#[test]
fn chat_is_stored_beside_the_recording() {
    assert_eq!(danmaku_targets(&some("/a.flv"), "/b.flv"), vec!["/a.flv", "/b.flv"]);
    assert_eq!(danmaku_targets(&some("/a.flv"), "/a.flv"), vec!["/a.flv"]);
    assert_eq!(danmaku_targets(&some(" "), "/b.flv"), vec!["/b.flv"]);
    assert!(danmaku_targets(&None, " ").is_empty());
}

#[test]
fn failed_reads_are_told_apart() {
    assert!(matches!(read_failure(true, "x"), StreamFailure::ReadTimeout));
    assert!(matches!(read_failure(false, "operation Timed Out"), StreamFailure::ReadTimeout));
    assert!(matches!(read_failure(false, "connection reset"), StreamFailure::ReadError));
}

#[test]
fn a_recording_that_was_cut_short_ends_by_its_length() {
    let start = "2024-01-01T08:00:00+08:00";
    let end = Some("2024-01-01T00:00:01.500+00:00".to_string());
    assert_eq!(end_after(start, 1500), end);
    assert_eq!(end_after("yesterday", 1500), None);
    assert_eq!(end_after(start, i64::MAX), None);
    let notes = Some(Json::Object(vec![("startTime".to_string(), Json::Str(start.to_string()))]));
    assert_eq!(derive_end_time_from_media_duration(&notes, Some(1500)), end);
    assert_eq!(derive_end_time_from_media_duration(&notes, None), None);
    assert_eq!(derive_end_time_from_media_duration(&Some(Json::Null), Some(1500)), None);
    let written = TimePoint { secs: 60, nanos: 0 };
    assert_eq!(derive_recovered_record_end_time(&notes, Some(1500), Some(written), "f"), end.unwrap());
    assert_eq!(
        derive_recovered_record_end_time(&None, Some(1500), Some(written), "f"),
        "1970-01-01T00:01:00+00:00"
    );
    assert_eq!(derive_recovered_record_end_time(&None, None, None, "f"), "f");
    assert_eq!(moment_label(written).as_deref(), Some("1970-01-01T00:01:00+00:00"));
    assert_eq!(day_label(written).as_deref(), Some("19700101"));
}

#[test]
fn names_of_files_are_made_up_where_they_lack_something() {
    assert_eq!(added_extension(None).as_deref(), Some("flv"));
    assert_eq!(added_extension(Some("mkv")), None);
    assert_eq!(part_file_name(Some("x"), Some("flv"), 1), None);
    assert_eq!(part_file_name(Some("x"), Some("mkv"), 2).as_deref(), Some("x_part2.mkv"));
    assert_eq!(part_file_name(None, None, 3).as_deref(), Some("record_part3.flv"));
    assert_eq!(hls_extension("M4S"), None);
    assert_eq!(hls_extension("flv").as_deref(), Some("ts"));
}

#[test]
fn packets_of_no_length_give_the_error_of_their_content() {
    let packet = |version: u8| {
        let mut bytes = vec![0u8; 16];
        bytes[7] = version;
        bytes
    };
    for (version, plain) in [(2, decompress_zlib(b"")), (3, decompress_brotli(b""))] {
        let read = parse_danmaku_packets(&packet(version), 4);
        match plain {
            Err(message) => assert_eq!(read.and_then(|r| r.err()), Some(message)),
            Ok(_) => assert!(read.is_none()),
        }
    }
    assert!(parse_danmaku_packets(&packet(1), 4).is_none());
}
