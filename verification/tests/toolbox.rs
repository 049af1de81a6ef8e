use bili_clip_flow::json::Json;
use bili_clip_flow::toolbox::{
    build_overlay_filter, concat_args, concat_list, copy_part_args, encode_part_args,
    ffmpeg_args_with_progress, image_data_url, image_file_data_url, last_step_percent,
    mask_image_error, merge_args, merge_error, merge_filter, normalized_preset,
    normalized_render_id, parse_keyframe_times, parse_mask_probe, parse_reorder_delay,
    parse_timescale, parse_video_probe, preview_width, quality, remux_args, remux_error,
    render_error, render_progress, split_rate, video_error, EncodePart, OverlayMask, RemuxPayload,
};

fn some(s: &str) -> Option<String> {
    Some(s.to_string())
}

fn text(s: &str) -> Json {
    Json::Str(s.to_string())
}

fn object(fields: Vec<(&str, Json)>) -> Json {
    Json::Object(fields.into_iter().map(|(k, v)| (k.to_string(), v)).collect())
}

fn strings(list: &[&str]) -> Vec<String> {
    list.iter().map(|s| s.to_string()).collect()
}

#[test]
fn containers_are_changed() {
    let payload = RemuxPayload { source_path: " a.flv ".to_string(), target_path: "b.mp4".to_string() };
    assert_eq!(
        remux_args(&payload),
        strings(&["-hide_banner", "-loglevel", "error", "-y", "-i", "a.flv", "-c", "copy", "b.mp4"])
    );
    assert_eq!(remux_error(&payload, true, true), None);
    assert_eq!(remux_error(&payload, false, false), some("源文件不存在"));
    assert_eq!(remux_error(&payload, true, false), some("源文件不是文件"));
    let empty = RemuxPayload { source_path: " ".to_string(), target_path: " ".to_string() };
    assert_eq!(remux_error(&empty, true, true), some("请选择源文件"));
    let aimless = RemuxPayload { source_path: "a".to_string(), target_path: " ".to_string() };
    assert_eq!(remux_error(&aimless, true, true), some("请选择输出路径"));
    assert_eq!(video_error(" ", true), some("请选择视频文件"));
    assert_eq!(video_error("a", false), some("视频文件不存在"));
    assert_eq!(video_error("a", true), None);
    assert_eq!(mask_image_error(" ", true), some("请选择遮罩图片"));
    assert_eq!(mask_image_error("a", false), some("遮罩图片不存在"));
}

#[test]
fn files_are_probed() {
    let value = object(vec![
        (
            "streams",
            Json::Array(vec![
                object(vec![("codec_type", text("audio"))]),
                object(vec![
                    ("codec_type", text("video")),
                    ("codec_name", text("h264")),
                    ("width", Json::Int(1920)),
                    ("height", Json::Int(1080)),
                    ("duration", text("9.5")),
                    ("avg_frame_rate", text("60/1")),
                    ("color_space", text("bt709")),
                    ("time_base", text("1/ 16000")),
                    ("has_b_frames", Json::Int(2)),
                ]),
                object(vec![("codec_type", text("subtitle"))]),
                object(vec![("codec_type", text("audio"))]),
            ]),
        ),
        ("format", object(vec![("duration", text("10.0"))])),
        ("chapters", Json::Array(vec![Json::Null])),
    ]);
    let probe = parse_video_probe(&value);
    assert_eq!((probe.width, probe.height), (1920, 1080));
    assert_eq!((probe.format_duration, probe.stream_duration), (some("10.0"), some("9.5")));
    let mask = parse_mask_probe(&value);
    assert_eq!((mask.video_codec.as_str(), mask.frame_rate), ("h264", some("60/1")));
    assert_eq!((mask.audio_streams, mask.subtitle_streams, mask.chapter_count), (2, 1, 1));
    assert_eq!(mask.color_space, "bt709");
    assert_eq!(parse_timescale(&value), 0);
    let video = object(vec![(
        "streams",
        Json::Array(vec![object(vec![
            ("time_base", text("1/ 16000")),
            ("has_b_frames", Json::Int(2)),
        ])]),
    )]);
    assert_eq!(parse_timescale(&video), 16000);
    assert_eq!(parse_reorder_delay(&video), 2);
    assert_eq!(parse_reorder_delay(&Json::Null), 0);
    let frames = object(vec![(
        "frames",
        Json::Array(vec![
            object(vec![("best_effort_timestamp_time", text("0.0"))]),
            object(vec![("pkt_pts_time", text("2.0"))]),
            object(vec![]),
        ]),
    )]);
    assert_eq!(parse_keyframe_times(&frames), strings(&["0.0", "2.0"]));
    assert_eq!(split_rate("60000/1001"), ("60000".to_string(), some("1001")));
    assert_eq!(split_rate("25"), ("25".to_string(), None));
}

#[test]
fn pictures_become_urls() {
    assert_eq!(image_data_url(b"abc"), "data:image/jpeg;base64,YWJj");
    assert_eq!(image_file_data_url("/x/a.PNG", b"a", false), "data:image/png;base64,YQ==");
    assert_eq!(image_file_data_url("a.webp", b"", false), "data:image/webp;base64,");
    assert_eq!(image_file_data_url("a", b"ab", false), "data:application/octet-stream;base64,YWI=");
}

#[test]
fn progress_is_bounded() {
    let p = render_progress(" r ", "f", 140, "s", 1, 2, -5);
    assert_eq!(p.render_id, "r");
    assert_eq!(render_progress(" ", "f", 0, "s", 1, 2, 0).render_id, "f");
    assert_eq!((p.percent, p.stage_percent), (100, 0));
    assert_eq!(last_step_percent(0), 95);
    assert_eq!(last_step_percent(99), 99);
    assert_eq!(last_step_percent(1000), 99);
    assert_eq!(last_step_percent(50), 97);
    assert_eq!(normalized_render_id(" a ", "f"), "a");
    assert_eq!(normalized_render_id(" ", "f"), "f");
    assert_eq!(normalized_preset(&some("slow"), true), "slow");
    assert_eq!(normalized_preset(&some("slow"), false), "veryfast");
    assert_eq!(normalized_preset(&None, true), "veryfast");
    assert_eq!(quality(None, 18), 18);
    assert_eq!(quality(Some(99), 18), 30);
    assert_eq!(preview_width(None), 720);
    assert_eq!(preview_width(Some(5)), 180);
}

#[test]
fn progress_arguments_follow_the_overwrite_flag() {
    assert_eq!(
        ffmpeg_args_with_progress(&strings(&["-a", "-y", "-b"])),
        strings(&["-a", "-y", "-nostats", "-progress", "pipe:1", "-b"])
    );
    assert_eq!(
        ffmpeg_args_with_progress(&strings(&["-a"])),
        strings(&["-nostats", "-progress", "pipe:1", "-a"])
    );
}

fn part() -> EncodePart {
    EncodePart {
        source: "in.mp4".to_string(),
        output: "part.mp4".to_string(),
        start: "1.000000".to_string(),
        duration: "2.000000".to_string(),
        images: strings(&["m.png"]),
        filter: "F".to_string(),
        crf: None,
        preset: some("ultrafast"),
        frame_rate: some("30.000"),
        video_codec: "h264".to_string(),
        color_space: " bt709 ".to_string(),
        color_transfer: "unknown".to_string(),
        color_primaries: String::new(),
        timescale: 16000,
    }
}

#[test]
fn encoded_parts_fit_the_copied_ones() {
    let args = encode_part_args(&part());
    let at = args.iter().position(|a| a == "-video_track_timescale").expect("a timescale");
    assert_eq!(args[at + 1], "16000");
    assert_eq!(
        &args[..12],
        &strings(&["-hide_banner", "-loglevel", "error", "-y", "-ss", "1.000000", "-i", "in.mp4",
            "-i", "m.png", "-filter_complex", "F"])[..]
    );
    assert!(args.windows(2).any(|w| w[0] == "-colorspace" && w[1] == "bt709"));
    assert!(!args.iter().any(|a| a == "-color_trc" || a == "-color_primaries"));
    assert!(args.windows(2).any(|w| w[0] == "-c:v" && w[1] == "libx264"));
    assert!(args.windows(2).any(|w| w[0] == "-crf" && w[1] == "18"));
    assert_eq!(args.last().map(|s| s.as_str()), Some("part.mp4"));
    let mut other = part();
    other.video_codec = "hevc".to_string();
    other.timescale = 0;
    let args = encode_part_args(&other);
    assert!(args.iter().any(|a| a == "libx265"));
    assert!(!args.iter().any(|a| a == "-video_track_timescale"));
}

#[test]
fn parts_are_put_together() {
    assert_eq!(
        concat_list(&strings(&["/a/b.mp4", "/it's.mp4"])),
        "file '/a/b.mp4'\nfile '/it'\\''s.mp4'"
    );
    let args = concat_args("l.txt", "s.mp4", "9.000000", "t.mp4");
    assert_eq!(args[11], "l.txt");
    assert_eq!(args[13], "s.mp4");
    assert_eq!(args.last().map(|s| s.as_str()), Some("t.mp4"));
    let args = copy_part_args("s.mp4", "o.mp4", "0.000000", "5.000000");
    assert_eq!(&args[4..10], &strings(&["-ss", "0.000000", "-i", "s.mp4", "-t", "5.000000"])[..]);
    let args = merge_args("s", "i", "t", "F", &some("slow"), None);
    assert!(args.windows(2).any(|w| w[0] == "-preset" && w[1] == "veryfast"));
    assert!(args.windows(2).any(|w| w[0] == "-crf" && w[1] == "20"));
}

#[test]
fn requests_for_masks_are_checked() {
    assert_eq!(merge_error("s", " ", "t", true, true), some("请选择视频、遮罩图片和输出路径"));
    assert_eq!(merge_error("s", "i", "t", false, true), some("视频文件不存在"));
    assert_eq!(merge_error("s", "i", "t", true, false), some("遮罩图片不存在"));
    assert_eq!(merge_error("s", "i", "t", true, true), None);
    assert_eq!(render_error(" ", "t", true, &None), some("请选择视频和输出路径"));
    assert_eq!(render_error("s", "t", false, &None), some("视频文件不存在"));
    assert_eq!(render_error("s", "t", true, &some("m")), some("遮罩图片不存在: m"));
    assert_eq!(render_error("s", "t", true, &None), None);
}

fn overlay_mask(x: i64) -> OverlayMask {
    OverlayMask {
        opacity: "0.5000".to_string(),
        crop_width: "0.900000".to_string(),
        crop_height: "1.000000".to_string(),
        crop_left: "0.100000".to_string(),
        crop_top: "0.000000".to_string(),
        width: 64,
        height: 32,
        x,
        y: 7,
        start: "0.000".to_string(),
        end: "1.500".to_string(),
    }
}

#[test]
fn pictures_are_laid_over_one_another() {
    let filter = build_overlay_filter("2.000000", &vec![overlay_mask(1), overlay_mask(2)]);
    let steps: Vec<&str> = filter.split(';').collect();
    assert_eq!(
        steps,
        vec![
            "[0:v]trim=start=0:duration=2.000000,setpts=PTS-STARTPTS[vbase]",
            "[1:v]setpts=PTS-STARTPTS,format=rgba,colorchannelmixer=aa=0.5000,crop=iw*0.900000:ih*1.000000:iw*0.100000:ih*0.000000,scale=64:32,tpad=stop_mode=clone:stop_duration=2.000000[mask0]",
            "[vbase][mask0]overlay=1:7:enable='between(t,0.000,1.500)':shortest=0:repeatlast=1:format=auto[v0]",
            "[2:v]setpts=PTS-STARTPTS,format=rgba,colorchannelmixer=aa=0.5000,crop=iw*0.900000:ih*1.000000:iw*0.100000:ih*0.000000,scale=64:32,tpad=stop_mode=clone:stop_duration=2.000000[mask1]",
            "[v0][mask1]overlay=2:7:enable='between(t,0.000,1.500)':shortest=0:repeatlast=1:format=auto[vout]",
        ]
    );
}

#[test]
fn one_picture_is_laid_over_a_video() {
    assert_eq!(
        merge_filter(&overlay_mask(3)),
        "[1:v]format=rgba,crop=iw*0.900000:ih*1.000000:iw*0.100000:ih*0.000000,scale=64:32[mask];[0:v][mask]overlay=3:7:enable='between(t,0.000,1.500)':shortest=0:repeatlast=1:format=auto[v]"
    );
}

#[test]
fn pictures_are_written_in_base64() {
    assert_eq!(image_data_url(b"abc"), "data:image/jpeg;base64,YWJj");
    assert_eq!(image_data_url(&[0, 16, 131, 255, 254]), "data:image/jpeg;base64,ABCD//4=");
}
