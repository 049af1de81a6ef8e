//! Tools around video files: changing containers, reading what a file holds, and the steps by
//! which masks are drawn into a video.

use crate::anchors::or_empty;
use crate::json::{field, integer_at, list_view, or_number, text_at, text_or_empty, Json, JsonView};
use crate::outside::{base64_encode, base64_text};
use crate::package::list_at;
use crate::project::{extension, find_extension};
use crate::session::opt_text;
use crate::text::{
    ascii_lower, concat2, copy_text, decimal, ends_with, extend, extend_text, i64_text, i64_value,
    index_of, is_text, join, joined, lowered, parse_i64, piece, position, replace, replaced,
    starts_with, text_eq, texts, to_chars, to_text, trim, trim_text, trimmed, u64_digits, views,
};
use vstd::prelude::*;

verus! {

// ---------------------------------------------------------------------------
// Requests and answers

/// A request to change the container of a file.
pub struct RemuxPayload {
    pub source_path: String,
    pub target_path: String,
}

/// A request about a video.
pub struct VideoProbePayload {
    pub source_path: String,
}

/// How far drawing masks has come.
pub struct VideoMaskRenderProgress {
    pub render_id: String,
    pub percent: i64,
    pub stage: String,
    pub part_index: usize,
    pub part_count: usize,
    pub stage_percent: i64,
}

/// A request for a picture as a URL.
pub struct VideoMaskImageDataUrlPayload {
    pub image_path: String,
}

/// A picture as a URL.
pub struct VideoMaskImageDataUrlResult {
    pub data_url: String,
}

/// What is wrong with a request to change a container, if anything is. `exists` and `is_file`
/// tell of the source what is at its path.
pub fn remux_error(payload: &RemuxPayload, exists: bool, is_file: bool) -> (r: Option<String>)
    ensures
        opt_text(r) == (if trim(payload.source_path@).len() == 0 {
            Some("请选择源文件"@)
        } else if !exists {
            Some("源文件不存在"@)
        } else if !is_file {
            Some("源文件不是文件"@)
        } else if trim(payload.target_path@).len() == 0 {
            Some("请选择输出路径"@)
        } else {
            None
        }),
{
    let source = trim_text(payload.source_path.as_str());
    let target = trim_text(payload.target_path.as_str());
    if source.as_str().is_empty() {
        Some(copy_text("请选择源文件"))
    } else if !exists {
        Some(copy_text("源文件不存在"))
    } else if !is_file {
        Some(copy_text("源文件不是文件"))
    } else if target.as_str().is_empty() {
        Some(copy_text("请选择输出路径"))
    } else {
        None
    }
}

/// The arguments by which a container is changed.
pub open spec fn remux_arg_texts(source: Seq<char>, target: Seq<char>) -> Seq<Seq<char>> {
    seq![
        "-hide_banner"@,
        "-loglevel"@,
        "error"@,
        "-y"@,
        "-i"@,
        source,
        "-c"@,
        "copy"@,
        target,
    ]
}

/// The arguments by which a container is changed.
pub fn remux_args(payload: &RemuxPayload) -> (r: Vec<String>)
    ensures
        texts(r@) == remux_arg_texts(trim(payload.source_path@), trim(payload.target_path@)),
{
    let mut out: Vec<String> = Vec::new();
    out.push(copy_text("-hide_banner"));
    out.push(copy_text("-loglevel"));
    out.push(copy_text("error"));
    out.push(copy_text("-y"));
    out.push(copy_text("-i"));
    out.push(trim_text(payload.source_path.as_str()));
    out.push(copy_text("-c"));
    out.push(copy_text("copy"));
    out.push(trim_text(payload.target_path.as_str()));
    assert(texts(out@) =~= remux_arg_texts(trim(payload.source_path@), trim(payload.target_path@)));
    out
}

/// What is wrong with a request about a video, if anything is.
pub fn video_error(source_path: &str, is_file: bool) -> (r: Option<String>)
    ensures
        opt_text(r) == (if trim(source_path@).len() == 0 {
            Some("请选择视频文件"@)
        } else if !is_file {
            Some("视频文件不存在"@)
        } else {
            None
        }),
{
    let source = trim_text(source_path);
    if source.as_str().is_empty() {
        Some(copy_text("请选择视频文件"))
    } else if !is_file {
        Some(copy_text("视频文件不存在"))
    } else {
        None
    }
}

/// What is wrong with a request for a picture, if anything is.
pub fn mask_image_error(image_path: &str, is_file: bool) -> (r: Option<String>)
    ensures
        opt_text(r) == (if trim(image_path@).len() == 0 {
            Some("请选择遮罩图片"@)
        } else if !is_file {
            Some("遮罩图片不存在"@)
        } else {
            None
        }),
{
    let path = trim_text(image_path);
    if path.as_str().is_empty() {
        Some(copy_text("请选择遮罩图片"))
    } else if !is_file {
        Some(copy_text("遮罩图片不存在"))
    } else {
        None
    }
}

// ---------------------------------------------------------------------------
// What a file holds

/// The position of the first video among some streams.
pub open spec fn video_index(streams: Seq<JsonView>) -> int
    decreases streams.len(),
{
    if streams.len() == 0 || text_at(streams[0], "codec_type"@) == Some("video"@) {
        0
    } else {
        1 + video_index(streams.drop_first())
    }
}

/// The size of a video, and its length as the file and as its stream tell it, as texts.
pub struct VideoProbe {
    pub width: i64,
    pub height: i64,
    pub format_duration: Option<String>,
    pub stream_duration: Option<String>,
}

/// The length of a video as the file tells it.
pub open spec fn file_duration(value: JsonView) -> Option<Seq<char>> {
    match field(value, "format"@) {
        Some(f) => text_at(f, "duration"@),
        None => None,
    }
}

fn kind_is(stream: &Json, kind: &str) -> (r: bool)
    ensures
        r == (text_at(stream@, "codec_type"@) == Some(kind@)),
{
    match stream.get_text("codec_type") {
        Some(k) => text_eq(k.as_str(), kind),
        None => false,
    }
}

/// The size and the lengths of the first video in a file.
pub fn parse_video_probe(value: &Json) -> (r: VideoProbe)
    ensures
        ({
            let streams = list_at(value@, "streams"@);
            let at = video_index(streams);
            &&& opt_text(r.format_duration) == file_duration(value@)
            &&& at < streams.len() ==> r.width == or_number(integer_at(streams[at], "width"@), 0)
                && r.height == or_number(integer_at(streams[at], "height"@), 0) && opt_text(
                r.stream_duration,
            ) == text_at(streams[at], "duration"@)
            &&& at >= streams.len() ==> r.width == 0 && r.height == 0 && r.stream_duration is None
        }),
{
    let format_duration: Option<String> = match value.get("format") {
        Some(f) => f.get_text("duration"),
        None => None,
    };
    if let Some(streams) = value.get_array("streams") {
        let ghost all = list_view(streams@);
        let mut i: usize = 0;
        assert(all.skip(0) =~= all);
        while i < streams.len()
            invariant
                i <= streams@.len(),
                all == list_view(streams@),
                all == list_at(value@, "streams"@),
                opt_text(format_duration) == file_duration(value@),
                video_index(all) == i + video_index(all.skip(i as int)),
            decreases streams.len() - i,
        {
            assert(all.skip(i as int)[0] == streams@[i as int]@);
            assert(all.skip(i as int).drop_first() =~= all.skip(i + 1));
            assert(all[i as int] == streams@[i as int]@);
            if kind_is(&streams[i], "video") {
                return VideoProbe {
                    width: streams[i].get_i64_or("width", 0),
                    height: streams[i].get_i64_or("height", 0),
                    format_duration,
                    stream_duration: streams[i].get_text("duration"),
                };
            }
            i += 1;
        }
        assert(all.skip(i as int).len() == 0);
    }
    VideoProbe { width: 0, height: 0, format_duration, stream_duration: None }
}

/// What masks need to know of a video besides its size: its codec, its frame rate as a text,
/// the numbers of its other streams and chapters, and its colors.
pub struct VideoMaskProbe {
    pub video_codec: String,
    pub frame_rate: Option<String>,
    pub audio_streams: usize,
    pub subtitle_streams: usize,
    pub chapter_count: usize,
    pub color_space: String,
    pub color_transfer: String,
    pub color_primaries: String,
}

/// What the streams of a video tell.
pub ghost struct StreamInfo {
    pub codec: Seq<char>,
    pub rate: Option<Seq<char>>,
    pub audio: int,
    pub subtitle: int,
    pub space: Seq<char>,
    pub transfer: Seq<char>,
    pub primaries: Seq<char>,
}

/// The frame rate of a stream as a text: the average one, else the base one.
pub open spec fn rate_text(stream: JsonView) -> Option<Seq<char>> {
    match text_at(stream, "avg_frame_rate"@) {
        Some(t) => Some(t),
        None => text_at(stream, "r_frame_rate"@),
    }
}

/// What one more stream tells. The first video with a codec counts.
pub open spec fn with_stream(s: StreamInfo, stream: JsonView) -> StreamInfo {
    let kind = text_at(stream, "codec_type"@);
    if kind == Some("video"@) && s.codec.len() == 0 {
        StreamInfo {
            codec: text_or_empty(stream, "codec_name"@),
            rate: rate_text(stream),
            audio: s.audio,
            subtitle: s.subtitle,
            space: text_or_empty(stream, "color_space"@),
            transfer: text_or_empty(stream, "color_transfer"@),
            primaries: text_or_empty(stream, "color_primaries"@),
        }
    } else if kind == Some("audio"@) {
        StreamInfo { audio: s.audio + 1, ..s }
    } else if kind == Some("subtitle"@) {
        StreamInfo { subtitle: s.subtitle + 1, ..s }
    } else {
        s
    }
}

/// What some streams tell.
pub open spec fn stream_info(streams: Seq<JsonView>) -> StreamInfo
    decreases streams.len(),
{
    if streams.len() == 0 {
        StreamInfo {
            codec: Seq::empty(),
            rate: None,
            audio: 0,
            subtitle: 0,
            space: Seq::empty(),
            transfer: Seq::empty(),
            primaries: Seq::empty(),
        }
    } else {
        with_stream(stream_info(streams.drop_last()), streams.last())
    }
}

/// What masks need to know of a video besides its size.
pub fn parse_mask_probe(value: &Json) -> (r: VideoMaskProbe)
    ensures
        stream_info(list_at(value@, "streams"@)) == (StreamInfo {
            codec: r.video_codec@,
            rate: opt_text(r.frame_rate),
            audio: r.audio_streams as int,
            subtitle: r.subtitle_streams as int,
            space: r.color_space@,
            transfer: r.color_transfer@,
            primaries: r.color_primaries@,
        }),
        r.chapter_count == list_at(value@, "chapters"@).len(),
{
    let none: Vec<Json> = Vec::new();
    assert(list_view(none@) =~= Seq::<JsonView>::empty());
    let streams: &Vec<Json> = match value.get_array("streams") {
        Some(list) => list,
        None => &none,
    };
    let chapter_count: usize = match value.get_array("chapters") {
        Some(list) => list.len(),
        None => 0,
    };
    let ghost all = list_view(streams@);
    let mut video_codec = String::new();
    let mut frame_rate: Option<String> = None;
    let mut audio: usize = 0;
    let mut subtitle: usize = 0;
    let mut space = String::new();
    let mut transfer = String::new();
    let mut primaries = String::new();
    let mut i: usize = 0;
    assert(all.take(0) =~= Seq::<JsonView>::empty());
    assert(video_codec@ =~= Seq::<char>::empty());
    proof {
        reveal_strlit("video");
        reveal_strlit("audio");
        reveal_strlit("subtitle");
        assert("video"@[0] == 'v' && "audio"@[0] == 'a' && "subtitle"@[0] == 's');
    }
    while i < streams.len()
        invariant
            i <= streams@.len(),
            audio <= i,
            subtitle <= i,
            "video"@ != "audio"@,
            "video"@ != "subtitle"@,
            "audio"@ != "subtitle"@,
            all == list_view(streams@),
            stream_info(all.take(i as int)) == (StreamInfo {
                codec: video_codec@,
                rate: opt_text(frame_rate),
                audio: audio as int,
                subtitle: subtitle as int,
                space: space@,
                transfer: transfer@,
                primaries: primaries@,
            }),
        decreases streams.len() - i,
    {
        assert(all.take(i + 1).drop_last() =~= all.take(i as int));
        assert(all.take(i + 1).last() == streams@[i as int]@);
        let stream = &streams[i];
        if kind_is(stream, "video") && video_codec.as_str().is_empty() {
            video_codec = stream.get_text_or_empty("codec_name");
            frame_rate = match stream.get_text("avg_frame_rate") {
                Some(t) => Some(t),
                None => stream.get_text("r_frame_rate"),
            };
            space = stream.get_text_or_empty("color_space");
            transfer = stream.get_text_or_empty("color_transfer");
            primaries = stream.get_text_or_empty("color_primaries");
        } else if kind_is(stream, "audio") {
            audio += 1;
        } else if kind_is(stream, "subtitle") {
            subtitle += 1;
        }
        i += 1;
    }
    assert(all.take(i as int) =~= all);
    VideoMaskProbe {
        video_codec,
        frame_rate,
        audio_streams: audio,
        subtitle_streams: subtitle,
        chapter_count,
        color_space: space,
        color_transfer: transfer,
        color_primaries: primaries,
    }
}

/// The first stream of a file.
pub open spec fn first_stream(value: JsonView) -> Option<JsonView> {
    let streams = list_at(value, "streams"@);
    if streams.len() > 0 {
        Some(streams[0])
    } else {
        None
    }
}

fn get_first_stream<'a>(value: &'a Json) -> (r: Option<&'a Json>)
    ensures
        match r {
            Some(s) => first_stream(value@) == Some(s@),
            None => first_stream(value@) is None,
        },
{
    match value.get_array("streams") {
        Some(list) => {
            assert(list_view(list@).len() == list@.len());
            if list.len() > 0 {
                assert(list_view(list@)[0] == list@[0]@);
                Some(&list[0])
            } else {
                None
            }
        },
        None => None,
    }
}

/// The units of time in a second that a time base as a text gives: what stands behind its slash.
pub open spec fn base_timescale(base: Seq<char>) -> i64 {
    let at = index_of(base, '/');
    if at >= base.len() {
        0
    } else {
        match i64_value(trim(base.skip(at + 1))) {
            Some(n) => if n > 0 {
                n
            } else {
                0
            },
            None => 0,
        }
    }
}

/// The units of time in a second of a video, 0 where they cannot be told.
pub fn parse_timescale(value: &Json) -> (r: i64)
    ensures
        r == (match first_stream(value@) {
            Some(s) => match text_at(s, "time_base"@) {
                Some(base) => base_timescale(base),
                None => 0,
            },
            None => 0,
        }),
{
    match get_first_stream(value) {
        Some(s) => match s.get_text("time_base") {
            Some(base) => {
                let chars = to_chars(base.as_str());
                match position(chars.as_slice(), '/') {
                    Some(at) => {
                        let len: usize = chars.len();
                        let rest = piece(chars.as_slice(), at + 1, len);
                        assert(rest@ =~= chars@.skip(at + 1));
                        let bare = trimmed(rest.as_slice());
                        match parse_i64(bare.as_slice()) {
                            Some(n) => if n > 0 {
                                n
                            } else {
                                0
                            },
                            None => 0,
                        }
                    },
                    None => 0,
                }
            },
            None => 0,
        },
        None => 0,
    }
}

/// By how many frames a video is reordered, 0 where that cannot be told.
pub fn parse_reorder_delay(value: &Json) -> (r: i64)
    ensures
        r == (match first_stream(value@) {
            Some(s) => if or_number(integer_at(s, "has_b_frames"@), 0) > 0 {
                or_number(integer_at(s, "has_b_frames"@), 0)
            } else {
                0
            },
            None => 0,
        }),
{
    match get_first_stream(value) {
        Some(s) => {
            let n: i64 = s.get_i64_or("has_b_frames", 0);
            if n > 0 {
                n
            } else {
                0
            }
        },
        None => 0,
    }
}

/// The time of a frame as a text: the best effort where there is one, else the one of its
/// packet.
pub open spec fn frame_time(frame: JsonView) -> Option<Seq<char>> {
    match field(frame, "best_effort_timestamp_time"@) {
        Some(v) => crate::json::text(v),
        None => text_at(frame, "pkt_pts_time"@),
    }
}

/// The times of frames, as texts.
pub open spec fn frame_times(frames: Seq<JsonView>) -> Seq<Seq<char>>
    decreases frames.len(),
{
    if frames.len() == 0 {
        Seq::empty()
    } else {
        match frame_time(frames.last()) {
            Some(t) => frame_times(frames.drop_last()).push(t),
            None => frame_times(frames.drop_last()),
        }
    }
}

/// The times of the key frames of a video, as texts.
pub fn parse_keyframe_times(value: &Json) -> (r: Vec<String>)
    ensures
        texts(r@) == frame_times(list_at(value@, "frames"@)),
{
    let none: Vec<Json> = Vec::new();
    assert(list_view(none@) =~= Seq::<JsonView>::empty());
    let frames: &Vec<Json> = match value.get_array("frames") {
        Some(list) => list,
        None => &none,
    };
    let ghost all = list_view(frames@);
    let mut out: Vec<String> = Vec::new();
    let mut i: usize = 0;
    assert(all.take(0) =~= Seq::<JsonView>::empty());
    assert(texts(out@) =~= Seq::<Seq<char>>::empty());
    while i < frames.len()
        invariant
            i <= frames@.len(),
            all == list_view(frames@),
            texts(out@) == frame_times(all.take(i as int)),
        decreases frames.len() - i,
    {
        assert(all.take(i + 1).drop_last() =~= all.take(i as int));
        assert(all.take(i + 1).last() == frames@[i as int]@);
        let time: Option<String> = match frames[i].get("best_effort_timestamp_time") {
            Some(v) => match v.as_str() {
                Some(t) => Some(copy_text(t.as_str())),
                None => None,
            },
            None => frames[i].get_text("pkt_pts_time"),
        };
        if let Some(t) = time {
            let ghost done = texts(out@);
            let ghost added = t@;
            out.push(t);
            assert(texts(out@) =~= done.push(added));
        }
        i += 1;
    }
    assert(all.take(i as int) =~= all);
    out
}

/// A frame rate as a text: the numerator, and the denominator where there is a slash.
pub fn split_rate(value: &str) -> (r: (String, Option<String>))
    ensures
        ({
            let at = index_of(value@, '/');
            &&& at < value@.len() ==> r.0@ == value@.take(at) && opt_text(r.1) == Some(
                value@.skip(at + 1),
            )
            &&& at >= value@.len() ==> r.0@ == value@ && r.1 is None
        }),
{
    let chars = to_chars(value);
    match position(chars.as_slice(), '/') {
        Some(at) => {
            let len: usize = chars.len();
            let a = piece(chars.as_slice(), 0, at);
            let b = piece(chars.as_slice(), at + 1, len);
            assert(a@ =~= chars@.take(at as int));
            assert(b@ =~= chars@.skip(at + 1));
            (to_text(a.as_slice()), Some(to_text(b.as_slice())))
        },
        None => (copy_text(value), None),
    }
}

// ---------------------------------------------------------------------------
// Pictures

/// The media type of a picture, by its extension.
pub open spec fn image_type(path: Seq<char>, backslash: bool) -> Seq<char> {
    let e = ascii_lower(or_empty(extension(path, backslash)));
    if e == "png"@ {
        "image/png"@
    } else if e == "jpg"@ || e == "jpeg"@ {
        "image/jpeg"@
    } else if e == "webp"@ {
        "image/webp"@
    } else {
        "application/octet-stream"@
    }
}

/// Data as a URL.
pub open spec fn data_url(media_type: Seq<char>, encoded: Seq<char>) -> Seq<char> {
    "data:"@ + media_type + ";base64,"@ + encoded
}

/// Encoded data as a URL.
pub fn make_data_url(media_type: &str, encoded: &str) -> (r: String)
    ensures
        r@ == data_url(media_type@, encoded@),
{
    let mut out = to_chars("data:");
    extend_text(&mut out, media_type);
    extend_text(&mut out, ";base64,");
    extend_text(&mut out, encoded);
    to_text(out.as_slice())
}

/// A picture as a URL, from the bytes of its file.
/// `backslash` tells whether a backslash separates the parts of a path.
pub fn image_file_data_url(path: &str, bytes: &[u8], backslash: bool) -> (r: String)
    ensures
        r@ == data_url(image_type(path@, backslash), base64_text(bytes@)),
{
    let chars = to_chars(path);
    let ext = match find_extension(chars.as_slice(), backslash) {
        Some(e) => e,
        None => {
            let none: Vec<char> = Vec::new();
            assert(none@ =~= Seq::<char>::empty());
            none
        },
    };
    let e = lowered(ext.as_slice());
    let encoded = base64_encode(bytes);
    if is_text(e.as_slice(), "png") {
        make_data_url("image/png", encoded.as_str())
    } else if is_text(e.as_slice(), "jpg") || is_text(e.as_slice(), "jpeg") {
        make_data_url("image/jpeg", encoded.as_str())
    } else if is_text(e.as_slice(), "webp") {
        make_data_url("image/webp", encoded.as_str())
    } else {
        make_data_url("application/octet-stream", encoded.as_str())
    }
}

/// A frame of a video as a URL, from the bytes of its file.
pub fn image_data_url(bytes: &[u8]) -> (r: String)
    ensures
        r@ == data_url("image/jpeg"@, base64_text(bytes@)),
{
    let encoded = base64_encode(bytes);
    make_data_url("image/jpeg", encoded.as_str())
}

// ---------------------------------------------------------------------------
// Drawing masks

/// The id under which progress is reported: the given one, else a fresh one.
pub fn normalized_render_id(value: &str, fresh: &str) -> (r: String)
    ensures
        r@ == (if trim(value@).len() == 0 {
            fresh@
        } else {
            trim(value@)
        }),
{
    let bare = trim_text(value);
    if bare.as_str().is_empty() {
        copy_text(fresh)
    } else {
        bare
    }
}

/// A number within bounds.
pub open spec fn bounded(n: i64, low: i64, high: i64) -> i64 {
    if n < low {
        low
    } else if n > high {
        high
    } else {
        n
    }
}

fn to_bounds(n: i64, low: i64, high: i64) -> (r: i64)
    ensures
        r == bounded(n, low, high),
{
    if n < low {
        low
    } else if n > high {
        high
    } else {
        n
    }
}

/// A report of progress, under the given id, else a fresh one. Percentages are from 0 to 100.
pub fn render_progress(
    render_id: &str,
    fresh: &str,
    percent: i64,
    stage: &str,
    part_index: usize,
    part_count: usize,
    stage_percent: i64,
) -> (r: VideoMaskRenderProgress)
    ensures
        r.render_id@ == (if trim(render_id@).len() == 0 {
            fresh@
        } else {
            trim(render_id@)
        }),
        r.percent == bounded(percent, 0, 100),
        r.stage@ == stage@,
        r.part_index == part_index,
        r.part_count == part_count,
        r.stage_percent == bounded(stage_percent, 0, 100),
{
    VideoMaskRenderProgress {
        render_id: normalized_render_id(render_id, fresh),
        percent: to_bounds(percent, 0, 100),
        stage: copy_text(stage),
        part_index,
        part_count,
        stage_percent: to_bounds(stage_percent, 0, 100),
    }
}

/// The percentage of the whole when the last step has come to a percentage of itself: the last
/// step goes from 95 to 99.
pub fn last_step_percent(stage_percent: i64) -> (r: i64)
    ensures
        r == 95 + bounded(stage_percent, 0, 99) * 4 / 99,
        95 <= r <= 99,
{
    95 + to_bounds(stage_percent, 0, 99) * 4 / 99
}

/// Tells whether a preset of the encoder is known.
pub open spec fn known_preset(p: Seq<char>, slow_allowed: bool) -> bool {
    p == "ultrafast"@ || p == "superfast"@ || p == "veryfast"@ || p == "faster"@ || p == "fast"@
        || p == "medium"@ || (slow_allowed && p == "slow"@)
}

/// The preset of the encoder: the given one where it is known, else `veryfast`. Slow encoding is
/// allowed only where it says so.
pub fn normalized_preset(value: &Option<String>, slow_allowed: bool) -> (r: String)
    ensures
        r@ == (match opt_text(*value) {
            Some(p) => if known_preset(p, slow_allowed) {
                p
            } else {
                "veryfast"@
            },
            None => "veryfast"@,
        }),
{
    match value {
        Some(p) => {
            let known = text_eq(p.as_str(), "ultrafast") || text_eq(p.as_str(), "superfast")
                || text_eq(p.as_str(), "veryfast") || text_eq(p.as_str(), "faster") || text_eq(
                p.as_str(),
                "fast",
            ) || text_eq(p.as_str(), "medium") || (slow_allowed && text_eq(p.as_str(), "slow"));
            if known {
                copy_text(p.as_str())
            } else {
                copy_text("veryfast")
            }
        },
        None => copy_text("veryfast"),
    }
}

/// The quality of the encoder: the given one, else another, within its bounds.
pub fn quality(crf: Option<i64>, other: i64) -> (r: i64)
    ensures
        r == bounded(
            match crf {
                Some(n) => n,
                None => other,
            },
            16,
            30,
        ),
{
    match crf {
        Some(n) => to_bounds(n, 16, 30),
        None => to_bounds(other, 16, 30),
    }
}

/// The width of a preview.
pub fn preview_width(width: Option<i64>) -> (r: i64)
    ensures
        r == bounded(
            match width {
                Some(n) => n,
                None => 720,
            },
            180,
            1280,
        ),
{
    match width {
        Some(n) => to_bounds(n, 180, 1280),
        None => 720,
    }
}

/// The position of the first `-y` among arguments.
pub open spec fn overwrite_index(args: Seq<Seq<char>>) -> int
    decreases args.len(),
{
    if args.len() == 0 || args[0] == "-y"@ {
        0
    } else {
        1 + overwrite_index(args.drop_first())
    }
}

/// The arguments that make progress readable.
pub open spec fn progress_args() -> Seq<Seq<char>> {
    seq!["-nostats"@, "-progress"@, "pipe:1"@]
}

/// Arguments with those that make progress readable: behind the first `-y`, else before all.
pub open spec fn args_with_progress(args: Seq<Seq<char>>) -> Seq<Seq<char>> {
    let at = overwrite_index(args);
    if at < args.len() {
        args.take(at + 1) + progress_args() + args.skip(at + 1)
    } else {
        progress_args() + args
    }
}

fn push_texts(out: &mut Vec<String>, more: &Vec<String>, from: usize, to: usize)
    requires
        from <= to <= more@.len(),
    ensures
        texts(final(out)@) == texts(old(out)@) + texts(more@).subrange(from as int, to as int),
{
    let ghost start = texts(out@);
    let mut i: usize = from;
    assert(texts(more@).subrange(from as int, from as int) =~= Seq::<Seq<char>>::empty());
    assert(start + Seq::<Seq<char>>::empty() =~= start);
    while i < to
        invariant
            from <= i <= to <= more@.len(),
            texts(out@) == start + texts(more@).subrange(from as int, i as int),
        decreases to - i,
    {
        let ghost done = texts(out@);
        let ghost added = more@[i as int]@;
        out.push(copy_text(more[i].as_str()));
        assert(texts(out@) =~= done.push(added));
        assert(done.push(added) =~= start + texts(more@).subrange(from as int, i + 1));
        i += 1;
    }
}

/// Arguments with those that make progress readable.
pub fn ffmpeg_args_with_progress(args: &Vec<String>) -> (r: Vec<String>)
    ensures
        texts(r@) == args_with_progress(texts(args@)),
{
    let ghost all = texts(args@);
    let len: usize = args.len();
    let mut at: usize = 0;
    assert(all.skip(0) =~= all);
    while at < len && !text_eq(args[at].as_str(), "-y")
        invariant
            at <= len,
            len == args@.len(),
            all == texts(args@),
            overwrite_index(all) == at + overwrite_index(all.skip(at as int)),
        decreases len - at,
    {
        assert(all.skip(at as int)[0] == args@[at as int]@);
        assert(all.skip(at as int).drop_first() =~= all.skip(at + 1));
        at += 1;
    }
    let mut out: Vec<String> = Vec::new();
    assert(texts(out@) =~= Seq::<Seq<char>>::empty());
    if at < len {
        assert(all.skip(at as int)[0] == args@[at as int]@);
        push_texts(&mut out, args, 0, at + 1);
        assert(texts(out@) =~= all.take(at + 1));
    } else {
        assert(all.skip(at as int).len() == 0);
    }
    let ghost head = texts(out@);
    out.push(copy_text("-nostats"));
    out.push(copy_text("-progress"));
    out.push(copy_text("pipe:1"));
    assert(texts(out@) =~= head + progress_args());
    if at < len {
        push_texts(&mut out, args, at + 1, len);
        assert(all.subrange(at + 1, len as int) =~= all.skip(at + 1));
    } else {
        push_texts(&mut out, args, 0, len);
        assert(all.subrange(0, len as int) =~= all);
        assert(head =~= Seq::<Seq<char>>::empty());
    }
    assert(texts(out@) =~= args_with_progress(all));
    out
}

/// Making progress readable changes none of the arguments and keeps their order.
pub proof fn law_progress_keeps_args(args: Seq<Seq<char>>)
    ensures
        exists|k: int|
            0 <= k <= args.len() && #[trigger] args.take(k) + progress_args() + args.skip(k)
                == args_with_progress(args),
{
    lemma_overwrite_index(args);
    let at = overwrite_index(args);
    if at < args.len() {
        assert(args.take(at + 1) + progress_args() + args.skip(at + 1) == args_with_progress(args));
    } else {
        assert(args.take(0) + progress_args() + args.skip(0) =~= args_with_progress(args));
    }
}

proof fn lemma_overwrite_index(args: Seq<Seq<char>>)
    ensures
        0 <= overwrite_index(args) <= args.len(),
    decreases args.len(),
{
    if args.len() > 0 {
        lemma_overwrite_index(args.drop_first());
    }
}

/// An argument for a color, where the color is known.
pub open spec fn color_args(key: Seq<char>, value: Seq<char>) -> Seq<Seq<char>> {
    let v = trim(value);
    if v.len() == 0 || v == "unknown"@ {
        Seq::empty()
    } else {
        seq![key, v]
    }
}

/// Adds an argument for a color, where the color is known.
pub fn append_color_arg(args: &mut Vec<String>, key: &str, value: &str)
    ensures
        texts(final(args)@) == texts(old(args)@) + color_args(key@, value@),
{
    let ghost start = texts(args@);
    let v = trim_text(value);
    if v.as_str().is_empty() || text_eq(v.as_str(), "unknown") {
        assert(start + Seq::<Seq<char>>::empty() =~= start);
        return ;
    }
    let ghost bare = v@;
    args.push(copy_text(key));
    args.push(v);
    assert(texts(args@) =~= start + seq![key@, bare]);
}

/// A path as it stands between quotes in a list of files.
pub open spec fn quoted(path: Seq<char>) -> Seq<char> {
    replace(path, "'"@, "'\\''"@)
}

/// A path as it stands between quotes in a list of files.
pub fn escape_concat_path(path: &str) -> (r: Vec<char>)
    ensures
        r@ == quoted(path@),
{
    let chars = to_chars(path);
    let mark = to_chars("'");
    let escaped = to_chars("'\\''");
    proof {
        reveal_strlit("'");
    }
    replaced(chars.as_slice(), mark.as_slice(), escaped.as_slice())
}

/// A line of a list of files.
pub open spec fn list_line(path: Seq<char>) -> Seq<char> {
    "file '"@ + quoted(path) + "'"@
}

/// A list of files that are to be put together.
pub open spec fn concat_list_text(paths: Seq<Seq<char>>) -> Seq<char> {
    join(Seq::new(paths.len(), |i: int| list_line(paths[i])), "\n"@)
}

/// A list of files that are to be put together.
pub fn concat_list(paths: &Vec<String>) -> (r: String)
    ensures
        r@ == concat_list_text(texts(paths@)),
{
    let ghost all = Seq::new(texts(paths@).len(), |i: int| list_line(texts(paths@)[i]));
    let mut lines: Vec<Vec<char>> = Vec::new();
    let mut i: usize = 0;
    while i < paths.len()
        invariant
            i <= paths@.len(),
            all == Seq::new(texts(paths@).len(), |i: int| list_line(texts(paths@)[i])),
            views(lines@) =~= all.take(i as int),
        decreases paths.len() - i,
    {
        let path = escape_concat_path(paths[i].as_str());
        let mut line = to_chars("file '");
        extend(&mut line, path.as_slice());
        extend_text(&mut line, "'");
        assert(line@ == all[i as int]);
        let ghost done = views(lines@);
        let ghost added = line@;
        lines.push(line);
        assert(views(lines@) =~= done.push(added));
        i += 1;
    }
    assert(views(lines@) =~= all);
    let text = joined(&lines, "\n");
    to_text(text.as_slice())
}

/// The arguments by which a part of a video is copied. Times are texts in seconds.
pub open spec fn copy_arg_texts(
    source: Seq<char>,
    output: Seq<char>,
    start: Seq<char>,
    duration: Seq<char>,
) -> Seq<Seq<char>> {
    seq![
        "-hide_banner"@,
        "-loglevel"@,
        "error"@,
        "-y"@,
        "-ss"@,
        start,
        "-i"@,
        source,
        "-t"@,
        duration,
        "-map"@,
        "0"@,
        "-c"@,
        "copy"@,
        "-reset_timestamps"@,
        "1"@,
        output,
    ]
}

/// The arguments by which a part of a video is copied.
pub fn copy_part_args(source: &str, output: &str, start: &str, duration: &str) -> (r: Vec<String>)
    ensures
        texts(r@) == copy_arg_texts(source@, output@, start@, duration@),
{
    let mut out: Vec<String> = Vec::new();
    out.push(copy_text("-hide_banner"));
    out.push(copy_text("-loglevel"));
    out.push(copy_text("error"));
    out.push(copy_text("-y"));
    out.push(copy_text("-ss"));
    out.push(copy_text(start));
    out.push(copy_text("-i"));
    out.push(copy_text(source));
    out.push(copy_text("-t"));
    out.push(copy_text(duration));
    out.push(copy_text("-map"));
    out.push(copy_text("0"));
    out.push(copy_text("-c"));
    out.push(copy_text("copy"));
    out.push(copy_text("-reset_timestamps"));
    out.push(copy_text("1"));
    out.push(copy_text(output));
    assert(texts(out@) =~= copy_arg_texts(source@, output@, start@, duration@));
    out
}

/// What a part of a video is encoded with. Times and the frame rate are texts.
pub struct EncodePart {
    pub source: String,
    pub output: String,
    pub start: String,
    pub duration: String,
    pub images: Vec<String>,
    pub filter: String,
    pub crf: Option<i64>,
    pub preset: Option<String>,
    pub frame_rate: Option<String>,
    pub video_codec: String,
    pub color_space: String,
    pub color_transfer: String,
    pub color_primaries: String,
    pub timescale: i64,
}

/// The encoder for a codec.
pub open spec fn encoder(codec: Seq<char>) -> Seq<char> {
    if codec == "hevc"@ || codec == "h265"@ {
        "libx265"@
    } else {
        "libx264"@
    }
}

/// The arguments that name pictures.
pub open spec fn image_args(images: Seq<Seq<char>>) -> Seq<Seq<char>>
    decreases images.len(),
{
    if images.len() == 0 {
        Seq::empty()
    } else {
        image_args(images.drop_last()).push("-i"@).push(images.last())
    }
}

/// The preset of a part.
pub open spec fn part_preset(preset: Option<Seq<char>>) -> Seq<char> {
    match preset {
        Some(p) => if known_preset(p, true) {
            p
        } else {
            "veryfast"@
        },
        None => "veryfast"@,
    }
}

/// The quality of a part.
pub open spec fn part_quality(crf: Option<i64>) -> i64 {
    bounded(
        match crf {
            Some(n) => n,
            None => 18,
        },
        16,
        30,
    )
}

/// The arguments that say what is read of the source.
pub open spec fn reading_args(p: EncodePart) -> Seq<Seq<char>> {
    seq!["-hide_banner"@, "-loglevel"@, "error"@, "-y"@, "-ss"@, p.start@, "-i"@, p.source@]
}

/// The arguments that say how a part is encoded.
pub open spec fn coding_args(p: EncodePart) -> Seq<Seq<char>> {
    seq![
        "-filter_complex"@,
        p.filter@,
        "-map"@,
        "[vout]"@,
        "-map"@,
        "0:a?"@,
        "-map"@,
        "0:s?"@,
        "-t"@,
        p.duration@,
        "-c:v"@,
        encoder(p.video_codec@),
        "-preset"@,
        part_preset(opt_text(p.preset)),
        "-crf"@,
        decimal(part_quality(p.crf) as int),
        "-pix_fmt"@,
        "yuv420p"@,
        "-c:a"@,
        "aac"@,
        "-b:a"@,
        "192k"@,
        "-c:s"@,
        "copy"@,
    ]
}

/// The arguments that make a part fit the ones that are copied: the frame rate, the colors and
/// the units of time of the source, where they are known.
pub open spec fn fitting_args(p: EncodePart) -> Seq<Seq<char>> {
    let rate = match p.frame_rate {
        Some(f) => seq!["-r"@, f@],
        None => Seq::empty(),
    };
    let scale = if p.timescale > 0 {
        seq!["-video_track_timescale"@, decimal(p.timescale as int)]
    } else {
        Seq::empty()
    };
    rate + color_args("-colorspace"@, p.color_space@) + color_args(
        "-color_trc"@,
        p.color_transfer@,
    ) + color_args("-color_primaries"@, p.color_primaries@) + scale
}

/// The arguments that say how a part is written.
pub open spec fn writing_args(p: EncodePart) -> Seq<Seq<char>> {
    seq![
        "-map_metadata"@,
        "0"@,
        "-avoid_negative_ts"@,
        "make_zero"@,
        "-movflags"@,
        "+faststart"@,
        p.output@,
    ]
}

/// The arguments by which a part of a video is encoded.
pub open spec fn encode_arg_texts(p: EncodePart) -> Seq<Seq<char>> {
    reading_args(p) + image_args(texts(p.images@)) + coding_args(p) + fitting_args(p)
        + writing_args(p)
}

fn make_reading(p: &EncodePart) -> (r: Vec<String>)
    ensures
        texts(r@) == reading_args(*p),
{
    let mut out: Vec<String> = Vec::new();
    out.push(copy_text("-hide_banner"));
    out.push(copy_text("-loglevel"));
    out.push(copy_text("error"));
    out.push(copy_text("-y"));
    out.push(copy_text("-ss"));
    out.push(copy_text(p.start.as_str()));
    out.push(copy_text("-i"));
    out.push(copy_text(p.source.as_str()));
    assert(texts(out@) =~= reading_args(*p));
    out
}

fn make_images(images: &Vec<String>) -> (r: Vec<String>)
    ensures
        texts(r@) == image_args(texts(images@)),
{
    let ghost all = texts(images@);
    let mut out: Vec<String> = Vec::new();
    let mut i: usize = 0;
    assert(all.take(0) =~= Seq::<Seq<char>>::empty());
    assert(texts(out@) =~= Seq::<Seq<char>>::empty());
    while i < images.len()
        invariant
            i <= images@.len(),
            all == texts(images@),
            texts(out@) == image_args(all.take(i as int)),
        decreases images.len() - i,
    {
        assert(all.take(i + 1).drop_last() =~= all.take(i as int));
        assert(all.take(i + 1).last() == images@[i as int]@);
        let ghost done = texts(out@);
        out.push(copy_text("-i"));
        out.push(copy_text(images[i].as_str()));
        assert(texts(out@) =~= done.push("-i"@).push(images@[i as int]@));
        i += 1;
    }
    assert(all.take(i as int) =~= all);
    out
}

fn make_coding(p: &EncodePart) -> (r: Vec<String>)
    ensures
        texts(r@) == coding_args(*p),
{
    let codec = if text_eq(p.video_codec.as_str(), "hevc") || text_eq(
        p.video_codec.as_str(),
        "h265",
    ) {
        copy_text("libx265")
    } else {
        copy_text("libx264")
    };
    let preset = normalized_preset(&p.preset, true);
    let crf = i64_text(quality(p.crf, 18));
    let mut out: Vec<String> = Vec::new();
    out.push(copy_text("-filter_complex"));
    out.push(copy_text(p.filter.as_str()));
    out.push(copy_text("-map"));
    out.push(copy_text("[vout]"));
    out.push(copy_text("-map"));
    out.push(copy_text("0:a?"));
    out.push(copy_text("-map"));
    out.push(copy_text("0:s?"));
    out.push(copy_text("-t"));
    out.push(copy_text(p.duration.as_str()));
    out.push(copy_text("-c:v"));
    out.push(codec);
    out.push(copy_text("-preset"));
    out.push(preset);
    out.push(copy_text("-crf"));
    out.push(crf);
    out.push(copy_text("-pix_fmt"));
    out.push(copy_text("yuv420p"));
    out.push(copy_text("-c:a"));
    out.push(copy_text("aac"));
    out.push(copy_text("-b:a"));
    out.push(copy_text("192k"));
    out.push(copy_text("-c:s"));
    out.push(copy_text("copy"));
    assert(texts(out@) =~= coding_args(*p));
    out
}

fn make_fitting(p: &EncodePart) -> (r: Vec<String>)
    ensures
        texts(r@) == fitting_args(*p),
{
    let mut out: Vec<String> = Vec::new();
    assert(texts(out@) =~= Seq::<Seq<char>>::empty());
    if let Some(f) = &p.frame_rate {
        out.push(copy_text("-r"));
        out.push(copy_text(f.as_str()));
        assert(texts(out@) =~= seq!["-r"@, f@]);
    }
    append_color_arg(&mut out, "-colorspace", p.color_space.as_str());
    append_color_arg(&mut out, "-color_trc", p.color_transfer.as_str());
    append_color_arg(&mut out, "-color_primaries", p.color_primaries.as_str());
    let ghost done = texts(out@);
    if p.timescale > 0 {
        out.push(copy_text("-video_track_timescale"));
        out.push(i64_text(p.timescale));
        assert(texts(out@) =~= done + seq![
            "-video_track_timescale"@,
            decimal(p.timescale as int),
        ]);
    } else {
        assert(done + Seq::<Seq<char>>::empty() =~= done);
    }
    out
}

fn make_writing(p: &EncodePart) -> (r: Vec<String>)
    ensures
        texts(r@) == writing_args(*p),
{
    let mut out: Vec<String> = Vec::new();
    out.push(copy_text("-map_metadata"));
    out.push(copy_text("0"));
    out.push(copy_text("-avoid_negative_ts"));
    out.push(copy_text("make_zero"));
    out.push(copy_text("-movflags"));
    out.push(copy_text("+faststart"));
    out.push(copy_text(p.output.as_str()));
    assert(texts(out@) =~= writing_args(*p));
    out
}

fn push_all(out: &mut Vec<String>, more: &Vec<String>)
    ensures
        texts(final(out)@) == texts(old(out)@) + texts(more@),
{
    let len: usize = more.len();
    assert(texts(more@).subrange(0, len as int) =~= texts(more@));
    push_texts(out, more, 0, len);
}

/// The arguments by which a part of a video is encoded.
pub fn encode_part_args(p: &EncodePart) -> (r: Vec<String>)
    ensures
        texts(r@) == encode_arg_texts(*p),
{
    let mut out = make_reading(p);
    let images = make_images(&p.images);
    let coding = make_coding(p);
    let fitting = make_fitting(p);
    let writing = make_writing(p);
    push_all(&mut out, &images);
    push_all(&mut out, &coding);
    push_all(&mut out, &fitting);
    push_all(&mut out, &writing);
    out
}

// ---------------------------------------------------------------------------
// Pictures over a video

/// A picture that lies over a video. Shares, rates and times are texts.
pub struct OverlayMask {
    pub opacity: String,
    pub crop_width: String,
    pub crop_height: String,
    pub crop_left: String,
    pub crop_top: String,
    pub width: i64,
    pub height: i64,
    pub x: i64,
    pub y: i64,
    pub start: String,
    pub end: String,
}

/// How a picture is cut and scaled.
pub open spec fn fitted(m: OverlayMask) -> Seq<char> {
    "crop=iw*"@ + m.crop_width@ + ":ih*"@ + m.crop_height@ + ":iw*"@ + m.crop_left@ + ":ih*"@
        + m.crop_top@ + ",scale="@ + decimal(m.width as int) + ":"@ + decimal(m.height as int)
}

/// Where and when a picture is shown.
pub open spec fn placed(m: OverlayMask) -> Seq<char> {
    "overlay="@ + decimal(m.x as int) + ":"@ + decimal(m.y as int) + ":enable='between(t,"@
        + m.start@ + ","@ + m.end@ + ")':shortest=0:repeatlast=1:format=auto"@
}

/// The name of a prepared picture.
pub open spec fn mask_label(k: int) -> Seq<char> {
    "[mask"@ + decimal(k) + "]"@
}

/// The name of the video with the first pictures of all over it.
pub open spec fn shown_label(k: int, count: int) -> Seq<char> {
    if k <= 0 {
        "[vbase]"@
    } else if k == count {
        "[vout]"@
    } else {
        "[v"@ + decimal(k - 1) + "]"@
    }
}

/// How a picture is prepared.
pub open spec fn prepared(m: OverlayMask, k: int, duration: Seq<char>) -> Seq<char> {
    "["@ + decimal(k + 1) + ":v]setpts=PTS-STARTPTS,format=rgba,colorchannelmixer=aa="@ + m.opacity@
        + ","@ + fitted(m) + ",tpad=stop_mode=clone:stop_duration="@ + duration + mask_label(k)
}

/// How a picture is laid over the video with the pictures before it.
pub open spec fn laid(m: OverlayMask, k: int, count: int) -> Seq<char> {
    shown_label(k, count) + mask_label(k) + placed(m) + shown_label(k + 1, count)
}

/// The steps by which the first pictures of all are laid over a video.
pub open spec fn overlay_steps(
    duration: Seq<char>,
    masks: Seq<OverlayMask>,
    upto: nat,
) -> Seq<Seq<char>>
    decreases upto,
{
    if upto == 0 {
        seq!["[0:v]trim=start=0:duration="@ + duration + ",setpts=PTS-STARTPTS[vbase]"@]
    } else {
        let k = upto - 1;
        overlay_steps(duration, masks, k as nat).push(prepared(masks[k], k, duration)).push(
            laid(masks[k], k, masks.len() as int),
        )
    }
}

fn push_fitted(out: &mut Vec<char>, m: &OverlayMask)
    ensures
        final(out)@ == old(out)@ + fitted(*m),
{
    let ghost before = out@;
    extend_text(out, "crop=iw*");
    extend_text(out, m.crop_width.as_str());
    extend_text(out, ":ih*");
    extend_text(out, m.crop_height.as_str());
    extend_text(out, ":iw*");
    extend_text(out, m.crop_left.as_str());
    extend_text(out, ":ih*");
    extend_text(out, m.crop_top.as_str());
    extend_text(out, ",scale=");
    extend_text(out, i64_text(m.width).as_str());
    extend_text(out, ":");
    extend_text(out, i64_text(m.height).as_str());
    assert(out@ =~= before + fitted(*m));
}

fn push_placed(out: &mut Vec<char>, m: &OverlayMask)
    ensures
        final(out)@ == old(out)@ + placed(*m),
{
    let ghost before = out@;
    extend_text(out, "overlay=");
    extend_text(out, i64_text(m.x).as_str());
    extend_text(out, ":");
    extend_text(out, i64_text(m.y).as_str());
    extend_text(out, ":enable='between(t,");
    extend_text(out, m.start.as_str());
    extend_text(out, ",");
    extend_text(out, m.end.as_str());
    extend_text(out, ")':shortest=0:repeatlast=1:format=auto");
    assert(out@ =~= before + placed(*m));
}

fn push_mask_label(out: &mut Vec<char>, k: usize)
    ensures
        final(out)@ == old(out)@ + mask_label(k as int),
{
    let ghost before = out@;
    let digits = u64_digits(k as u64);
    extend_text(out, "[mask");
    extend(out, digits.as_slice());
    extend_text(out, "]");
    assert(out@ =~= before + mask_label(k as int));
}

fn push_shown_label(out: &mut Vec<char>, k: usize, count: usize)
    ensures
        final(out)@ == old(out)@ + shown_label(k as int, count as int),
{
    let ghost before = out@;
    if k == 0 {
        extend_text(out, "[vbase]");
    } else if k == count {
        extend_text(out, "[vout]");
    } else {
        let digits = u64_digits((k - 1) as u64);
        extend_text(out, "[v");
        extend(out, digits.as_slice());
        extend_text(out, "]");
    }
    assert(out@ =~= before + shown_label(k as int, count as int));
}

/// The filter that lays pictures over a video.
pub fn build_overlay_filter(duration: &str, masks: &Vec<OverlayMask>) -> (r: String)
    ensures
        r@ == join(overlay_steps(duration@, masks@, masks@.len()), ";"@),
{
    let count: usize = masks.len();
    let mut first = to_chars("[0:v]trim=start=0:duration=");
    extend_text(&mut first, duration);
    extend_text(&mut first, ",setpts=PTS-STARTPTS[vbase]");
    let mut steps: Vec<Vec<char>> = Vec::new();
    let ghost base = first@;
    steps.push(first);
    assert(views(steps@) =~= seq![base]);
    assert(views(steps@) =~= overlay_steps(duration@, masks@, 0));
    let mut k: usize = 0;
    while k < count
        invariant
            k <= count,
            count == masks@.len(),
            views(steps@) == overlay_steps(duration@, masks@, k as nat),
        decreases count - k,
    {
        let mask = &masks[k];
        let number = u64_digits(k as u64 + 1);
        let mut picture = to_chars("[");
        extend(&mut picture, number.as_slice());
        extend_text(&mut picture, ":v]setpts=PTS-STARTPTS,format=rgba,colorchannelmixer=aa=");
        extend_text(&mut picture, mask.opacity.as_str());
        extend_text(&mut picture, ",");
        push_fitted(&mut picture, mask);
        extend_text(&mut picture, ",tpad=stop_mode=clone:stop_duration=");
        extend_text(&mut picture, duration);
        push_mask_label(&mut picture, k);
        assert(picture@ =~= prepared(*mask, k as int, duration@));
        let mut shown: Vec<char> = Vec::new();
        push_shown_label(&mut shown, k, count);
        push_mask_label(&mut shown, k);
        push_placed(&mut shown, mask);
        push_shown_label(&mut shown, k + 1, count);
        assert(shown@ =~= laid(*mask, k as int, count as int));
        let ghost done = views(steps@);
        let ghost added = (picture@, shown@);
        steps.push(picture);
        steps.push(shown);
        assert(views(steps@) =~= done.push(added.0).push(added.1));
        k += 1;
        assert(overlay_steps(duration@, masks@, k as nat) == done.push(added.0).push(added.1));
    }
    let text = joined(&steps, ";");
    to_text(text.as_slice())
}

/// The filter that lays one picture over a video.
pub fn merge_filter(mask: &OverlayMask) -> (r: String)
    ensures
        r@ == "[1:v]format=rgba,"@ + fitted(*mask) + "[mask];[0:v][mask]"@ + placed(*mask) + "[v]"@,
{
    let mut out = to_chars("[1:v]format=rgba,");
    push_fitted(&mut out, mask);
    extend_text(&mut out, "[mask];[0:v][mask]");
    push_placed(&mut out, mask);
    extend_text(&mut out, "[v]");
    to_text(out.as_slice())
}

/// What lies over the video in the end is what goes out: the last step has the name that the
/// output is taken from, and each step before it has the name that the next one starts from.
pub proof fn law_pictures_pile_up(duration: Seq<char>, masks: Seq<OverlayMask>, k: int)
    requires
        0 <= k < masks.len(),
    ensures
        overlay_steps(duration, masks, masks.len()).len() == 1 + 2 * masks.len(),
        overlay_steps(duration, masks, masks.len())[1 + 2 * k] == prepared(masks[k], k, duration),
        overlay_steps(duration, masks, masks.len())[2 + 2 * k] == laid(
            masks[k],
            k,
            masks.len() as int,
        ),
        shown_label(masks.len() as int, masks.len() as int) == "[vout]"@,
{
    lemma_overlay_steps(duration, masks, masks.len(), k);
}

proof fn lemma_overlay_steps(duration: Seq<char>, masks: Seq<OverlayMask>, upto: nat, k: int)
    requires
        upto <= masks.len(),
    ensures
        overlay_steps(duration, masks, upto).len() == 1 + 2 * upto,
        0 <= k < upto ==> overlay_steps(duration, masks, upto)[1 + 2 * k] == prepared(
            masks[k],
            k,
            duration,
        ) && overlay_steps(duration, masks, upto)[2 + 2 * k] == laid(
            masks[k],
            k,
            masks.len() as int,
        ),
    decreases upto,
{
    if upto > 0 {
        lemma_overlay_steps(duration, masks, (upto - 1) as nat, k);
    }
}

/// The arguments by which the parts of a video are put together. The time is a text.
pub open spec fn concat_arg_texts(
    list: Seq<char>,
    source: Seq<char>,
    duration: Seq<char>,
    target: Seq<char>,
) -> Seq<Seq<char>> {
    seq![
        "-hide_banner"@,
        "-loglevel"@,
        "error"@,
        "-y"@,
        "-fflags"@,
        "+genpts"@,
        "-f"@,
        "concat"@,
        "-safe"@,
        "0"@,
        "-i"@,
        list,
        "-i"@,
        source,
        "-map"@,
        "0"@,
        "-map_metadata"@,
        "1"@,
        "-map_chapters"@,
        "1"@,
        "-t"@,
        duration,
        "-c"@,
        "copy"@,
        "-movflags"@,
        "+faststart"@,
        target,
    ]
}

/// The arguments by which the parts of a video are put together.
pub fn concat_args(list: &str, source: &str, duration: &str, target: &str) -> (r: Vec<String>)
    ensures
        texts(r@) == concat_arg_texts(list@, source@, duration@, target@),
{
    let mut out: Vec<String> = Vec::new();
    out.push(copy_text("-hide_banner"));
    out.push(copy_text("-loglevel"));
    out.push(copy_text("error"));
    out.push(copy_text("-y"));
    out.push(copy_text("-fflags"));
    out.push(copy_text("+genpts"));
    out.push(copy_text("-f"));
    out.push(copy_text("concat"));
    out.push(copy_text("-safe"));
    out.push(copy_text("0"));
    out.push(copy_text("-i"));
    out.push(copy_text(list));
    out.push(copy_text("-i"));
    out.push(copy_text(source));
    out.push(copy_text("-map"));
    out.push(copy_text("0"));
    out.push(copy_text("-map_metadata"));
    out.push(copy_text("1"));
    out.push(copy_text("-map_chapters"));
    out.push(copy_text("1"));
    out.push(copy_text("-t"));
    out.push(copy_text(duration));
    out.push(copy_text("-c"));
    out.push(copy_text("copy"));
    out.push(copy_text("-movflags"));
    out.push(copy_text("+faststart"));
    out.push(copy_text(target));
    assert(texts(out@) =~= concat_arg_texts(list@, source@, duration@, target@));
    out
}

/// The arguments by which one mask is drawn into a video. The filter is a text.
pub open spec fn merge_arg_texts(
    source: Seq<char>,
    image: Seq<char>,
    target: Seq<char>,
    filter: Seq<char>,
    preset: Seq<char>,
    crf: Seq<char>,
) -> Seq<Seq<char>> {
    seq![
        "-hide_banner"@,
        "-y"@,
        "-i"@,
        source,
        "-i"@,
        image,
        "-filter_complex"@,
        filter,
        "-map"@,
        "[v]"@,
        "-map"@,
        "0:a?"@,
        "-c:v"@,
        "libx264"@,
        "-preset"@,
        preset,
        "-crf"@,
        crf,
        "-pix_fmt"@,
        "yuv420p"@,
        "-c:a"@,
        "copy"@,
        "-movflags"@,
        "+faststart"@,
        "-progress"@,
        "pipe:1"@,
        target,
    ]
}

/// The arguments by which one mask is drawn into a video.
pub fn merge_args(
    source: &str,
    image: &str,
    target: &str,
    filter: &str,
    preset: &Option<String>,
    crf: Option<i64>,
) -> (r: Vec<String>)
    ensures
        texts(r@) == merge_arg_texts(
            source@,
            image@,
            target@,
            filter@,
            match opt_text(*preset) {
                Some(p) => if known_preset(p, false) {
                    p
                } else {
                    "veryfast"@
                },
                None => "veryfast"@,
            },
            decimal(
                bounded(
                    match crf {
                        Some(n) => n,
                        None => 20,
                    },
                    16,
                    30,
                ) as int,
            ),
        ),
{
    let chosen = normalized_preset(preset, false);
    let number = i64_text(quality(crf, 20));
    let ghost expected = merge_arg_texts(source@, image@, target@, filter@, chosen@, number@);
    let mut out: Vec<String> = Vec::new();
    out.push(copy_text("-hide_banner"));
    out.push(copy_text("-y"));
    out.push(copy_text("-i"));
    out.push(copy_text(source));
    out.push(copy_text("-i"));
    out.push(copy_text(image));
    out.push(copy_text("-filter_complex"));
    out.push(copy_text(filter));
    out.push(copy_text("-map"));
    out.push(copy_text("[v]"));
    out.push(copy_text("-map"));
    out.push(copy_text("0:a?"));
    out.push(copy_text("-c:v"));
    out.push(copy_text("libx264"));
    out.push(copy_text("-preset"));
    out.push(chosen);
    out.push(copy_text("-crf"));
    out.push(number);
    out.push(copy_text("-pix_fmt"));
    out.push(copy_text("yuv420p"));
    out.push(copy_text("-c:a"));
    out.push(copy_text("copy"));
    out.push(copy_text("-movflags"));
    out.push(copy_text("+faststart"));
    out.push(copy_text("-progress"));
    out.push(copy_text("pipe:1"));
    out.push(copy_text(target));
    assert(texts(out@) =~= expected);
    out
}

/// What is wrong with a request to draw one mask, if anything is.
pub fn merge_error(
    source: &str,
    image: &str,
    target: &str,
    source_is_file: bool,
    image_is_file: bool,
) -> (r: Option<String>)
    ensures
        opt_text(r) == (if trim(source@).len() == 0 || trim(image@).len() == 0 || trim(
            target@,
        ).len() == 0 {
            Some("请选择视频、遮罩图片和输出路径"@)
        } else if !source_is_file {
            Some("视频文件不存在"@)
        } else if !image_is_file {
            Some("遮罩图片不存在"@)
        } else {
            None
        }),
{
    let s = trim_text(source);
    let i = trim_text(image);
    let t = trim_text(target);
    if s.as_str().is_empty() || i.as_str().is_empty() || t.as_str().is_empty() {
        Some(copy_text("请选择视频、遮罩图片和输出路径"))
    } else if !source_is_file {
        Some(copy_text("视频文件不存在"))
    } else if !image_is_file {
        Some(copy_text("遮罩图片不存在"))
    } else {
        None
    }
}

/// What is wrong with a request to draw masks, if anything is. `missing_image` is the path of
/// the first picture that is not there.
pub fn render_error(source: &str, target: &str, source_is_file: bool, missing_image: &Option<
    String,
>) -> (r: Option<String>)
    ensures
        opt_text(r) == (if trim(source@).len() == 0 || trim(target@).len() == 0 {
            Some("请选择视频和输出路径"@)
        } else if !source_is_file {
            Some("视频文件不存在"@)
        } else {
            match *missing_image {
                Some(path) => Some("遮罩图片不存在: "@ + path@),
                None => None,
            }
        }),
{
    let s = trim_text(source);
    let t = trim_text(target);
    if s.as_str().is_empty() || t.as_str().is_empty() {
        Some(copy_text("请选择视频和输出路径"))
    } else if !source_is_file {
        Some(copy_text("视频文件不存在"))
    } else {
        match missing_image {
            Some(path) => Some(concat2("遮罩图片不存在: ", path.as_str())),
            None => None,
        }
    }
}

// ---------------------------------------------------------------------------
// What the arguments amount to

/// Tells whether a text is the one that limits the length of what is read or written.
pub open spec fn limits(arg: Seq<char>) -> bool {
    arg == "-t"@
}

proof fn lemma_flag(n: int)
    ensures
        "-t"@ == seq!['-', 't'],
        "-y"@ == seq!['-', 'y'],
        "-i"@ == seq!['-', 'i'],
        "-r"@ == seq!['-', 'r'],
        "-f"@ == seq!['-', 'f'],
        "-c"@ == seq!['-', 'c'],
        n >= 0 ==> decimal(n).len() >= 1 && decimal(n)[0] != '-',
{
    reveal_strlit("-t");
    reveal_strlit("-y");
    reveal_strlit("-i");
    reveal_strlit("-r");
    reveal_strlit("-f");
    reveal_strlit("-c");
    assert("-t"@ =~= seq!['-', 't']);
    assert("-y"@ =~= seq!['-', 'y']);
    assert("-i"@ =~= seq!['-', 'i']);
    assert("-r"@ =~= seq!['-', 'r']);
    assert("-f"@ =~= seq!['-', 'f']);
    assert("-c"@ =~= seq!['-', 'c']);
    if n >= 0 {
        crate::text::lemma_digits_of(n as nat);
        assert(crate::text::is_digit(decimal(n)[0]));
    }
}

proof fn lemma_image_args(images: Seq<Seq<char>>, k: int)
    requires
        0 <= k < images.len(),
    ensures
        image_args(images).len() == 2 * images.len(),
        image_args(images)[2 * k] == "-i"@,
        image_args(images)[2 * k + 1] == images[k],
    decreases images.len(),
{
    let rest = images.drop_last();
    if k < rest.len() {
        lemma_image_args(rest, k);
        assert(rest[k] == images[k]);
    } else if rest.len() > 0 {
        lemma_image_args(rest, 0);
    } else {
        assert(image_args(rest).len() == 0);
    }
}

proof fn lemma_image_args_len(images: Seq<Seq<char>>)
    ensures
        image_args(images).len() == 2 * images.len(),
{
    if images.len() > 0 {
        lemma_image_args(images, 0);
    }
}

/// Tells whether a text that is handed over is no option of its own.
pub open spec fn plain_texts(p: EncodePart) -> bool {
    &&& !limits(p.start@) && !limits(p.source@) && !limits(p.output@) && !limits(p.filter@)
    &&& !limits(p.duration@)
    &&& forall|k: int| 0 <= k < p.images@.len() ==> !limits((#[trigger] p.images@[k])@)
    &&& p.frame_rate matches Some(f) ==> !limits(f@)
    &&& !limits(trim(p.color_space@)) && !limits(trim(p.color_transfer@)) && !limits(
        trim(p.color_primaries@),
    )
}

/// The parts of a rendering fill the time between them: an encoded part is read from its start,
/// the source comes first and the pictures behind it in their order, and behind all of them the
/// length of the output is given once, as the length of the part. What is written goes to the
/// output.
pub proof fn law_encoded_part_has_its_length(p: EncodePart, i: int, k: int)
    requires
        plain_texts(p),
    ensures
        ({
            let args = encode_arg_texts(p);
            let n = p.images@.len() as int;
            &&& args[4] == "-ss"@ && args[5] == p.start@
            &&& args[6] == "-i"@ && args[7] == p.source@
            &&& 0 <= k < n ==> args[8 + 2 * k] == "-i"@ && args[9 + 2 * k] == p.images@[k]@
            &&& args[8 + 2 * n] == "-filter_complex"@ && args[9 + 2 * n] == p.filter@
            &&& limits(args[16 + 2 * n]) && args[17 + 2 * n] == p.duration@
            &&& 0 <= i < args.len() && limits(args[i]) ==> i == 16 + 2 * n
            &&& args.last() == p.output@
        }),
{
    let args = encode_arg_texts(p);
    let n = p.images@.len() as int;
    let images = texts(p.images@);
    let a = reading_args(p);
    let b = image_args(images);
    let c = coding_args(p);
    let d = fitting_args(p);
    let e = writing_args(p);
    lemma_image_args_len(images);
    assert(args =~= a + (b + (c + (d + e))));
    if 0 <= k < n {
        lemma_image_args(images, k);
        assert(args[8 + 2 * k] == b[2 * k] && args[9 + 2 * k] == b[2 * k + 1]);
    }
    assert(args[8 + 2 * n] == c[0] && args[9 + 2 * n] == c[1]);
    assert(args[16 + 2 * n] == c[8] && args[17 + 2 * n] == c[9]);
    assert(args.last() == e[6]);
    if 0 <= i < args.len() && limits(args[i]) {
        lemma_flag(part_quality(p.crf) as int);
        lemma_flag(p.timescale as int);
        reveal_strlit("-hide_banner");
        reveal_strlit("-loglevel");
        reveal_strlit("error");
        reveal_strlit("-ss");
        reveal_strlit("-filter_complex");
        reveal_strlit("-map");
        reveal_strlit("[vout]");
        reveal_strlit("0:a?");
        reveal_strlit("0:s?");
        reveal_strlit("-c:v");
        reveal_strlit("libx264");
        reveal_strlit("libx265");
        reveal_strlit("-preset");
        reveal_strlit("ultrafast");
        reveal_strlit("superfast");
        reveal_strlit("veryfast");
        reveal_strlit("faster");
        reveal_strlit("fast");
        reveal_strlit("medium");
        reveal_strlit("slow");
        reveal_strlit("-crf");
        reveal_strlit("-pix_fmt");
        reveal_strlit("yuv420p");
        reveal_strlit("-c:a");
        reveal_strlit("aac");
        reveal_strlit("-b:a");
        reveal_strlit("192k");
        reveal_strlit("-c:s");
        reveal_strlit("copy");
        reveal_strlit("-colorspace");
        reveal_strlit("-color_trc");
        reveal_strlit("-color_primaries");
        reveal_strlit("-video_track_timescale");
        reveal_strlit("-map_metadata");
        reveal_strlit("0");
        reveal_strlit("-avoid_negative_ts");
        reveal_strlit("make_zero");
        reveal_strlit("-movflags");
        reveal_strlit("+faststart");
        assert("-t"@.len() == 2);
        if i < 8 {
            assert(args[i] == a[i]);
        } else if i < 8 + 2 * n {
            let m = (i - 8) / 2;
            lemma_image_args(images, m);
            assert(args[i] == b[i - 8]);
            assert(images[m] == p.images@[m]@);
        } else if i < 32 + 2 * n {
            assert(args[i] == c[i - 8 - 2 * n]);
        } else if i < 32 + 2 * n + d.len() {
            let m = i - 32 - 2 * n;
            assert(args[i] == d[m]);
            lemma_fitting(p, m);
        } else {
            assert(args[i] == e[i - 32 - 2 * n - d.len()]);
        }
    }
}

proof fn lemma_fitting(p: EncodePart, m: int)
    requires
        plain_texts(p),
        0 <= m < fitting_args(p).len(),
    ensures
        !limits(fitting_args(p)[m]),
{
    lemma_flag(p.timescale as int);
    reveal_strlit("-colorspace");
    reveal_strlit("-color_trc");
    reveal_strlit("-color_primaries");
    reveal_strlit("-video_track_timescale");
    let rate = match p.frame_rate {
        Some(f) => seq!["-r"@, f@],
        None => Seq::empty(),
    };
    let x = color_args("-colorspace"@, p.color_space@);
    let y = color_args("-color_trc"@, p.color_transfer@);
    let z = color_args("-color_primaries"@, p.color_primaries@);
    let d = fitting_args(p);
    let n1 = rate.len() as int;
    let n2 = n1 + x.len();
    let n3 = n2 + y.len();
    let n4 = n3 + z.len();
    if m < n1 {
        assert(d[m] == rate[m]);
    } else if m < n2 {
        assert(d[m] == x[m - n1]);
    } else if m < n3 {
        assert(d[m] == y[m - n2]);
    } else if m < n4 {
        assert(d[m] == z[m - n3]);
    } else {
        assert(p.timescale > 0);
        assert(d[m] == seq!["-video_track_timescale"@, decimal(p.timescale as int)][m - n4]);
    }
}

/// A part that is copied is read from its start, is limited once, to its length, and goes to the
/// output; nothing of it is encoded.
pub proof fn law_copied_part_has_its_length(
    source: Seq<char>,
    output: Seq<char>,
    start: Seq<char>,
    duration: Seq<char>,
    i: int,
)
    requires
        !limits(source) && !limits(output) && !limits(start) && !limits(duration),
    ensures
        ({
            let args = copy_arg_texts(source, output, start, duration);
            &&& args[4] == "-ss"@ && args[5] == start
            &&& args[6] == "-i"@ && args[7] == source
            &&& limits(args[8]) && args[9] == duration
            &&& 0 <= i < args.len() && limits(args[i]) ==> i == 8
            &&& args[12] == "-c"@ && args[13] == "copy"@
            &&& args.last() == output
        }),
{
    lemma_flag(0);
    reveal_strlit("-hide_banner");
    reveal_strlit("-loglevel");
    reveal_strlit("error");
    reveal_strlit("-ss");
    reveal_strlit("-map");
    reveal_strlit("0");
    reveal_strlit("copy");
    reveal_strlit("-reset_timestamps");
    reveal_strlit("1");
}

/// The parts are put together from their list, the source gives what belongs to the whole, and the
/// whole is limited once, to its length; nothing is encoded.
pub proof fn law_joined_parts_have_their_length(
    list: Seq<char>,
    source: Seq<char>,
    duration: Seq<char>,
    target: Seq<char>,
    i: int,
)
    requires
        !limits(list) && !limits(source) && !limits(duration) && !limits(target),
    ensures
        ({
            let args = concat_arg_texts(list, source, duration, target);
            &&& args[6] == "-f"@ && args[7] == "concat"@
            &&& args[10] == "-i"@ && args[11] == list
            &&& args[12] == "-i"@ && args[13] == source
            &&& args[14] == "-map"@ && args[15] == "0"@
            &&& args[16] == "-map_metadata"@ && args[17] == "1"@
            &&& limits(args[20]) && args[21] == duration
            &&& 0 <= i < args.len() && limits(args[i]) ==> i == 20
            &&& args[22] == "-c"@ && args[23] == "copy"@
            &&& args.last() == target
        }),
{
    lemma_flag(0);
    reveal_strlit("-hide_banner");
    reveal_strlit("-loglevel");
    reveal_strlit("error");
    reveal_strlit("-fflags");
    reveal_strlit("+genpts");
    reveal_strlit("concat");
    reveal_strlit("-safe");
    reveal_strlit("0");
    reveal_strlit("-map");
    reveal_strlit("-map_metadata");
    reveal_strlit("1");
    reveal_strlit("-map_chapters");
    reveal_strlit("copy");
    reveal_strlit("-movflags");
    reveal_strlit("+faststart");
}

/// One mask is drawn with the video as the first input and the picture as the second, and what is
/// written is the video with the mask, under the filter, and the sound as it was.
pub proof fn law_merge_reads_video_first(
    source: Seq<char>,
    image: Seq<char>,
    target: Seq<char>,
    filter: Seq<char>,
    preset: Seq<char>,
    crf: Seq<char>,
)
    ensures
        ({
            let args = merge_arg_texts(source, image, target, filter, preset, crf);
            &&& args[2] == "-i"@ && args[3] == source
            &&& args[4] == "-i"@ && args[5] == image
            &&& args[6] == "-filter_complex"@ && args[7] == filter
            &&& args[8] == "-map"@ && args[9] == "[v]"@
            &&& args[10] == "-map"@ && args[11] == "0:a?"@
            &&& args[14] == "-preset"@ && args[15] == preset
            &&& args[16] == "-crf"@ && args[17] == crf
            &&& args[20] == "-c:a"@ && args[21] == "copy"@
            &&& args.last() == target
        }),
{
}

/// Changing a container copies what the source holds to the target.
pub proof fn law_remux_copies(source: Seq<char>, target: Seq<char>)
    ensures
        remux_arg_texts(source, target).contains("copy"@),
        remux_arg_texts(source, target)[4] == "-i"@,
        remux_arg_texts(source, target)[5] == source,
        remux_arg_texts(source, target)[6] == "-c"@,
        remux_arg_texts(source, target)[7] == "copy"@,
        remux_arg_texts(source, target).last() == target,
{
    assert(remux_arg_texts(source, target)[7] == "copy"@);
}

proof fn lemma_occurs(a: Seq<char>, p: Seq<char>, b: Seq<char>)
    ensures
        crate::text::occurs_at(a + p + b, p, a.len() as int),
        crate::text::contains(a + p + b, p),
{
    assert((a + p + b).subrange(a.len() as int, (a.len() + p.len()) as int) =~= p);
    assert(crate::text::occurs_at(a + p + b, p, a.len() as int));
}

/// A mask is shown at its place and in its time, and no longer: its left edge stands before its
/// upper one, and its start before its end. It is cut to its share of the picture and scaled to its
/// width and its height.
pub proof fn law_mask_is_shown_in_its_place(m: OverlayMask)
    ensures
        starts_with(
            placed(m),
            "overlay="@ + decimal(m.x as int) + ":"@ + decimal(m.y as int) + ":"@,
        ),
        crate::text::contains(placed(m), "between(t,"@ + m.start@ + ","@ + m.end@ + ")"@),
        starts_with(fitted(m), "crop=iw*"@ + m.crop_width@ + ":ih*"@ + m.crop_height@ + ":"@),
        crate::text::contains(fitted(m), ":iw*"@ + m.crop_left@ + ":ih*"@ + m.crop_top@ + ","@),
        ends_with(
            fitted(m),
            "scale="@ + decimal(m.width as int) + ":"@ + decimal(m.height as int),
        ),
{
    let x = decimal(m.x as int);
    let y = decimal(m.y as int);
    let w = decimal(m.width as int);
    let h = decimal(m.height as int);
    reveal_strlit(":");
    reveal_strlit(",");
    reveal_strlit(")");
    reveal_strlit(":ih*");
    reveal_strlit(":iw*");
    reveal_strlit(",scale=");
    reveal_strlit("scale=");
    reveal_strlit("between(t,");
    reveal_strlit(":enable='between(t,");
    reveal_strlit(")':shortest=0:repeatlast=1:format=auto");
    let head = "overlay="@ + x + ":"@ + y + ":"@;
    assert(placed(m).subrange(0, head.len() as int) =~= head);
    let time = "between(t,"@ + m.start@ + ","@ + m.end@ + ")"@;
    let before = "overlay="@ + x + ":"@ + y + seq![':', 'e', 'n', 'a', 'b', 'l', 'e', '=', '\''];
    let behind = ")':shortest=0:repeatlast=1:format=auto"@.skip(1);
    assert(placed(m) =~= before + time + behind);
    lemma_occurs(before, time, behind);
    let cut = "crop=iw*"@ + m.crop_width@ + ":ih*"@ + m.crop_height@ + ":"@;
    assert(fitted(m).subrange(0, cut.len() as int) =~= cut);
    let from = ":iw*"@ + m.crop_left@ + ":ih*"@ + m.crop_top@ + ","@;
    let front = "crop=iw*"@ + m.crop_width@ + ":ih*"@ + m.crop_height@;
    let rest = ",scale="@.skip(1) + w + ":"@ + h;
    assert(fitted(m) =~= front + from + rest);
    lemma_occurs(front, from, rest);
    let size = "scale="@ + w + ":"@ + h;
    assert(fitted(m).subrange(fitted(m).len() - size.len(), fitted(m).len() as int) =~= size);
}

/// Every mask takes its own picture: the one that is read as its own input, behind the video. It is
/// laid over what the masks before it left, and what the last one leaves goes out.
pub proof fn law_mask_takes_its_picture(
    p: EncodePart,
    masks: Seq<OverlayMask>,
    duration: Seq<char>,
    k: int,
)
    requires
        0 <= k < masks.len(),
        masks.len() == p.images@.len(),
    ensures
        ({
            let steps = overlay_steps(duration, masks, masks.len());
            let count = masks.len() as int;
            &&& encode_arg_texts(p)[8 + 2 * k] == "-i"@
            &&& encode_arg_texts(p)[9 + 2 * k] == p.images@[k]@
            &&& starts_with(steps[1 + 2 * k], "["@ + decimal(k + 1) + ":v]"@)
            &&& crate::text::contains(steps[1 + 2 * k], "aa="@ + masks[k].opacity@ + ","@)
            &&& crate::text::contains(steps[1 + 2 * k], fitted(masks[k]))
            &&& ends_with(steps[1 + 2 * k], "[mask"@ + decimal(k) + "]"@)
            &&& crate::text::contains(steps[2 + 2 * k], placed(masks[k]))
            &&& crate::text::contains(steps[2 + 2 * k], "[mask"@ + decimal(k) + "]"@)
            &&& k == 0 ==> starts_with(steps[2], "[vbase]"@) && ends_with(steps[0], "[vbase]"@)
            &&& k > 0 ==> starts_with(steps[2 + 2 * k], "[v"@ + decimal(k - 1) + "]"@)
                && ends_with(steps[2 * k], "[v"@ + decimal(k - 1) + "]"@)
            &&& k + 1 == count ==> ends_with(steps[2 + 2 * k], "[vout]"@)
        }),
{
    let steps = overlay_steps(duration, masks, masks.len());
    let count = masks.len() as int;
    let m = masks[k];
    let images = texts(p.images@);
    lemma_image_args(images, k);
    let args = encode_arg_texts(p);
    assert(args[8 + 2 * k] == image_args(images)[2 * k]);
    assert(args[9 + 2 * k] == image_args(images)[2 * k + 1]);
    law_pictures_pile_up(duration, masks, k);
    lemma_prepared(m, k, duration);
    lemma_laid(m, k, count);
    if k > 0 {
        law_pictures_pile_up(duration, masks, k - 1);
        lemma_laid(masks[k - 1], k - 1, count);
    } else {
        lemma_first_step(duration, masks, masks.len());
        reveal_strlit("[vbase]");
        reveal_strlit(",setpts=PTS-STARTPTS[vbase]");
        let base = steps[0];
        assert(base.subrange(base.len() - 7, base.len() as int) =~= "[vbase]"@);
    }
}

proof fn lemma_prepared(m: OverlayMask, k: int, duration: Seq<char>)
    ensures
        starts_with(prepared(m, k, duration), "["@ + decimal(k + 1) + ":v]"@),
        crate::text::contains(prepared(m, k, duration), "aa="@ + m.opacity@ + ","@),
        crate::text::contains(prepared(m, k, duration), fitted(m)),
        ends_with(prepared(m, k, duration), "[mask"@ + decimal(k) + "]"@),
{
    let one = prepared(m, k, duration);
    let input = "["@ + decimal(k + 1) + ":v]"@;
    reveal_strlit(":v]");
    reveal_strlit("aa=");
    reveal_strlit(":v]setpts=PTS-STARTPTS,format=rgba,colorchannelmixer=aa=");
    let lead = ":v]setpts=PTS-STARTPTS,format=rgba,colorchannelmixer=aa="@;
    let pad = ",tpad=stop_mode=clone:stop_duration="@;
    assert(one.subrange(0, input.len() as int) =~= input);
    let share = "aa="@ + m.opacity@ + ","@;
    let front = "["@ + decimal(k + 1) + lead.take(lead.len() - 3);
    let rest = fitted(m) + pad + duration + mask_label(k);
    assert(one =~= front + share + rest);
    lemma_occurs(front, share, rest);
    let head = "["@ + decimal(k + 1) + lead + m.opacity@ + ","@;
    let tail = pad + duration + mask_label(k);
    assert(one =~= head + fitted(m) + tail);
    lemma_occurs(head, fitted(m), tail);
    assert(one.subrange(one.len() - mask_label(k).len(), one.len() as int) =~= mask_label(k));
}

proof fn lemma_laid(m: OverlayMask, k: int, count: int)
    ensures
        crate::text::contains(laid(m, k, count), placed(m)),
        crate::text::contains(laid(m, k, count), mask_label(k)),
        starts_with(laid(m, k, count), shown_label(k, count)),
        ends_with(laid(m, k, count), shown_label(k + 1, count)),
{
    let two = laid(m, k, count);
    let from = shown_label(k, count);
    let to = shown_label(k + 1, count);
    let label = mask_label(k);
    let p = placed(m);
    assert(two =~= (from + label) + p + to);
    lemma_occurs(from + label, p, to);
    assert(two =~= from + label + (p + to));
    lemma_occurs(from, label, p + to);
    assert(two.subrange(0, from.len() as int) =~= from);
    assert(two.subrange(two.len() - to.len(), two.len() as int) =~= to);
}

proof fn lemma_first_step(duration: Seq<char>, masks: Seq<OverlayMask>, upto: nat)
    ensures
        overlay_steps(duration, masks, upto).len() > 0,
        overlay_steps(duration, masks, upto)[0] == "[0:v]trim=start=0:duration="@ + duration
            + ",setpts=PTS-STARTPTS[vbase]"@,
    decreases upto,
{
    if upto > 0 {
        lemma_first_step(duration, masks, (upto - 1) as nat);
    }
}

/// Progress is made readable once, behind the mark that lets the output be replaced.
pub proof fn law_progress_follows_mark(args: Seq<Seq<char>>, k: int)
    requires
        0 <= k < args.len(),
        args[k] == "-y"@,
        forall|i: int| 0 <= i < k ==> #[trigger] args[i] != "-y"@,
    ensures
        args_with_progress(args) == args.take(k + 1) + seq!["-nostats"@, "-progress"@, "pipe:1"@]
            + args.skip(k + 1),
{
    lemma_mark_index(args, k);
}

proof fn lemma_mark_index(args: Seq<Seq<char>>, k: int)
    requires
        0 <= k < args.len(),
        args[k] == "-y"@,
        forall|i: int| 0 <= i < k ==> #[trigger] args[i] != "-y"@,
    ensures
        overwrite_index(args) == k,
    decreases k,
{
    if k > 0 {
        let rest = args.drop_first();
        assert(args[0] != "-y"@);
        assert forall|i: int| 0 <= i < k - 1 implies #[trigger] rest[i] != "-y"@ by {
            assert(rest[i] == args[i + 1]);
        }
        lemma_mark_index(rest, k - 1);
    }
}

/// The files of a list stand in it line by line, in their order, each between quotes.
pub proof fn law_list_keeps_files(paths: Seq<Seq<char>>, k: int)
    requires
        0 <= k < paths.len(),
        forall|i: int, c: int|
            0 <= i < paths.len() && 0 <= c < paths[i].len() ==> #[trigger] paths[i][c] != '\n'
                && paths[i][c] != '\'',
    ensures
        crate::text::split_on(concat_list_text(paths), '\n').len() == paths.len(),
        crate::text::split_on(concat_list_text(paths), '\n')[k] == "file '"@ + paths[k] + "'"@,
{
    let lines = Seq::new(paths.len(), |i: int| list_line(paths[i]));
    reveal_strlit("'");
    reveal_strlit("file '");
    reveal_strlit("\n");
    assert("\n"@ =~= seq!['\n']);
    assert forall|i: int| 0 <= i < paths.len() implies #[trigger] lines[i] == "file '"@ + paths[i]
        + "'"@ && !lines[i].contains('\n') by {
        assert("'"@ =~= seq!['\'']);
        lemma_nothing_replaced(paths[i]);
        let line = "file '"@ + paths[i] + "'"@;
        assert forall|c: int| 0 <= c < line.len() implies line[c] != '\n' by {
            if 6 <= c < 6 + paths[i].len() {
                assert(line[c] == paths[i][c - 6]);
            }
        }
    }
    assert(lines[k] == "file '"@ + paths[k] + "'"@);
    crate::text::lemma_join_split(lines, '\n');
}

proof fn lemma_nothing_replaced(path: Seq<char>)
    requires
        forall|c: int| 0 <= c < path.len() ==> path[c] != '\'',
    ensures
        quoted(path) == path,
{
    reveal_strlit("'");
    let q = "'"@;
    crate::text::lemma_find_is_leftmost(path, q, 0);
    if let Some(i) = crate::text::find_from(path, q, 0) {
        assert(path.subrange(i, i + 1)[0] == path[i]);
    }
}

// ---------------------------------------------------------------------------
// What probing tells

/// The video of a file is its first stream of that kind.
pub proof fn law_first_video_stream(streams: Seq<JsonView>, i: int)
    requires
        0 <= i <= streams.len(),
        forall|k: int|
            0 <= k < i ==> text_at(#[trigger] streams[k], "codec_type"@) != Some("video"@),
        i < streams.len() ==> text_at(streams[i], "codec_type"@) == Some("video"@),
    ensures
        video_index(streams) == i,
    decreases streams.len(),
{
    if i > 0 {
        assert(text_at(streams[0], "codec_type"@) != Some("video"@));
        let rest = streams.drop_first();
        assert forall|k: int| 0 <= k < i - 1 implies text_at(#[trigger] rest[k], "codec_type"@)
            != Some("video"@) by {
            assert(rest[k] == streams[k + 1]);
        }
        if i < streams.len() {
            assert(rest[i - 1] == streams[i]);
        }
        law_first_video_stream(rest, i - 1);
    }
}

/// The length of a file stands with its format, and the first of its streams first.
pub proof fn law_file_told(value: JsonView, format: JsonView, streams: Seq<JsonView>)
    ensures
        field(value, "format"@) == Some(format) ==> file_duration(value) == text_at(
            format,
            "duration"@,
        ),
        field(value, "format"@) is None ==> file_duration(value) is None,
        list_at(value, "streams"@) == streams && streams.len() > 0 ==> first_stream(value) == Some(
            streams[0],
        ),
        list_at(value, "streams"@).len() == 0 ==> first_stream(value) is None,
{
}

/// The unit of time of a stream is one part in as many as stand behind the slash.
pub proof fn law_timescale_behind_slash(a: Seq<char>, n: i64)
    requires
        forall|k: int| 0 <= k < a.len() ==> a[k] != '/',
        trim(decimal(n as int)) == decimal(n as int),
    ensures
        n > 0 ==> base_timescale(a.push('/') + decimal(n as int)) == n,
        n <= 0 ==> base_timescale(a.push('/') + decimal(n as int)) == 0,
        base_timescale(a) == 0,
{
    let d = decimal(n as int);
    let whole = a.push('/') + d;
    crate::text::lemma_index_of(whole, '/');
    assert(whole[a.len() as int] == '/');
    let at = index_of(whole, '/');
    if at < a.len() {
        assert(whole[at] == a[at]);
    }
    assert(at == a.len());
    assert(whole.skip(at + 1) =~= d);
    crate::text::lemma_decimal_round_trip(n);
    crate::text::lemma_index_of(a, '/');
    if index_of(a, '/') < a.len() {
        assert(a[index_of(a, '/')] == '/');
    }
}

/// The rate is the average one where it is told, else the real one.
pub proof fn law_average_rate_first(stream: JsonView)
    ensures
        text_at(stream, "avg_frame_rate"@) is Some ==> rate_text(stream) == text_at(
            stream,
            "avg_frame_rate"@,
        ),
        text_at(stream, "avg_frame_rate"@) is None ==> rate_text(stream) == text_at(
            stream,
            "r_frame_rate"@,
        ),
{
}

/// How many streams of a list are of a kind.
pub open spec fn streams_of_kind(streams: Seq<JsonView>, kind: Seq<char>) -> int
    decreases streams.len(),
{
    if streams.len() == 0 {
        0
    } else {
        (if text_at(streams[0], "codec_type"@) == Some(kind) {
            1int
        } else {
            0
        }) + streams_of_kind(streams.drop_first(), kind)
    }
}

proof fn lemma_kind_pushed(streams: Seq<JsonView>, kind: Seq<char>)
    requires
        streams.len() > 0,
    ensures
        streams_of_kind(streams, kind) == streams_of_kind(streams.drop_last(), kind) + (
        if text_at(streams.last(), "codec_type"@) == Some(kind) {
            1int
        } else {
            0
        }),
    decreases streams.len(),
{
    if streams.len() == 1 {
        assert(streams.drop_first().len() == 0);
        assert(streams.drop_last().len() == 0);
        assert(streams_of_kind(streams.drop_first(), kind) == 0);
        assert(streams_of_kind(streams.drop_last(), kind) == 0);
    } else {
        let rest = streams.drop_first();
        lemma_kind_pushed(rest, kind);
        assert(rest.drop_last() =~= streams.drop_last().drop_first());
        assert(rest.last() == streams.last());
        assert(streams.drop_last()[0] == streams[0]);
    }
}

/// What is told of a file is the codec, the rate and the colours of its first video, and how many
/// sounds and subtitles it has.
pub proof fn law_streams_told(streams: Seq<JsonView>, i: int)
    requires
        0 <= i < streams.len(),
        text_at(streams[i], "codec_type"@) == Some("video"@),
        text_or_empty(streams[i], "codec_name"@).len() > 0,
        forall|k: int|
            0 <= k < i ==> text_at(#[trigger] streams[k], "codec_type"@) != Some("video"@),
    ensures
        ({
            let info = stream_info(streams);
            &&& info.codec == text_or_empty(streams[i], "codec_name"@)
            &&& info.rate == rate_text(streams[i])
            &&& info.space == text_or_empty(streams[i], "color_space"@)
            &&& info.transfer == text_or_empty(streams[i], "color_transfer"@)
            &&& info.primaries == text_or_empty(streams[i], "color_primaries"@)
            &&& info.audio == streams_of_kind(streams, "audio"@)
            &&& info.subtitle == streams_of_kind(streams, "subtitle"@)
        }),
    decreases streams.len(),
{
    lemma_stream_kinds_differ();
    let rest = streams.drop_last();
    let n = streams.len() - 1;
    assert(streams[n] == streams.last());
    lemma_kind_pushed(streams, "audio"@);
    lemma_kind_pushed(streams, "subtitle"@);
    if i < n {
        assert(rest[i] == streams[i]);
        assert forall|k: int| 0 <= k < i implies text_at(#[trigger] rest[k], "codec_type"@) != Some(
            "video"@,
        ) by {
            assert(rest[k] == streams[k]);
        }
        law_streams_told(rest, i);
    } else {
        assert forall|k: int| 0 <= k < rest.len() implies text_at(
            #[trigger] rest[k],
            "codec_type"@,
        ) != Some("video"@) by {
            assert(rest[k] == streams[k]);
        }
        lemma_no_video(rest);
    }
}

proof fn lemma_no_video(streams: Seq<JsonView>)
    requires
        forall|k: int|
            0 <= k < streams.len() ==> text_at(#[trigger] streams[k], "codec_type"@) != Some(
                "video"@,
            ),
    ensures
        stream_info(streams).codec.len() == 0,
        stream_info(streams).audio == streams_of_kind(streams, "audio"@),
        stream_info(streams).subtitle == streams_of_kind(streams, "subtitle"@),
    decreases streams.len(),
{
    lemma_stream_kinds_differ();
    if streams.len() > 0 {
        let rest = streams.drop_last();
        assert(text_at(streams[streams.len() - 1], "codec_type"@) != Some("video"@));
        assert forall|k: int| 0 <= k < rest.len() implies text_at(
            #[trigger] rest[k],
            "codec_type"@,
        ) != Some("video"@) by {
            assert(rest[k] == streams[k]);
        }
        lemma_no_video(rest);
        lemma_kind_pushed(streams, "audio"@);
        lemma_kind_pushed(streams, "subtitle"@);
    }
}

proof fn lemma_stream_kinds_differ()
    ensures
        "video"@ != "audio"@,
        "video"@ != "subtitle"@,
        "audio"@ != "subtitle"@,
{
    reveal_strlit("video");
    reveal_strlit("audio");
    reveal_strlit("subtitle");
    assert("video"@.len() == 5 && "audio"@.len() == 5 && "subtitle"@.len() == 8);
    assert("video"@[0] == 'v' && "audio"@[0] == 'a');
}

/// Every frame that tells a time is in the list, in its order; the best time is taken where it is
/// told.
pub proof fn law_every_frame_time(a: Seq<JsonView>, frame: JsonView)
    ensures
        text_at(frame, "best_effort_timestamp_time"@) is Some ==> frame_times(a.push(frame))
            == frame_times(a).push(text_at(frame, "best_effort_timestamp_time"@)->0),
        field(frame, "best_effort_timestamp_time"@) is None && text_at(frame, "pkt_pts_time"@) is Some
            ==> frame_times(a.push(frame)) == frame_times(a).push(
            text_at(frame, "pkt_pts_time"@)->0,
        ),
        field(frame, "best_effort_timestamp_time"@) is None && text_at(frame, "pkt_pts_time"@) is None
            ==> frame_times(a.push(frame)) == frame_times(a),
        frame_times(Seq::empty()).len() == 0,
{
    assert(a.push(frame).drop_last() =~= a);
}

/// The type of a picture goes by its extension, whatever its case.
pub proof fn law_picture_types(path: Seq<char>, backslash: bool, ext: Seq<char>)
    requires
        extension(path, backslash) == Some(ext),
    ensures
        ascii_lower(ext) == "png"@ ==> image_type(path, backslash) == "image/png"@,
        ascii_lower(ext) == "jpg"@ ==> image_type(path, backslash) == "image/jpeg"@,
        ascii_lower(ext) == "jpeg"@ ==> image_type(path, backslash) == "image/jpeg"@,
        ascii_lower(ext) == "webp"@ ==> image_type(path, backslash) == "image/webp"@,
{
    reveal_strlit("png");
    reveal_strlit("jpg");
    reveal_strlit("jpeg");
    reveal_strlit("webp");
    assert("png"@.len() == 3 && "jpg"@.len() == 3 && "jpeg"@.len() == 4 && "webp"@.len() == 4);
    assert("png"@[0] == 'p' && "jpg"@[0] == 'j' && "jpeg"@[0] == 'j' && "webp"@[0] == 'w');
}

/// A picture within an address stands behind its type.
pub proof fn law_picture_in_address(media_type: Seq<char>, encoded: Seq<char>)
    ensures
        data_url(media_type, encoded) == "data:"@ + media_type + ";base64,"@ + encoded,
{
}

/// The encoder is known to have these presets; the slow one only where it may take its time.
pub proof fn law_known_presets(p: Seq<char>)
    ensures
        p == "ultrafast"@ || p == "superfast"@ || p == "veryfast"@ || p == "faster"@ || p
            == "fast"@ || p == "medium"@ ==> known_preset(p, false) && known_preset(p, true),
        p == "slow"@ ==> known_preset(p, true),
        known_preset(p, true) ==> p == "ultrafast"@ || p == "superfast"@ || p == "veryfast"@ || p
            == "faster"@ || p == "fast"@ || p == "medium"@ || p == "slow"@,
        !known_preset("slow"@, false),
{
    reveal_strlit("slow");
    reveal_strlit("ultrafast");
    reveal_strlit("superfast");
    reveal_strlit("veryfast");
    reveal_strlit("faster");
    reveal_strlit("fast");
    reveal_strlit("medium");
    assert("slow"@.len() == 4 && "fast"@.len() == 4 && "slow"@[0] == 's' && "fast"@[0] == 'f');
    assert("ultrafast"@.len() == 9 && "superfast"@.len() == 9 && "veryfast"@.len() == 8
        && "faster"@.len() == 6 && "medium"@.len() == 6);
}

} // verus!
