//! Streamers: subscriptions, their state, how their recordings are submitted, and their clips.

use crate::baidu_remote::{filled, filled_text};
use crate::json::{field, integer_at, or_number, text_at, Json, JsonView};
use crate::recording::nonempty;
use crate::runtime::LiveRecordInfo;
use crate::season::copy_opt;
use crate::segments::{
    covering, locate_segment_for_offset, segment_views, well_placed, LiveRecordSegment, SegmentView,
};
use crate::session::opt_text;
use crate::text::{
    concat3, copy_text, join, joined, split, split_on, texts, to_chars, to_text, trim, trim_text,
    views,
};
use vstd::prelude::*;

verus! {

// ---------------------------------------------------------------------------
// Streamers

/// A request to subscribe to streamers.
pub struct SubscribeRequest {
    pub uids: Vec<String>,
}

/// A streamer with its state.
pub struct Anchor {
    pub id: i64,
    pub uid: String,
    pub nickname: Option<String>,
    pub live_status: i64,
    pub last_check_time: Option<String>,
    pub create_time: String,
    pub update_time: String,
    pub avatar_url: Option<String>,
    pub live_title: Option<String>,
    pub category: Option<String>,
    pub auto_record: bool,
    pub baidu_sync_enabled: bool,
    pub baidu_sync_path: Option<String>,
    pub recording_status: Option<String>,
    pub recording_file: Option<String>,
    pub recording_start_time: Option<String>,
}

/// A record of a recording.
pub struct RecordTaskRecord {
    pub id: i64,
    pub room_id: String,
    pub status: String,
    pub file_path: String,
    pub segment_index: i64,
    pub start_time: String,
    pub end_time: Option<String>,
    pub file_size: i64,
    pub title: Option<String>,
    pub error_message: Option<String>,
    pub create_time: String,
}

/// What is told of a streamer.
pub struct AnchorLiveInfo {
    pub nickname: Option<String>,
    pub live_status: i64,
    pub avatar_url: Option<String>,
    pub live_title: Option<String>,
    pub category: Option<String>,
}

/// The uids of a request that are not blank, white space aside.
pub fn requested_uids(request: &SubscribeRequest) -> (r: Vec<String>)
    ensures
        texts(r@) == nonempty(crate::baidu_output::trims(texts(request.uids@))),
{
    let ghost all = crate::baidu_output::trims(texts(request.uids@));
    let mut out: Vec<String> = Vec::new();
    let mut i: usize = 0;
    assert(all.take(0) =~= Seq::<Seq<char>>::empty());
    assert(texts(out@) =~= Seq::<Seq<char>>::empty());
    while i < request.uids.len()
        invariant
            i <= request.uids@.len(),
            all == crate::baidu_output::trims(texts(request.uids@)),
            texts(out@) == nonempty(all.take(i as int)),
        decreases request.uids.len() - i,
    {
        assert(all.take(i + 1).drop_last() =~= all.take(i as int));
        assert(all.take(i + 1).last() == trim(request.uids@[i as int]@));
        let uid = trim_text(request.uids[i].as_str());
        if !uid.as_str().is_empty() {
            let ghost done = texts(out@);
            let ghost added = uid@;
            out.push(uid);
            assert(texts(out@) =~= done.push(added));
        }
        i += 1;
    }
    assert(all.take(i as int) =~= all);
    out
}

/// What is taken of a streamer of whom nothing could be learned: what was known.
pub fn unknown_live_info(nickname: &Option<String>, live_status: i64) -> (r: AnchorLiveInfo)
    ensures
        opt_text(r.nickname) == opt_text(*nickname),
        r.live_status == live_status,
        r.avatar_url is None,
        r.live_title is None,
        r.category is None,
{
    AnchorLiveInfo {
        nickname: copy_opt(nickname),
        live_status,
        avatar_url: None,
        live_title: None,
        category: None,
    }
}

/// The category of a room: the area, behind the larger one that it is part of.
pub open spec fn room_category(parent: Option<Seq<char>>, child: Option<Seq<char>>) -> Option<
    Seq<char>,
> {
    match (parent, child) {
        (Some(p), Some(c)) => Some(p + " / "@ + c),
        (Some(p), None) => Some(p),
        (None, c) => c,
    }
}

/// What a room tells of its streamer, and the uid by which the streamer is asked for.
pub struct RoomLive {
    pub info: AnchorLiveInfo,
    pub uid: Option<i64>,
}

/// What a room tells of its streamer.
pub fn parse_room_live(data: &Json) -> (r: RoomLive)
    ensures
        r.info.live_status == or_number(integer_at(data@, "live_status"@), 0),
        opt_text(r.info.live_title) == text_at(data@, "title"@),
        opt_text(r.info.category) == room_category(
            text_at(data@, "parent_area_name"@),
            text_at(data@, "area_name"@),
        ),
        r.info.nickname is None,
        r.info.avatar_url is None,
        r.uid == (if or_number(integer_at(data@, "uid"@), 0) > 0 {
            Some(or_number(integer_at(data@, "uid"@), 0))
        } else {
            None
        }),
{
    let parent = data.get_text("parent_area_name");
    let child = data.get_text("area_name");
    let category: Option<String> = match (parent, child) {
        (Some(p), Some(c)) => Some(concat3(p.as_str(), " / ", c.as_str())),
        (Some(p), None) => Some(p),
        (None, c) => c,
    };
    let uid: i64 = data.get_i64_or("uid", 0);
    RoomLive {
        info: AnchorLiveInfo {
            nickname: None,
            live_status: data.get_i64_or("live_status", 0),
            avatar_url: None,
            live_title: data.get_text("title"),
            category,
        },
        uid: if uid > 0 {
            Some(uid)
        } else {
            None
        },
    }
}

/// A text under two keys.
pub open spec fn inner_text(v: JsonView, outer: Seq<char>, inner: Seq<char>) -> Option<Seq<char>> {
    match field(v, outer) {
        Some(o) => text_at(o, inner),
        None => None,
    }
}

/// The name and the picture that a reply tells of a streamer.
pub fn with_user_info(info: AnchorLiveInfo, data: &Json) -> (r: AnchorLiveInfo)
    ensures
        opt_text(r.nickname) == inner_text(data@, "info"@, "uname"@),
        opt_text(r.avatar_url) == inner_text(data@, "info"@, "face"@),
        r.live_status == info.live_status,
        r.live_title == info.live_title,
        r.category == info.category,
{
    let (nickname, avatar_url): (Option<String>, Option<String>) = match data.get("info") {
        Some(inner) => (inner.get_text("uname"), inner.get_text("face")),
        None => (None, None),
    };
    AnchorLiveInfo {
        nickname,
        live_status: info.live_status,
        avatar_url,
        live_title: info.live_title,
        category: info.category,
    }
}

/// The recording fields of a streamer: those of its recording, where one runs.
pub open spec fn shows_recording(a: Anchor, record: Option<LiveRecordInfo>) -> bool {
    match record {
        Some(info) => opt_text(a.recording_status) == Some("RECORDING"@) && opt_text(
            a.recording_file,
        ) == Some(info.file_path@) && opt_text(a.recording_start_time) == Some(info.start_time@),
        None => a.recording_status is None && a.recording_file is None && a.recording_start_time
            is None,
    }
}

/// A streamer with the recording that runs.
pub fn with_recording(anchor: Anchor, record: Option<LiveRecordInfo>) -> (r: Anchor)
    ensures
        shows_recording(r, record),
        r.id == anchor.id,
        r.uid == anchor.uid,
        r.nickname == anchor.nickname,
        r.live_status == anchor.live_status,
        r.last_check_time == anchor.last_check_time,
        r.create_time == anchor.create_time,
        r.update_time == anchor.update_time,
        r.avatar_url == anchor.avatar_url,
        r.live_title == anchor.live_title,
        r.category == anchor.category,
        r.auto_record == anchor.auto_record,
        r.baidu_sync_enabled == anchor.baidu_sync_enabled,
        r.baidu_sync_path == anchor.baidu_sync_path,
{
    let mut out = anchor;
    match record {
        Some(info) => {
            out.recording_status = Some(copy_text("RECORDING"));
            out.recording_file = Some(info.file_path);
            out.recording_start_time = Some(info.start_time);
        },
        None => {
            out.recording_status = None;
            out.recording_file = None;
            out.recording_start_time = None;
        },
    }
    out
}

/// A streamer after a check.
pub fn checked_anchor(
    anchor: Anchor,
    info: AnchorLiveInfo,
    record: Option<LiveRecordInfo>,
    now: &str,
) -> (r: Anchor)
    ensures
        shows_recording(r, record),
        r.id == anchor.id,
        r.uid == anchor.uid,
        r.nickname == info.nickname,
        r.live_status == info.live_status,
        opt_text(r.last_check_time) == Some(now@),
        r.create_time == anchor.create_time,
        r.update_time@ == now@,
        r.avatar_url == info.avatar_url,
        r.live_title == info.live_title,
        r.category == info.category,
        r.auto_record == anchor.auto_record,
        r.baidu_sync_enabled == anchor.baidu_sync_enabled,
        r.baidu_sync_path == anchor.baidu_sync_path,
{
    let mut out = anchor;
    out.nickname = info.nickname;
    out.live_status = info.live_status;
    out.last_check_time = Some(copy_text(now));
    out.update_time = copy_text(now);
    out.avatar_url = info.avatar_url;
    out.live_title = info.live_title;
    out.category = info.category;
    with_recording(out, record)
}

/// Tells whether a check begins a recording.
pub fn check_starts_recording(auto_record: bool, live_status: i64, recording: bool) -> (r: bool)
    ensures
        r == (auto_record && live_status == 1 && !recording),
{
    auto_record && live_status == 1 && !recording
}

// ---------------------------------------------------------------------------
// Submitting

/// How the recordings of a streamer are submitted.
pub struct AnchorSubmissionConfig {
    pub room_id: String,
    pub title: String,
    pub description: Option<String>,
    pub partition_id: i64,
    pub collection_id: Option<i64>,
    pub tags: Option<String>,
    pub topic_id: Option<i64>,
    pub mission_id: Option<i64>,
    pub activity_title: Option<String>,
    pub video_type: String,
    pub create_time: String,
    pub update_time: String,
}

/// How the recordings of a streamer are submitted, as it is entered.
pub struct AnchorSubmissionConfigInput {
    pub room_id: String,
    pub title: String,
    pub description: Option<String>,
    pub partition_id: Option<i64>,
    pub collection_id: Option<i64>,
    pub tags: Option<String>,
    pub topic_id: Option<i64>,
    pub mission_id: Option<i64>,
    pub activity_title: Option<String>,
    pub video_type: String,
}

/// The tags in a text: between commas, white space aside.
pub open spec fn tags_of(s: Seq<char>) -> Seq<Seq<char>> {
    nonempty(crate::baidu_output::trims(split_on(s, ',')))
}

/// A text, or none.
pub open spec fn or_empty(v: Option<Seq<char>>) -> Seq<char> {
    match v {
        Some(s) => s,
        None => Seq::empty(),
    }
}

/// What is wrong with what was entered, if anything is.
pub open spec fn config_error(c: AnchorSubmissionConfigInput) -> Option<Seq<char>> {
    if trim(c.room_id@).len() == 0 {
        Some("room_id 不能为空"@)
    } else if trim(c.title@).len() == 0 {
        Some("请输入投稿标题"@)
    } else if trim(c.title@).len() > 80 {
        Some("投稿标题不能超过 80 个字符"@)
    } else if or_number(c.partition_id, 0) <= 0 {
        Some("请选择B站分区"@)
    } else if trim(c.video_type@).len() == 0 {
        Some("请选择视频类型"@)
    } else if tags_of(or_empty(opt_text(c.tags))).len() == 0 {
        Some("请填写至少一个投稿标签"@)
    } else if filled(opt_text(c.description)) matches Some(d) && d.len() > 2000 {
        Some("视频描述不能超过 2000 个字符"@)
    } else {
        None
    }
}

/// What was entered as it is stored, or what is wrong with it.
pub fn check_submission_config(config: AnchorSubmissionConfigInput, now: &str) -> (r: Result<
    AnchorSubmissionConfig,
    String,
>)
    ensures
        match r {
            Ok(c) => config_error(config) is None && c.room_id@ == trim(config.room_id@)
                && c.title@ == trim(config.title@) && opt_text(c.description) == filled(
                opt_text(config.description),
            ) && Some(c.partition_id) == config.partition_id && c.collection_id
                == config.collection_id && opt_text(c.tags) == Some(
                join(tags_of(or_empty(opt_text(config.tags))), ","@),
            ) && c.topic_id == config.topic_id && c.mission_id == config.mission_id
                && c.activity_title == config.activity_title && c.video_type@ == trim(
                config.video_type@,
            ) && c.create_time@ == now@ && c.update_time@ == now@,
            Err(message) => config_error(config) == Some(message@),
        },
{
    let room_id = trim_text(config.room_id.as_str());
    if room_id.as_str().is_empty() {
        return Err(copy_text("room_id 不能为空"));
    }
    let title = trim_text(config.title.as_str());
    if title.as_str().is_empty() {
        return Err(copy_text("请输入投稿标题"));
    }
    let title_chars = to_chars(title.as_str());
    if title_chars.len() > 80 {
        return Err(copy_text("投稿标题不能超过 80 个字符"));
    }
    let partition_id: i64 = match config.partition_id {
        Some(n) => n,
        None => 0,
    };
    if partition_id <= 0 {
        return Err(copy_text("请选择B站分区"));
    }
    let video_type = trim_text(config.video_type.as_str());
    if video_type.as_str().is_empty() {
        return Err(copy_text("请选择视频类型"));
    }
    let raw_tags: Vec<char> = match &config.tags {
        Some(t) => to_chars(t.as_str()),
        None => {
            let none: Vec<char> = Vec::new();
            assert(none@ =~= Seq::<char>::empty());
            none
        },
    };
    let parts = split(raw_tags.as_slice(), ',');
    let tags = crate::baidu_output::trimmed_nonempty(&parts);
    assert(views(tags@) == tags_of(or_empty(opt_text(config.tags))));
    assert(views(tags@).len() == tags@.len());
    if tags.len() == 0 {
        return Err(copy_text("请填写至少一个投稿标签"));
    }
    let joined_tags = joined(&tags, ",");
    let description = filled_text(&config.description);
    if let Some(d) = &description {
        let chars = to_chars(d.as_str());
        if chars.len() > 2000 {
            return Err(copy_text("视频描述不能超过 2000 个字符"));
        }
    }
    Ok(
        AnchorSubmissionConfig {
            room_id,
            title,
            description,
            partition_id,
            collection_id: config.collection_id,
            tags: Some(to_text(joined_tags.as_slice())),
            topic_id: config.topic_id,
            mission_id: config.mission_id,
            activity_title: config.activity_title,
            video_type,
            create_time: copy_text(now),
            update_time: copy_text(now),
        },
    )
}

// ---------------------------------------------------------------------------
// Clips

/// The state of a search for clips.
pub struct LiveClipTaskStatus {
    pub status: String,
    pub clip_count: i64,
    pub error_message: Option<String>,
}

/// A clip.
pub struct LiveClipItem {
    pub id: i64,
    pub source_file_path: Option<String>,
    pub status: String,
    pub file_path: String,
    pub start_offset: i64,
    pub end_offset: i64,
    pub duration: i64,
    pub peak_count: i64,
    pub create_time: String,
}

/// The clips that a search found.
pub struct LiveClipListResponse {
    pub task_id: i64,
    pub room_id: String,
    pub date_label: String,
    pub status: String,
    pub clip_count: i64,
    pub error_message: Option<String>,
    pub items: Vec<LiveClipItem>,
}

/// The answer where there was no search.
pub fn no_clips(room_id: &str) -> (r: LiveClipListResponse)
    ensures
        r.task_id == 0,
        r.room_id@ == room_id@,
        r.date_label@ == Seq::<char>::empty(),
        r.status@ == "NONE"@,
        r.clip_count == 0,
        r.error_message is None,
        r.items@.len() == 0,
{
    LiveClipListResponse {
        task_id: 0,
        room_id: copy_text(room_id),
        date_label: String::new(),
        status: copy_text("NONE"),
        clip_count: 0,
        error_message: None,
        items: Vec::new(),
    }
}

/// The id of something that is stored is positive.
pub fn check_clip_id(clip_id: i64) -> (r: Result<(), String>)
    ensures
        match r {
            Ok(()) => clip_id > 0,
            Err(message) => clip_id <= 0 && message@ == "clip_id 无效"@,
        },
{
    if clip_id <= 0 {
        Err(copy_text("clip_id 无效"))
    } else {
        Ok(())
    }
}

/// The length of a clip, where its ends are in order.
pub fn clip_duration(start_offset: i64, end_offset: i64) -> (r: Result<i64, String>)
    ensures
        match r {
            Ok(duration) => 0 <= start_offset < end_offset && duration == end_offset
                - start_offset,
            Err(message) => !(0 <= start_offset < end_offset) && message@ == "时间段无效"@,
        },
{
    if start_offset < 0 || end_offset <= start_offset {
        Err(copy_text("时间段无效"))
    } else {
        Ok(end_offset - start_offset)
    }
}

/// A new length for a clip, or what is wrong with the request.
pub fn updated_clip_time(clip_id: i64, start_offset: i64, end_offset: i64) -> (r: Result<
    i64,
    String,
>)
    ensures
        match r {
            Ok(duration) => clip_id > 0 && 0 <= start_offset < end_offset && duration == end_offset
                - start_offset,
            Err(message) => if clip_id <= 0 {
                message@ == "clip_id 无效"@
            } else {
                !(0 <= start_offset < end_offset) && message@ == "时间段无效"@
            },
        },
{
    if let Err(message) = check_clip_id(clip_id) {
        return Err(message);
    }
    clip_duration(start_offset, end_offset)
}

/// Tells whether a clip does not know its source.
pub open spec fn lacks_source(item: LiveClipItem) -> bool {
    or_empty(opt_text(item.source_file_path)).len() == 0
}

fn has_no_source(item: &LiveClipItem) -> (r: bool)
    ensures
        r == lacks_source(*item),
{
    match &item.source_file_path {
        Some(s) => s.as_str().is_empty(),
        None => true,
    }
}

/// Tells whether some clip does not know its source.
pub fn any_lacks_source(items: &Vec<LiveClipItem>) -> (r: bool)
    ensures
        r == exists|i: int| 0 <= i < items@.len() && lacks_source(#[trigger] items@[i]),
{
    let mut i: usize = 0;
    while i < items.len()
        invariant
            i <= items@.len(),
            forall|k: int| 0 <= k < i ==> !lacks_source(#[trigger] items@[k]),
        decreases items.len() - i,
    {
        if has_no_source(&items[i]) {
            assert(lacks_source(items@[i as int]));
            return true;
        }
        i += 1;
    }
    false
}

/// The source that is found for a clip: the file that covers its first second.
pub open spec fn found_source(item: LiveClipItem, s: Seq<SegmentView>) -> Option<Seq<char>> {
    let at = covering(s, item.start_offset);
    if lacks_source(item) && at < s.len() {
        Some(s[at].file_path)
    } else {
        None
    }
}

/// The source that is found for a clip that does not know it.
pub fn find_source(item: &LiveClipItem, segments: &Vec<LiveRecordSegment>) -> (r: Option<String>)
    requires
        well_placed(segment_views(segments@)),
    ensures
        opt_text(r) == found_source(*item, segment_views(segments@)),
{
    if !has_no_source(item) {
        return None;
    }
    match locate_segment_for_offset(segments, item.start_offset) {
        Some((i, _, _)) => {
            assert(segment_views(segments@)[i as int] == segments@[i as int]@);
            Some(copy_text(segments[i].file_path.as_str()))
        },
        None => None,
    }
}

/// The state of a clip of which none is stored: it was cut.
pub fn settled_status(status: &str) -> (r: Option<String>)
    ensures
        opt_text(r) == (if trim(status@).len() == 0 {
            Some("SUCCESS"@)
        } else {
            None
        }),
{
    let bare = trim_text(status);
    if bare.as_str().is_empty() {
        Some(copy_text("SUCCESS"))
    } else {
        None
    }
}

/// Tells whether the source of a clip can be looked for.
pub fn can_find_source(task_id: i64, room_id: &str, start_offset: i64) -> (r: bool)
    ensures
        r == (task_id > 0 && trim(room_id@).len() > 0 && start_offset >= 0),
{
    let bare = trim_text(room_id);
    task_id > 0 && !bare.as_str().is_empty() && start_offset >= 0
}

/// Tells whether a file in the directory of clips is a clip that was cut.
pub fn is_clip_file(name: &str) -> (r: bool)
    ensures
        r == (crate::text::starts_with(name@, "clip_"@) && crate::text::ends_with(
            name@,
            ".mp4"@,
        )),
{
    let chars = to_chars(name);
    crate::text::begins(chars.as_slice(), "clip_") && crate::text::finishes(
        chars.as_slice(),
        ".mp4",
    )
}

/// What a search for clips is refused for.
pub fn check_clip_request(room_id: &str, record_ids: &[i64]) -> (r: Result<String, String>)
    ensures
        match r {
            Ok(room) => trim(room_id@).len() > 0 && record_ids@.len() > 0 && room@ == trim(room_id@),
            Err(message) => if trim(room_id@).len() == 0 {
                message@ == "room_id 不能为空"@
            } else {
                record_ids@.len() == 0 && message@ == "record_ids 不能为空"@
            },
        },
{
    let room = trim_text(room_id);
    if room.as_str().is_empty() {
        return Err(copy_text("room_id 不能为空"));
    }
    if record_ids.len() == 0 {
        return Err(copy_text("record_ids 不能为空"));
    }
    Ok(room)
}

// ---------------------------------------------------------------------------
// What a room and its clips tell

/// The category of a room names its area behind the area that holds it, as far as they are told.
pub proof fn law_category_names_both(p: Seq<char>, c: Seq<char>)
    ensures
        room_category(Some(p), Some(c)) == Some(p + " / "@ + c),
        room_category(Some(p), None) == Some(p),
        room_category(None, Some(c)) == Some(c),
        room_category(None, None) is None,
{
}

/// The names within are told by the value within, where it is there.
pub proof fn law_text_within(v: JsonView, outer: Seq<char>, inner: Seq<char>, o: JsonView)
    ensures
        field(v, outer) == Some(o) ==> inner_text(v, outer, inner) == text_at(o, inner),
        field(v, outer) is None ==> inner_text(v, outer, inner) is None,
{
}

/// A room that is recorded shows the file and the beginning; one that is not shows neither.
pub proof fn law_recording_shown(a: Anchor, info: LiveRecordInfo)
    ensures
        shows_recording(a, Some(info)) ==> a.recording_file is Some && a.recording_file->0@
            == info.file_path@ && a.recording_start_time is Some && a.recording_start_time->0@
            == info.start_time@ && a.recording_status is Some && a.recording_status->0@
            == "RECORDING"@,
        shows_recording(a, None) ==> a.recording_file is None && a.recording_start_time is None
            && a.recording_status is None,
{
}

/// A submission is accepted just where it has a room, a title of eighty characters at most, a
/// partition, a type, a tag, and a description of two thousand characters at most.
pub proof fn law_submission_accepted(c: AnchorSubmissionConfigInput)
    ensures
        config_error(c) is None <==> {
            &&& trim(c.room_id@).len() > 0
            &&& 0 < trim(c.title@).len() <= 80
            &&& c.partition_id is Some && c.partition_id->0 > 0
            &&& trim(c.video_type@).len() > 0
            &&& c.tags is Some && tags_of(c.tags->0@).len() > 0
            &&& c.description is Some ==> trim(c.description->0@).len() <= 2000
        },
{
    let none = Seq::<char>::empty();
    if c.tags is None {
        assert(trim(none) =~= none);
        assert(split_on(none, ',') =~= seq![none]);
        let parts = crate::baidu_output::trims(split_on(none, ','));
        assert(parts =~= seq![none]);
        reveal_with_fuel(nonempty, 2);
        assert(parts.last().len() == 0);
        assert(parts.drop_last().len() == 0);
        assert(tags_of(none).len() == 0);
    }
}

/// What is missing is told, in this order.
pub proof fn law_submission_error_told(c: AnchorSubmissionConfigInput)
    ensures
        trim(c.room_id@).len() == 0 ==> config_error(c) == Some("room_id 不能为空"@),
        trim(c.room_id@).len() > 0 && trim(c.title@).len() == 0 ==> config_error(c) == Some(
            "请输入投稿标题"@,
        ),
        trim(c.room_id@).len() > 0 && trim(c.title@).len() > 80 ==> config_error(c) == Some(
            "投稿标题不能超过 80 个字符"@,
        ),
        trim(c.room_id@).len() > 0 && 0 < trim(c.title@).len() <= 80 && c.partition_id is None
            ==> config_error(c) == Some("请选择B站分区"@),
        trim(c.room_id@).len() > 0 && 0 < trim(c.title@).len() <= 80 && c.partition_id is Some
            && c.partition_id->0 > 0 && trim(c.video_type@).len() == 0 ==> config_error(c) == Some(
            "请选择视频类型"@,
        ),
{
}

/// A clip without a file gets that of the recording that holds its beginning, and one with a file
/// keeps it.
pub proof fn law_clip_gets_its_file(item: LiveClipItem, s: Seq<SegmentView>)
    ensures
        item.source_file_path is Some && item.source_file_path->0@.len() > 0 ==> found_source(
            item,
            s,
        ) is None,
        (item.source_file_path is None || item.source_file_path->0@.len() == 0) && covering(
            s,
            item.start_offset,
        ) < s.len() ==> found_source(item, s) == Some(s[covering(s, item.start_offset)].file_path),
        covering(s, item.start_offset) >= s.len() ==> found_source(item, s) is None,
{
}

} // verus!
