//! What happens around a recording session: starting and retrying it, naming its files,
//! recovering files that were left behind, and turning finished files into MP4.

use crate::json::{
    field, fields_view, law_field_update, lemma_field_at, lemma_object_view, text_at, with_field,
    Json, JsonView,
};
use crate::outside::{
    format_utc, parse_moment, rfc3339_after, rfc3339_later, rfc3339_moment, utc_text, TimePoint,
};
use crate::session::{opt_text, RecordStatus};
use crate::stream::LiveRoomInfo;
use crate::text::{
    all_digits, ascii_lower, contains, copy_text, decimal, digits_of, digits_value, extend,
    extend_text, i64_digits, i64_value, is_digit, is_text, join, lemma_digits_of, lemma_join_split,
    lemma_no_place, lemma_other_place, lemma_place_filled, lowered, replace, replaced, split,
    split_on, text_has, texts, to_chars, to_text, trim, trim_text, u64_digits, views,
};
use vstd::prelude::*;

verus! {

/// A file older than this is no longer turned into MP4 after a crash.
pub const STALE_RECORD_REMUX_MAX_AGE_SECS: u64 = 129_600;

/// A file that was not written for so long belongs to no running recording.
pub const STALE_RECORD_IDLE_SECS: u64 = 1800;

/// The seconds between two searches for files left behind.
pub const STALE_RECORD_RECOVERY_INTERVAL_SECS: u64 = 600;

/// A source of at least this size is expected to give an output of a fair size.
pub const REMUX_SUSPECT_SOURCE_MIN_BYTES: u64 = 104_857_600;

/// An output below one part in so many of its source is suspicious.
pub const REMUX_SUSPECT_RATIO_DEN: u64 = 10;

/// An output below this size is never kept.
pub const REMUX_MIN_VALID_OUTPUT_BYTES: u64 = 2_097_152;

/// Nanoseconds in a second.
pub const SECOND: u64 = 1_000_000_000;

/// So many times at most a failed session is begun anew.
pub const SESSION_RETRY_LIMIT: u32 = 10;

/// A session that failed within so many seconds is not begun anew.
pub const SHORT_SESSION_SECS: u64 = 60;

// ---------------------------------------------------------------------------
// Starting and retrying

/// What starting a recording comes to.
#[derive(Clone, Copy, PartialEq, Eq, Structural)]
pub enum StartDecision {
    /// The room is being recorded already.
    AlreadyRunning,
    /// The room is not live.
    NotLive,
    /// The recording starts.
    Start,
}

impl StartDecision {
    /// The error of a recording that cannot start.
    pub fn error(self) -> (r: Option<String>)
        ensures
            opt_text(r) == (if self == StartDecision::NotLive {
                Some("当前未开播"@)
            } else {
                None
            }),
    {
        match self {
            StartDecision::NotLive => Some(copy_text("当前未开播")),
            _ => None,
        }
    }
}

/// Decides whether a recording starts.
pub fn start_decision(recording: bool, live_status: i64) -> (r: StartDecision)
    ensures
        r == (if recording {
            StartDecision::AlreadyRunning
        } else if live_status != 1 {
            StartDecision::NotLive
        } else {
            StartDecision::Start
        }),
{
    if recording {
        StartDecision::AlreadyRunning
    } else if live_status != 1 {
        StartDecision::NotLive
    } else {
        StartDecision::Start
    }
}

/// What a look at a room comes to.
#[derive(Clone, Copy, PartialEq, Eq, Structural)]
pub enum AutoAction {
    Start,
    Stop,
    Nothing,
}

/// What to do about a room: a live room is recorded where that is wanted, and a recording
/// ends with the broadcast.
pub fn auto_record_action(live_status: i64, auto_record: bool, recording: bool) -> (r: AutoAction)
    ensures
        r == (if live_status == 1 && auto_record && !recording {
            AutoAction::Start
        } else if live_status != 1 && recording {
            AutoAction::Stop
        } else {
            AutoAction::Nothing
        }),
{
    if live_status == 1 && auto_record && !recording {
        AutoAction::Start
    } else if live_status != 1 && recording {
        AutoAction::Stop
    } else {
        AutoAction::Nothing
    }
}

/// Tells whether a session that ended may be begun anew, once the room is seen to be live: it
/// failed, nobody stopped it, it lasted, and it was not begun anew too often.
pub open spec fn retry_allowed(
    failed: bool,
    stopped: bool,
    elapsed_secs: u64,
    retry_count: u32,
) -> bool {
    failed && !stopped && elapsed_secs >= SHORT_SESSION_SECS && retry_count < SESSION_RETRY_LIMIT
}

/// Tells whether a session that ended may be begun anew, once the room is seen to be live.
pub fn may_retry(failed: bool, stopped: bool, elapsed_secs: u64, retry_count: u32) -> (r: bool)
    ensures
        r == retry_allowed(failed, stopped, elapsed_secs, retry_count),
{
    failed && !stopped && elapsed_secs >= SHORT_SESSION_SECS && retry_count < SESSION_RETRY_LIMIT
}

/// The number of retries once a room was looked at again: one more where it is live, else the
/// recording ends. `live_status` is none where the room could not be looked at.
pub fn next_retry(retry_count: u32, live_status: Option<i64>) -> (r: Option<u32>)
    requires
        retry_count < SESSION_RETRY_LIMIT,
    ensures
        r == (if live_status == Some(1i64) {
            Some((retry_count + 1) as u32)
        } else {
            None
        }),
{
    match live_status {
        Some(status) => if status == 1 {
            Some(retry_count + 1)
        } else {
            None
        },
        None => None,
    }
}

/// A session is begun anew at most ten times.
pub proof fn law_retries_bounded(failed: bool, stopped: bool, elapsed_secs: u64, retry_count: u32)
    requires
        retry_count >= SESSION_RETRY_LIMIT,
    ensures
        !retry_allowed(failed, stopped, elapsed_secs, retry_count),
{
}

// ---------------------------------------------------------------------------
// The read buffer

/// Chunks of a stream, handed out in pieces of another size.
pub struct StreamBuffer {
    pub leftover: Vec<u8>,
    pub pos: usize,
}

impl StreamBuffer {
    /// The position lies within the chunk.
    pub open spec fn wf(&self) -> bool {
        self.pos <= self.leftover@.len()
    }

    /// The bytes that were not handed out yet.
    pub open spec fn view(&self) -> Seq<u8> {
        self.leftover@.skip(self.pos as int)
    }

    /// An empty buffer.
    pub fn new() -> (r: Self)
        ensures
            r.wf(),
            r@ == Seq::<u8>::empty(),
    {
        let r = StreamBuffer { leftover: Vec::new(), pos: 0 };
        assert(r@ =~= Seq::<u8>::empty());
        r
    }

    /// Tells whether another chunk is needed.
    pub fn needs_chunk(&self) -> (r: bool)
        requires
            self.wf(),
        ensures
            r == (self@.len() == 0),
    {
        self.pos >= self.leftover.len()
    }

    /// Takes another chunk. An empty chunk ends the stream: it is refused.
    pub fn offer(&mut self, bytes: Vec<u8>) -> (r: bool)
        requires
            old(self).wf(),
            old(self)@.len() == 0,
        ensures
            r == (bytes@.len() > 0),
            final(self).wf(),
            final(self)@ == bytes@,
    {
        if bytes.len() == 0 {
            assert(self@ =~= bytes@);
            return false;
        }
        self.leftover = bytes;
        self.pos = 0;
        assert(self@ =~= bytes@);
        true
    }

    /// Hands out at most so many bytes.
    pub fn read(&mut self, max: usize) -> (r: Vec<u8>)
        requires
            old(self).wf(),
        ensures
            final(self).wf(),
            r@ + final(self)@ == old(self)@,
            r@.len() == (if old(self)@.len() < max {
                old(self)@.len() as int
            } else {
                max as int
            }),
    {
        let left: usize = self.leftover.len() - self.pos;
        let n: usize = if left < max {
            left
        } else {
            max
        };
        let out = crate::flv::copy_range(self.leftover.as_slice(), self.pos, self.pos + n);
        self.pos = self.pos + n;
        assert(out@ + self@ =~= old(self)@);
        out
    }
}

// ---------------------------------------------------------------------------
// Names

/// The present time as it stands in file names.
pub struct NameTime {
    pub stamp: String,
    pub date: String,
    pub time: String,
    pub millis: String,
}

/// A number below a thousand in three digits.
pub open spec fn three_digits(n: int) -> Seq<char> {
    if n < 10 {
        "00"@ + decimal(n)
    } else if n < 100 {
        "0"@ + decimal(n)
    } else {
        decimal(n)
    }
}

/// The present time as it stands in file names, at the given second and nanosecond of Unix
/// time. None where the second is out of the calendar.
pub fn name_time(secs: i64, nanos: u32) -> (r: Option<NameTime>)
    requires
        nanos < 1_000_000_000,
    ensures
        match r {
            Some(t) => {
                &&& utc_text(secs, nanos, "%Y%m%d-%H%M%S"@) == Some(t.stamp@)
                &&& utc_text(secs, nanos, "%Y%m%d"@) == Some(t.date@)
                &&& utc_text(secs, nanos, "%H%M%S"@) == Some(t.time@)
                &&& t.millis@ == three_digits(nanos as int / 1_000_000)
            },
            None => utc_text(secs, nanos, "%Y%m%d-%H%M%S"@) is None || utc_text(
                secs,
                nanos,
                "%Y%m%d"@,
            ) is None || utc_text(secs, nanos, "%H%M%S"@) is None,
        },
{
    let stamp = match format_utc(secs, nanos, "%Y%m%d-%H%M%S") {
        Some(s) => s,
        None => {
            return None;
        },
    };
    let date = match format_utc(secs, nanos, "%Y%m%d") {
        Some(s) => s,
        None => {
            return None;
        },
    };
    let time = match format_utc(secs, nanos, "%H%M%S") {
        Some(s) => s,
        None => {
            return None;
        },
    };
    let ms: u64 = (nanos / 1_000_000) as u64;
    let mut millis = if ms < 10 {
        to_chars("00")
    } else if ms < 100 {
        to_chars("0")
    } else {
        Vec::new()
    };
    let digits = u64_digits(ms);
    extend(&mut millis, digits.as_slice());
    assert(millis@ =~= three_digits(ms as int));
    Some(NameTime { stamp, date, time, millis: to_text(millis.as_slice()) })
}

/// A template with one place filled in.
pub open spec fn filled(template: Seq<char>, place: Seq<char>, value: Seq<char>) -> Seq<char> {
    replace(template, place, value)
}

fn fill(template: Vec<char>, place: &str, value: &str) -> (r: Vec<char>)
    requires
        place@.len() > 0,
    ensures
        r@ == filled(template@, place@, value@),
{
    let p = to_chars(place);
    let v = to_chars(value);
    replaced(template.as_slice(), p.as_slice(), v.as_slice())
}

/// The name of a recording: the template with its places filled in, one after the other.
pub open spec fn record_name(
    template: Seq<char>,
    room_id: Seq<char>,
    uid: Seq<char>,
    nickname: Option<Seq<char>>,
    title: Seq<char>,
    time: NameTime,
    start_date: Seq<char>,
) -> Seq<char> {
    let name = match nickname {
        Some(n) => n,
        None => "主播"@,
    };
    let a = filled(filled(template, "{{ roomId }}"@, room_id), "{{ uid }}"@, uid);
    let b = filled(filled(a, "{{ name }}"@, name), "{{ title }}"@, title);
    let c = filled(filled(b, "{{ now }}"@, time.stamp@), "{{ date }}"@, time.date@);
    let d = filled(filled(c, "{{ liveDate }}"@, start_date), "{{ live_date }}"@, start_date);
    let e = filled(filled(d, "{{ time }}"@, time.time@), "{{ ms }}"@, time.millis@);
    filled(
        e,
        "{{ \"now\" | format_date: \"yyyyMMdd-HHmmss-fff\" }}"@,
        time.stamp@ + "-"@ + time.millis@,
    )
}

/// The name of a recording.
pub fn render_record_name(
    template: &str,
    info: &LiveRoomInfo,
    nickname: Option<&str>,
    time: &NameTime,
    start_date: &str,
) -> (r: String)
    ensures
        r@ == record_name(
            template@,
            info.room_id@,
            info.uid@,
            match nickname {
                Some(n) => Some(n@),
                None => None,
            },
            info.title@,
            *time,
            start_date@,
        ),
{
    proof {
        reveal_strlit("{{ roomId }}");
        reveal_strlit("{{ uid }}");
        reveal_strlit("{{ name }}");
        reveal_strlit("{{ title }}");
        reveal_strlit("{{ now }}");
        reveal_strlit("{{ date }}");
        reveal_strlit("{{ liveDate }}");
        reveal_strlit("{{ live_date }}");
        reveal_strlit("{{ time }}");
        reveal_strlit("{{ ms }}");
        reveal_strlit("{{ \"now\" | format_date: \"yyyyMMdd-HHmmss-fff\" }}");
    }
    let name: &str = match nickname {
        Some(n) => n,
        None => "主播",
    };
    let mut out = to_chars(template);
    out = fill(out, "{{ roomId }}", info.room_id.as_str());
    out = fill(out, "{{ uid }}", info.uid.as_str());
    out = fill(out, "{{ name }}", name);
    out = fill(out, "{{ title }}", info.title.as_str());
    out = fill(out, "{{ now }}", time.stamp.as_str());
    out = fill(out, "{{ date }}", time.date.as_str());
    out = fill(out, "{{ liveDate }}", start_date);
    out = fill(out, "{{ live_date }}", start_date);
    out = fill(out, "{{ time }}", time.time.as_str());
    out = fill(out, "{{ ms }}", time.millis.as_str());
    let full = crate::text::concat3(time.stamp.as_str(), "-", time.millis.as_str());
    out = fill(out, "{{ \"now\" | format_date: \"yyyyMMdd-HHmmss-fff\" }}", full.as_str());
    to_text(out.as_slice())
}

/// The pieces of a name between slashes of either kind, without the empty ones.
pub open spec fn name_parts(s: Seq<char>) -> Seq<Seq<char>> {
    nonempty(split_on(forward(s), '/'))
}

/// A sequence with its backslashes turned into slashes.
pub open spec fn forward(s: Seq<char>) -> Seq<char> {
    Seq::new(
        s.len(),
        |i: int|
            if s[i] == '\\' {
                '/'
            } else {
                s[i]
            },
    )
}

/// The pieces that are not empty.
pub open spec fn nonempty(parts: Seq<Seq<char>>) -> Seq<Seq<char>>
    decreases parts.len(),
{
    if parts.len() == 0 {
        Seq::empty()
    } else if parts.last().len() > 0 {
        nonempty(parts.drop_last()).push(parts.last())
    } else {
        nonempty(parts.drop_last())
    }
}

/// The characters with backslashes turned into slashes.
pub fn forwarded(s: &[char]) -> (r: Vec<char>)
    ensures
        r@ == forward(s@),
{
    let mut out: Vec<char> = Vec::new();
    let mut i: usize = 0;
    while i < s.len()
        invariant
            i <= s@.len(),
            out@.len() == i,
            forall|k: int|
                0 <= k < i ==> out@[k] == (if s@[k] == '\\' {
                    '/'
                } else {
                    s@[k]
                }),
        decreases s.len() - i,
    {
        if s[i] == '\\' {
            out.push('/');
        } else {
            out.push(s[i]);
        }
        i += 1;
    }
    assert(out@ =~= forward(s@));
    out
}

/// The pieces of a name between slashes of either kind, without the empty ones. A path is made
/// of them once each is a valid file name.
pub fn path_parts(path: &str) -> (r: Vec<String>)
    ensures
        texts(r@) == name_parts(path@),
{
    let chars = to_chars(path);
    let slashed = forwarded(chars.as_slice());
    let parts = split(slashed.as_slice(), '/');
    let ghost all = views(parts@);
    let mut out: Vec<String> = Vec::new();
    let mut i: usize = 0;
    assert(all.take(0) =~= Seq::<Seq<char>>::empty());
    assert(texts(out@) =~= Seq::<Seq<char>>::empty());
    while i < parts.len()
        invariant
            i <= parts@.len(),
            all == views(parts@),
            texts(out@) == nonempty(all.take(i as int)),
        decreases parts.len() - i,
    {
        assert(all.take(i + 1).drop_last() =~= all.take(i as int));
        assert(all.take(i + 1).last() == parts@[i as int]@);
        let ghost before = texts(out@);
        if parts[i].len() > 0 {
            out.push(to_text(parts[i].as_slice()));
            assert(texts(out@) =~= before.push(parts@[i as int]@));
        }
        i += 1;
    }
    assert(all.take(i as int) =~= all);
    out
}

/// The extension that a recording gets, where its name has none.
pub fn added_extension(ext: Option<&str>) -> (r: Option<String>)
    ensures
        opt_text(r) == (if ext is None {
            Some("flv"@)
        } else {
            None
        }),
{
    match ext {
        Some(_) => None,
        None => Some(copy_text("flv")),
    }
}

/// The file name of a later file of a recording, where it differs from that of the first one. What
/// the first one's name lacks is made up for.
pub fn part_file_name(stem: Option<&str>, ext: Option<&str>, segment_index: i64) -> (r: Option<
    String,
>)
    ensures
        opt_text(r) == (if segment_index > 1 {
            Some(
                (match stem {
                    Some(s) => s@,
                    None => "record"@,
                }) + "_part"@ + decimal(segment_index as int) + "."@ + (match ext {
                    Some(e) => e@,
                    None => "flv"@,
                }),
            )
        } else {
            None
        }),
{
    if segment_index <= 1 {
        return None;
    }
    let stem: &str = match stem {
        Some(s) => s,
        None => "record",
    };
    let ext: &str = match ext {
        Some(e) => e,
        None => "flv",
    };
    let mut out = to_chars(stem);
    extend_text(&mut out, "_part");
    let digits = i64_digits(segment_index);
    extend(&mut out, digits.as_slice());
    extend_text(&mut out, ".");
    extend_text(&mut out, ext);
    Some(to_text(out.as_slice()))
}

/// Tells whether a playlist stream is written under a name with the given extension; any
/// other extension gives way to `ts`.
pub fn keeps_hls_extension(ext: &str) -> (r: bool)
    ensures
        r == (ascii_lower(ext@) == "ts"@ || ascii_lower(ext@) == "m4s"@ || ascii_lower(ext@)
            == "mp4"@),
{
    let chars = to_chars(ext);
    let lower = lowered(chars.as_slice());
    is_text(lower.as_slice(), "ts") || is_text(lower.as_slice(), "m4s") || is_text(
        lower.as_slice(),
        "mp4",
    )
}

/// The extension under which a playlist stream is written, where it is another one.
pub fn hls_extension(ext: &str) -> (r: Option<String>)
    ensures
        opt_text(r) == (if ascii_lower(ext@) == "ts"@ || ascii_lower(ext@) == "m4s"@
            || ascii_lower(ext@) == "mp4"@ {
            None
        } else {
            Some("ts"@)
        }),
{
    if keeps_hls_extension(ext) {
        None
    } else {
        Some(copy_text("ts"))
    }
}

/// The extension under which a cover is saved, by its content type.
pub fn cover_extension(content_type: &str) -> (r: String)
    ensures
        r@ == (if contains(content_type@, "png"@) {
            "png"@
        } else if contains(content_type@, "webp"@) {
            "webp"@
        } else {
            "jpg"@
        }),
{
    if text_has(content_type, "png") {
        copy_text("png")
    } else if text_has(content_type, "webp") {
        copy_text("webp")
    } else {
        copy_text("jpg")
    }
}

// ---------------------------------------------------------------------------
// Playlist recordings

/// How a playlist recording ended: its state, and the error where it failed. `live_status` is
/// that of the room afterwards, where it is known: the end of a broadcast is no failure.
pub fn hls_outcome(
    stopped: bool,
    success: bool,
    live_status: Option<i64>,
    stderr: &str,
) -> (r: (RecordStatus, Option<String>))
    ensures
        r.0 == (if stopped {
            RecordStatus::Stopped
        } else if success || (live_status matches Some(status) && status != 1) {
            RecordStatus::Completed
        } else {
            RecordStatus::Failed
        }),
        opt_text(r.1) == (if r.0 == RecordStatus::Failed && trim(stderr@).len() > 0 {
            Some(trim(stderr@))
        } else {
            None
        }),
{
    let ended: bool = match live_status {
        Some(status) => status != 1,
        None => false,
    };
    let status: RecordStatus = if stopped {
        RecordStatus::Stopped
    } else if success || ended {
        RecordStatus::Completed
    } else {
        RecordStatus::Failed
    };
    let message = trim_text(stderr);
    if status == RecordStatus::Failed && !message.as_str().is_empty() {
        (status, Some(message))
    } else {
        (status, None)
    }
}

// ---------------------------------------------------------------------------
// Recovery

/// What is to be done about a file that a recording left behind: how its task ends, whether
/// the MP4 beside it takes its place, and whether it is turned into MP4.
pub struct RecoveryPlan {
    pub status: RecordStatus,
    pub message: Option<String>,
    pub adopt_mp4: bool,
    pub remux: bool,
}

/// Tells whether a file is young enough to be turned into MP4. The age is in nanoseconds, and
/// none where it is not known.
pub open spec fn remux_in_time(age: Option<u64>) -> bool {
    age matches Some(a) && a <= STALE_RECORD_REMUX_MAX_AGE_SECS * SECOND
}

fn is_remux_in_time(age: Option<u64>) -> (r: bool)
    ensures
        r == remux_in_time(age),
{
    match age {
        Some(a) => a <= STALE_RECORD_REMUX_MAX_AGE_SECS * SECOND,
        None => false,
    }
}

/// The plan for a file that is missing.
pub fn missing_plan() -> (r: RecoveryPlan)
    ensures
        r.status == RecordStatus::Failed,
        opt_text(r.message) == Some("录制恢复失败: 文件缺失"@),
        !r.adopt_mp4,
        !r.remux,
{
    RecoveryPlan {
        status: RecordStatus::Failed,
        message: Some(copy_text("录制恢复失败: 文件缺失")),
        adopt_mp4: false,
        remux: false,
    }
}

/// The plan for a file that was left behind when the program ended.
pub fn stale_plan(file_size: u64, age: Option<u64>, mp4_exists: bool) -> (r: RecoveryPlan)
    ensures
        r.status == (if file_size == 0 {
            RecordStatus::Failed
        } else {
            RecordStatus::Stopped
        }),
        opt_text(r.message) == (if file_size == 0 {
            Some("录制恢复失败: 空文件"@)
        } else {
            None
        }),
        r.adopt_mp4 == mp4_exists,
        r.remux == (!mp4_exists && file_size > 0 && remux_in_time(age)),
{
    let empty: bool = file_size == 0;
    RecoveryPlan {
        status: if empty {
            RecordStatus::Failed
        } else {
            RecordStatus::Stopped
        },
        message: if empty {
            Some(copy_text("录制恢复失败: 空文件"))
        } else {
            None
        },
        adopt_mp4: mp4_exists,
        remux: !mp4_exists && !empty && is_remux_in_time(age),
    }
}

/// Tells whether a file whose task says that it is being recorded has to be looked after: no
/// running recording writes it, and it was not written for long.
pub open spec fn idle_file(in_use: bool, age: Option<u64>) -> bool {
    !in_use && (age matches Some(a) && a / SECOND >= STALE_RECORD_IDLE_SECS)
}

/// Tells whether a file whose task says that it is being recorded has to be looked after.
pub fn is_idle(in_use: bool, age: Option<u64>) -> (r: bool)
    ensures
        r == idle_file(in_use, age),
{
    if in_use {
        return false;
    }
    match age {
        Some(a) => a / SECOND >= STALE_RECORD_IDLE_SECS,
        None => false,
    }
}

/// The plan for a file that no recording writes any more. A room that is still live should
/// have been recorded: that is a failure.
pub fn idle_plan(file_size: u64, age: Option<u64>, live_status: i64, mp4_exists: bool) -> (r:
    RecoveryPlan)
    ensures
        r.status == (if file_size == 0 || live_status == 1 {
            RecordStatus::Failed
        } else {
            RecordStatus::Stopped
        }),
        opt_text(r.message) == (if file_size == 0 {
            Some("录制恢复失败: 空文件"@)
        } else if live_status == 1 {
            Some("录制失活: 长时间无写入"@)
        } else {
            None
        }),
        r.adopt_mp4 == mp4_exists,
        r.remux == (!mp4_exists && file_size > 0 && remux_in_time(age)),
{
    let empty: bool = file_size == 0;
    RecoveryPlan {
        status: if empty || live_status == 1 {
            RecordStatus::Failed
        } else {
            RecordStatus::Stopped
        },
        message: if empty {
            Some(copy_text("录制恢复失败: 空文件"))
        } else if live_status == 1 {
            Some(copy_text("录制失活: 长时间无写入"))
        } else {
            None
        },
        adopt_mp4: mp4_exists,
        remux: !mp4_exists && !empty && is_remux_in_time(age),
    }
}

// ---------------------------------------------------------------------------
// Turning files into MP4

/// Tells whether an output is far too small for its source.
pub open spec fn suspicious(source_size: u64, target_size: u64) -> bool {
    source_size >= REMUX_SUSPECT_SOURCE_MIN_BYTES && target_size * REMUX_SUSPECT_RATIO_DEN
        < source_size
}

/// Tells whether an output is far too small for its source.
pub fn is_suspicious_remux_output(source_size: u64, target_size: u64) -> (r: bool)
    ensures
        r == suspicious(source_size, target_size),
{
    let target: u128 = target_size as u128;
    let den: u128 = 10;
    assert(den == REMUX_SUSPECT_RATIO_DEN);
    source_size >= REMUX_SUSPECT_SOURCE_MIN_BYTES && target * den < (source_size as u128)
}

/// Tells whether a file with the given extension is turned into MP4.
pub fn is_remux_source(ext: &str) -> (r: bool)
    ensures
        r == (ascii_lower(ext@) == "flv"@),
{
    let chars = to_chars(ext);
    let lower = lowered(chars.as_slice());
    is_text(lower.as_slice(), "flv")
}

/// How a run of the converter ended.
#[derive(Clone, Copy, PartialEq, Eq, Structural)]
pub enum RunOutcome {
    Done,
    Failed,
    /// The converter could not be run at all.
    NotRun,
}

/// What follows the first run of the converter.
#[derive(Clone, Copy, PartialEq, Eq, Structural)]
pub enum RemuxStep {
    /// Encode anew.
    Transcode,
    /// The output stands as it is.
    Finish,
}

/// What follows the run that only copies streams: a failed run and a suspicious output are
/// followed by encoding anew. `target_size` is the size of the output of a run that is done.
pub fn after_copy(source_size: u64, outcome: RunOutcome, target_size: u64) -> (r: RemuxStep)
    ensures
        r == (if outcome == RunOutcome::Failed || (outcome == RunOutcome::Done && suspicious(
            source_size,
            target_size,
        )) {
            RemuxStep::Transcode
        } else {
            RemuxStep::Finish
        }),
{
    match outcome {
        RunOutcome::Done => if is_suspicious_remux_output(source_size, target_size) {
            RemuxStep::Transcode
        } else {
            RemuxStep::Finish
        },
        RunOutcome::Failed => RemuxStep::Transcode,
        RunOutcome::NotRun => RemuxStep::Finish,
    }
}

/// Tells whether the output takes the place of its source: the last run is done, and its
/// output is neither tiny nor far too small.
pub open spec fn output_kept(source_size: u64, last: RunOutcome, target_size: u64) -> bool {
    last == RunOutcome::Done && target_size >= REMUX_MIN_VALID_OUTPUT_BYTES && !suspicious(
        source_size,
        target_size,
    )
}

/// Tells whether the output takes the place of its source.
pub fn keeps_output(source_size: u64, last: RunOutcome, target_size: u64) -> (r: bool)
    ensures
        r == output_kept(source_size, last, target_size),
{
    last == RunOutcome::Done && target_size >= REMUX_MIN_VALID_OUTPUT_BYTES
        && !is_suspicious_remux_output(source_size, target_size)
}

/// A recording is never given up for an output that is less than a tenth of it, where it is
/// large, nor for one below two mebibytes.
pub proof fn law_no_loss_by_remux(source_size: u64, last: RunOutcome, target_size: u64)
    requires
        output_kept(source_size, last, target_size),
    ensures
        target_size >= REMUX_MIN_VALID_OUTPUT_BYTES,
        source_size >= REMUX_SUSPECT_SOURCE_MIN_BYTES ==> target_size * 10 >= source_size,
{
}

/// The arguments of the run that only copies streams.
pub fn build_live_remux_copy_args(source: &str, target: &str) -> (r: Vec<String>)
    ensures
        texts(r@) == seq![
            "-hide_banner"@,
            "-loglevel"@,
            "error"@,
            "-y"@,
            "-fflags"@,
            "+genpts"@,
            "-i"@,
            source@,
            "-map"@,
            "0"@,
            "-dn"@,
            "-c"@,
            "copy"@,
            "-avoid_negative_ts"@,
            "make_zero"@,
            target@,
        ],
{
    let r: Vec<String> = vec![
        copy_text("-hide_banner"),
        copy_text("-loglevel"),
        copy_text("error"),
        copy_text("-y"),
        copy_text("-fflags"),
        copy_text("+genpts"),
        copy_text("-i"),
        copy_text(source),
        copy_text("-map"),
        copy_text("0"),
        copy_text("-dn"),
        copy_text("-c"),
        copy_text("copy"),
        copy_text("-avoid_negative_ts"),
        copy_text("make_zero"),
        copy_text(target),
    ];
    assert(texts(r@) =~= seq![
        "-hide_banner"@,
        "-loglevel"@,
        "error"@,
        "-y"@,
        "-fflags"@,
        "+genpts"@,
        "-i"@,
        source@,
        "-map"@,
        "0"@,
        "-dn"@,
        "-c"@,
        "copy"@,
        "-avoid_negative_ts"@,
        "make_zero"@,
        target@,
    ]);
    r
}

/// The arguments of the run that encodes anew.
pub fn build_live_remux_transcode_args(source: &str, target: &str) -> (r: Vec<String>)
    ensures
        texts(r@) == seq![
            "-hide_banner"@,
            "-loglevel"@,
            "error"@,
            "-y"@,
            "-fflags"@,
            "+genpts"@,
            "-i"@,
            source@,
            "-map"@,
            "0:v:0"@,
            "-map"@,
            "0:a:0?"@,
            "-dn"@,
            "-c:v"@,
            "libx264"@,
            "-preset"@,
            "veryfast"@,
            "-crf"@,
            "18"@,
            "-pix_fmt"@,
            "yuv420p"@,
            "-c:a"@,
            "aac"@,
            "-b:a"@,
            "192k"@,
            target@,
        ],
{
    let r: Vec<String> = vec![
        copy_text("-hide_banner"),
        copy_text("-loglevel"),
        copy_text("error"),
        copy_text("-y"),
        copy_text("-fflags"),
        copy_text("+genpts"),
        copy_text("-i"),
        copy_text(source),
        copy_text("-map"),
        copy_text("0:v:0"),
        copy_text("-map"),
        copy_text("0:a:0?"),
        copy_text("-dn"),
        copy_text("-c:v"),
        copy_text("libx264"),
        copy_text("-preset"),
        copy_text("veryfast"),
        copy_text("-crf"),
        copy_text("18"),
        copy_text("-pix_fmt"),
        copy_text("yuv420p"),
        copy_text("-c:a"),
        copy_text("aac"),
        copy_text("-b:a"),
        copy_text("192k"),
        copy_text(target),
    ];
    assert(texts(r@) =~= seq![
        "-hide_banner"@,
        "-loglevel"@,
        "error"@,
        "-y"@,
        "-fflags"@,
        "+genpts"@,
        "-i"@,
        source@,
        "-map"@,
        "0:v:0"@,
        "-map"@,
        "0:a:0?"@,
        "-dn"@,
        "-c:v"@,
        "libx264"@,
        "-preset"@,
        "veryfast"@,
        "-crf"@,
        "18"@,
        "-pix_fmt"@,
        "yuv420p"@,
        "-c:a"@,
        "aac"@,
        "-b:a"@,
        "192k"@,
        target@,
    ]);
    r
}

/// The arguments of the run that records a playlist stream of a room.
pub fn hls_args(room_id: &str, stream_url: &str, file_path: &str) -> (r: Vec<String>)
    ensures
        texts(r@) == seq![
            "-hide_banner"@,
            "-loglevel"@,
            "error"@,
            "-rw_timeout"@,
            "10000000"@,
            "-timeout"@,
            "10000000"@,
            "-reconnect"@,
            "1"@,
            "-reconnect_streamed"@,
            "1"@,
            "-reconnect_delay_max"@,
            "3"@,
            "-user_agent"@,
            "Mozilla/5.0 (Windows NT 10.0; Win64; x64) AppleWebKit/537.36"@,
            "-headers"@,
            "Referer:https://live.bilibili.com/"@ + room_id@ + "\r\n"@,
            "-i"@,
            stream_url@,
            "-c"@,
            "copy"@,
            "-f"@,
            "mpegts"@,
            file_path@,
        ],
{
    let mut head = to_chars("Referer:https://live.bilibili.com/");
    extend_text(&mut head, room_id);
    extend_text(&mut head, "\r\n");
    let referer = to_text(head.as_slice());
    let r: Vec<String> = vec![
        copy_text("-hide_banner"),
        copy_text("-loglevel"),
        copy_text("error"),
        copy_text("-rw_timeout"),
        copy_text("10000000"),
        copy_text("-timeout"),
        copy_text("10000000"),
        copy_text("-reconnect"),
        copy_text("1"),
        copy_text("-reconnect_streamed"),
        copy_text("1"),
        copy_text("-reconnect_delay_max"),
        copy_text("3"),
        copy_text("-user_agent"),
        copy_text("Mozilla/5.0 (Windows NT 10.0; Win64; x64) AppleWebKit/537.36"),
        copy_text("-headers"),
        referer,
        copy_text("-i"),
        copy_text(stream_url),
        copy_text("-c"),
        copy_text("copy"),
        copy_text("-f"),
        copy_text("mpegts"),
        copy_text(file_path),
    ];
    assert(texts(r@) =~= seq![
            "-hide_banner"@,
            "-loglevel"@,
            "error"@,
            "-rw_timeout"@,
            "10000000"@,
            "-timeout"@,
            "10000000"@,
            "-reconnect"@,
            "1"@,
            "-reconnect_streamed"@,
            "1"@,
            "-reconnect_delay_max"@,
            "3"@,
            "-user_agent"@,
            "Mozilla/5.0 (Windows NT 10.0; Win64; x64) AppleWebKit/537.36"@,
            "-headers"@,
            "Referer:https://live.bilibili.com/"@ + room_id@ + "\r\n"@,
            "-i"@,
            stream_url@,
            "-c"@,
            "copy"@,
            "-f"@,
            "mpegts"@,
            file_path@,
    ]);
    r
}

// ---------------------------------------------------------------------------
// The notes beside a recording

/// What is noted of a recording that begins.
pub open spec fn started_notes(
    info: LiveRoomInfo,
    nickname: Option<Seq<char>>,
    title: Seq<char>,
    start: Seq<char>,
) -> JsonView {
    JsonView::Object(
        seq![
            ("roomId"@, JsonView::Str(info.room_id@)),
            ("uid"@, JsonView::Str(info.uid@)),
            (
                "nickname"@,
                match nickname {
                    Some(name) => JsonView::Str(name),
                    None => JsonView::Null,
                },
            ),
            ("title"@, JsonView::Str(title)),
            ("startTime"@, JsonView::Str(start)),
        ],
    )
}

/// What is noted of a recording that begins.
pub fn started_metadata(
    info: &LiveRoomInfo,
    nickname: &Option<String>,
    title: &str,
    start: &str,
) -> (r: Json)
    ensures
        r@ == started_notes(*info, opt_text(*nickname), title@, start@),
{
    let name = match nickname {
        Some(name) => Json::Str(copy_text(name.as_str())),
        None => Json::Null,
    };
    let fields: Vec<(String, Json)> = vec![
        (copy_text("roomId"), Json::Str(copy_text(info.room_id.as_str()))),
        (copy_text("uid"), Json::Str(copy_text(info.uid.as_str()))),
        (copy_text("nickname"), name),
        (copy_text("title"), Json::Str(copy_text(title))),
        (copy_text("startTime"), Json::Str(copy_text(start))),
    ];
    proof {
        lemma_object_view(fields);
        assert(fields_view(fields@) =~= started_notes(
            *info,
            opt_text(*nickname),
            title@,
            start@,
        )->Object_0);
    }
    Json::Object(fields)
}

/// What is noted of a recording that has ended. Notes that are no object are begun anew.
pub open spec fn ended_notes(notes: JsonView, end: Seq<char>, size: u64) -> JsonView {
    let base = if notes is Object {
        notes
    } else {
        JsonView::Object(Seq::empty())
    };
    with_field(
        with_field(base, "endTime"@, JsonView::Str(end)),
        "fileSize"@,
        JsonView::Number(size as int),
    )
}

/// What is noted of a recording that has ended.
pub fn finished_metadata(notes: Json, end: &str, size: u64) -> (r: Json)
    ensures
        r@ == ended_notes(notes@, end@, size),
{
    let is_object = match &notes {
        Json::Object(_) => true,
        _ => false,
    };
    let mut r = if is_object {
        notes
    } else {
        let fields: Vec<(String, Json)> = Vec::new();
        proof {
            lemma_object_view(fields);
            assert(fields_view(fields@) =~= Seq::<(Seq<char>, JsonView)>::empty());
        }
        Json::Object(fields)
    };
    r.set("endTime", Json::Str(copy_text(end)));
    r.set("fileSize", Json::UInt(size));
    r
}

// ---------------------------------------------------------------------------
// The end of a recording that was cut short

/// A moment as it is noted, where the calendar reaches it.
pub fn moment_label(time: TimePoint) -> (r: Option<String>)
    ensures
        opt_text(r) == rfc3339_after(time.secs, time.nanos, 0),
{
    rfc3339_later(time.secs, time.nanos, 0)
}

/// The day of a moment in UTC, where the calendar reaches it.
pub fn day_label(time: TimePoint) -> (r: Option<String>)
    ensures
        opt_text(r) == utc_text(time.secs, time.nanos, "%Y%m%d"@),
{
    format_utc(time.secs, time.nanos, "%Y%m%d")
}

/// The time some milliseconds after another, where that one is a time in the form of RFC 3339 and
/// the calendar reaches that far.
pub fn end_after(start_time: &str, duration_ms: i64) -> (r: Option<String>)
    ensures
        opt_text(r) == (match rfc3339_moment(start_time@) {
            Ok(m) => rfc3339_after(m.0, m.1, duration_ms),
            Err(_) => None,
        }),
{
    match parse_moment(start_time) {
        Ok(m) => rfc3339_later(m.secs, m.nanos, duration_ms),
        Err(_) => None,
    }
}

/// The end of a recording by its notes and the length of its file in milliseconds, where both are
/// known and the notes hold a start.
pub open spec fn end_by_length(notes: Option<JsonView>, duration_ms: Option<i64>) -> Option<
    Seq<char>,
> {
    match (notes, duration_ms) {
        (Some(n), Some(ms)) => match text_at(n, "startTime"@) {
            Some(start) => match rfc3339_moment(start) {
                Ok(m) => rfc3339_after(m.0, m.1, ms),
                Err(_) => None,
            },
            None => None,
        },
        _ => None,
    }
}

/// The end of a recording by its notes and the length of its file in milliseconds.
pub fn derive_end_time_from_media_duration(notes: &Option<Json>, duration_ms: Option<i64>) -> (r:
    Option<String>)
    ensures
        opt_text(r) == end_by_length(
            match notes {
                Some(n) => Some(n@),
                None => None,
            },
            duration_ms,
        ),
{
    match (notes, duration_ms) {
        (Some(n), Some(ms)) => match n.get_text("startTime") {
            Some(start) => end_after(start.as_str(), ms),
            None => None,
        },
        _ => None,
    }
}

/// The end of a recording that was cut short: by its notes and the length of its file, else when
/// the file was last written, else another time.
pub fn derive_recovered_record_end_time(
    notes: &Option<Json>,
    duration_ms: Option<i64>,
    modified: Option<TimePoint>,
    fallback: &str,
) -> (r: String)
    ensures
        r@ == (match end_by_length(
            match notes {
                Some(n) => Some(n@),
                None => None,
            },
            duration_ms,
        ) {
            Some(end) => end,
            None => match modified {
                Some(t) => match rfc3339_after(t.secs, t.nanos, 0) {
                    Some(end) => end,
                    None => fallback@,
                },
                None => fallback@,
            },
        }),
{
    match derive_end_time_from_media_duration(notes, duration_ms) {
        Some(end) => end,
        None => match modified {
            Some(t) => match moment_label(t) {
                Some(end) => end,
                None => copy_text(fallback),
            },
            None => copy_text(fallback),
        },
    }
}

// ---------------------------------------------------------------------------
// What names and notes hold

/// The places of a template and what stands for each.
pub open spec fn name_places(
    room_id: Seq<char>,
    uid: Seq<char>,
    name: Seq<char>,
    title: Seq<char>,
    time: NameTime,
    start_date: Seq<char>,
) -> Seq<(Seq<char>, Seq<char>)> {
    seq![
        ("{{ roomId }}"@, room_id),
        ("{{ uid }}"@, uid),
        ("{{ name }}"@, name),
        ("{{ title }}"@, title),
        ("{{ now }}"@, time.stamp@),
        ("{{ date }}"@, time.date@),
        ("{{ liveDate }}"@, start_date),
        ("{{ live_date }}"@, start_date),
        ("{{ time }}"@, time.time@),
        ("{{ ms }}"@, time.millis@),
        ("{{ \"now\" | format_date: \"yyyyMMdd-HHmmss-fff\" }}"@, time.stamp@ + "-"@ + time.millis@),
    ]
}

/// A template with each place filled in turn.
pub open spec fn filled_all(
    template: Seq<char>,
    places: Seq<(Seq<char>, Seq<char>)>,
) -> Seq<char>
    decreases places.len(),
{
    if places.len() == 0 {
        template
    } else {
        replace(filled_all(template, places.drop_last()), places.last().0, places.last().1)
    }
}

/// The characters by which one place is told from another.
spec fn told(p: Seq<char>) -> (char, char, char, char) {
    (p[3], p[4], p[5], p[7])
}

/// Tells whether places can be filled one after the other.
spec fn apart(places: Seq<(Seq<char>, Seq<char>)>) -> bool {
    &&& forall|i: int|
        0 <= i < places.len() ==> {
            let p = (#[trigger] places[i]).0;
            p.len() >= 8 && p[0] == '{' && p[1] == '{' && p[2] == ' '
        }
    &&& forall|i: int, k: int|
        0 <= i < places.len() && 2 <= k < places[i].0.len() ==> #[trigger] places[i].0[k] != '{'
    &&& forall|i: int, k: int|
        0 <= i < places.len() && 0 <= k < places[i].1.len() ==> #[trigger] places[i].1[k] != '{'
    &&& forall|i: int, j: int|
        0 <= i < j < places.len() ==> told(#[trigger] places[i].0) != told(#[trigger] places[j].0)
}

proof fn lemma_unfilled(a: Seq<char>, b: Seq<char>, places: Seq<(Seq<char>, Seq<char>)>, q: Seq<char>)
    requires
        apart(places),
        q.len() >= 8,
        q[0] == '{',
        q[1] == '{',
        forall|k: int| 2 <= k < q.len() ==> q[k] != '{',
        forall|i: int| 0 <= i < places.len() ==> told(#[trigger] places[i].0) != told(q),
        forall|k: int| 0 <= k < a.len() ==> a[k] != '{',
        forall|k: int| 0 <= k < b.len() ==> b[k] != '{',
    ensures
        filled_all(a + q + b, places) == a + q + b,
    decreases places.len(),
{
    if places.len() > 0 {
        let rest = places.drop_last();
        let n = places.len() - 1;
        assert forall|i: int| 0 <= i < rest.len() implies #[trigger] rest[i] == places[i] by {}
        assert(apart(rest));
        lemma_unfilled(a, b, rest, q);
        let p = places[n].0;
        assert(told(p) != told(q));
        let m: int = if p[3] != q[3] {
            3
        } else if p[4] != q[4] {
            4
        } else if p[5] != q[5] {
            5
        } else {
            7
        };
        lemma_other_place(a, b, q, p, places[n].1, m);
    }
}

proof fn lemma_filled_all(a: Seq<char>, b: Seq<char>, places: Seq<(Seq<char>, Seq<char>)>, i: int)
    requires
        apart(places),
        0 <= i < places.len(),
        forall|k: int| 0 <= k < a.len() ==> a[k] != '{',
        forall|k: int| 0 <= k < b.len() ==> b[k] != '{',
    ensures
        filled_all(a + places[i].0 + b, places) == a + places[i].1 + b,
    decreases places.len(),
{
    let rest = places.drop_last();
    let n = places.len() - 1;
    let q = places[i].0;
    assert forall|j: int| 0 <= j < rest.len() implies #[trigger] rest[j] == places[j] by {}
    assert(apart(rest));
    if i == n {
        lemma_unfilled(a, b, rest, q);
        lemma_place_filled(a, b, q, places[n].1);
    } else {
        lemma_filled_all(a, b, rest, i);
        let s = a + places[i].1 + b;
        lemma_no_place(s, places[n].0, places[n].1);
    }
}

proof fn lemma_as_places(
    template: Seq<char>,
    room_id: Seq<char>,
    uid: Seq<char>,
    name: Seq<char>,
    title: Seq<char>,
    time: NameTime,
    start_date: Seq<char>,
)
    ensures
        record_name(template, room_id, uid, Some(name), title, time, start_date) == filled_all(
            template,
            name_places(room_id, uid, name, title, time, start_date),
        ),
{
    let p11 = name_places(room_id, uid, name, title, time, start_date);
    let p10 = p11.drop_last();
    let p9 = p10.drop_last();
    let p8 = p9.drop_last();
    let p7 = p8.drop_last();
    let p6 = p7.drop_last();
    let p5 = p6.drop_last();
    let p4 = p5.drop_last();
    let p3 = p4.drop_last();
    let p2 = p3.drop_last();
    let p1 = p2.drop_last();
    let p0 = p1.drop_last();
    assert(p0.len() == 0);
    assert(filled_all(template, p0) == template);
    assert(filled_all(template, p1) == replace(template, p11[0].0, p11[0].1));
    assert(filled_all(template, p2) == replace(filled_all(template, p1), p11[1].0, p11[1].1));
    assert(filled_all(template, p3) == replace(filled_all(template, p2), p11[2].0, p11[2].1));
    assert(filled_all(template, p4) == replace(filled_all(template, p3), p11[3].0, p11[3].1));
    assert(filled_all(template, p5) == replace(filled_all(template, p4), p11[4].0, p11[4].1));
    assert(filled_all(template, p6) == replace(filled_all(template, p5), p11[5].0, p11[5].1));
    assert(filled_all(template, p7) == replace(filled_all(template, p6), p11[6].0, p11[6].1));
    assert(filled_all(template, p8) == replace(filled_all(template, p7), p11[7].0, p11[7].1));
    assert(filled_all(template, p9) == replace(filled_all(template, p8), p11[8].0, p11[8].1));
    assert(filled_all(template, p10) == replace(filled_all(template, p9), p11[9].0, p11[9].1));
    assert(filled_all(template, p11) == replace(filled_all(template, p10), p11[10].0, p11[10].1));
}

proof fn lemma_places_apart(
    room_id: Seq<char>,
    uid: Seq<char>,
    name: Seq<char>,
    title: Seq<char>,
    time: NameTime,
    start_date: Seq<char>,
)
    requires
        forall|k: int| 0 <= k < room_id.len() ==> room_id[k] != '{',
        forall|k: int| 0 <= k < uid.len() ==> uid[k] != '{',
        forall|k: int| 0 <= k < name.len() ==> name[k] != '{',
        forall|k: int| 0 <= k < title.len() ==> title[k] != '{',
        forall|k: int| 0 <= k < start_date.len() ==> start_date[k] != '{',
        forall|k: int| 0 <= k < time.stamp@.len() ==> time.stamp@[k] != '{',
        forall|k: int| 0 <= k < time.date@.len() ==> time.date@[k] != '{',
        forall|k: int| 0 <= k < time.time@.len() ==> time.time@[k] != '{',
        forall|k: int| 0 <= k < time.millis@.len() ==> time.millis@[k] != '{',
    ensures
        apart(name_places(room_id, uid, name, title, time, start_date)),
{
    let places = name_places(room_id, uid, name, title, time, start_date);
    reveal_strlit("{{ roomId }}");
    reveal_strlit("{{ uid }}");
    reveal_strlit("{{ name }}");
    reveal_strlit("{{ title }}");
    reveal_strlit("{{ now }}");
    reveal_strlit("{{ date }}");
    reveal_strlit("{{ liveDate }}");
    reveal_strlit("{{ live_date }}");
    reveal_strlit("{{ time }}");
    reveal_strlit("{{ ms }}");
    reveal_strlit("{{ \"now\" | format_date: \"yyyyMMdd-HHmmss-fff\" }}");
    reveal_strlit("-");
    assert("-"@.len() == 1 && "-"@[0] == '-');
    assert(places[0].0.len() == 12 && told(places[0].0) == ('r', 'o', 'o', 'I'));
    assert(places[1].0.len() == 9 && told(places[1].0) == ('u', 'i', 'd', '}'));
    assert(places[2].0.len() == 10 && told(places[2].0) == ('n', 'a', 'm', ' '));
    assert(places[3].0.len() == 11 && told(places[3].0) == ('t', 'i', 't', 'e'));
    assert(places[4].0.len() == 9 && told(places[4].0) == ('n', 'o', 'w', '}'));
    assert(places[5].0.len() == 10 && told(places[5].0) == ('d', 'a', 't', ' '));
    assert(places[6].0.len() == 14 && told(places[6].0) == ('l', 'i', 'v', 'D'));
    assert(places[7].0.len() == 15 && told(places[7].0) == ('l', 'i', 'v', '_'));
    assert(places[8].0.len() == 10 && told(places[8].0) == ('t', 'i', 'm', ' '));
    assert(places[9].0.len() == 8 && told(places[9].0) == ('m', 's', ' ', '}'));
    assert(places[10].0.len() == 48 && told(places[10].0) == ('"', 'n', 'o', '"'));
    assert forall|i: int, k: int| 0 <= i < places.len() && 0 <= k < places[i].1.len() implies
        #[trigger] places[i].1[k] != '{' by {
        if i == 10 {
            let n = time.stamp@.len();
            if k < n {
                assert(places[10].1[k] == time.stamp@[k]);
            } else if k > n {
                assert(places[10].1[k] == time.millis@[k - n - 1]);
            }
        }
    }
}

/// Each place in the name of a recording is filled with what it is named for, and the rest of the
/// name stays.
pub proof fn law_record_name_places(
    a: Seq<char>,
    b: Seq<char>,
    room_id: Seq<char>,
    uid: Seq<char>,
    name: Seq<char>,
    title: Seq<char>,
    time: NameTime,
    start_date: Seq<char>,
)
    requires
        forall|k: int| 0 <= k < a.len() ==> a[k] != '{',
        forall|k: int| 0 <= k < b.len() ==> b[k] != '{',
        forall|k: int| 0 <= k < room_id.len() ==> room_id[k] != '{',
        forall|k: int| 0 <= k < uid.len() ==> uid[k] != '{',
        forall|k: int| 0 <= k < name.len() ==> name[k] != '{',
        forall|k: int| 0 <= k < title.len() ==> title[k] != '{',
        forall|k: int| 0 <= k < start_date.len() ==> start_date[k] != '{',
        forall|k: int| 0 <= k < time.stamp@.len() ==> time.stamp@[k] != '{',
        forall|k: int| 0 <= k < time.date@.len() ==> time.date@[k] != '{',
        forall|k: int| 0 <= k < time.time@.len() ==> time.time@[k] != '{',
        forall|k: int| 0 <= k < time.millis@.len() ==> time.millis@[k] != '{',
    ensures
        record_name(
            a + "{{ roomId }}"@ + b,
            room_id,
            uid,
            Some(name),
            title,
            time,
            start_date,
        ) == a + room_id + b,
        record_name(
            a + "{{ uid }}"@ + b,
            room_id,
            uid,
            Some(name),
            title,
            time,
            start_date,
        ) == a + uid + b,
        record_name(
            a + "{{ name }}"@ + b,
            room_id,
            uid,
            Some(name),
            title,
            time,
            start_date,
        ) == a + name + b,
        record_name(
            a + "{{ title }}"@ + b,
            room_id,
            uid,
            Some(name),
            title,
            time,
            start_date,
        ) == a + title + b,
        record_name(
            a + "{{ now }}"@ + b,
            room_id,
            uid,
            Some(name),
            title,
            time,
            start_date,
        ) == a + time.stamp@ + b,
        record_name(
            a + "{{ date }}"@ + b,
            room_id,
            uid,
            Some(name),
            title,
            time,
            start_date,
        ) == a + time.date@ + b,
        record_name(
            a + "{{ liveDate }}"@ + b,
            room_id,
            uid,
            Some(name),
            title,
            time,
            start_date,
        ) == a + start_date + b,
        record_name(
            a + "{{ live_date }}"@ + b,
            room_id,
            uid,
            Some(name),
            title,
            time,
            start_date,
        ) == a + start_date + b,
        record_name(
            a + "{{ time }}"@ + b,
            room_id,
            uid,
            Some(name),
            title,
            time,
            start_date,
        ) == a + time.time@ + b,
        record_name(
            a + "{{ ms }}"@ + b,
            room_id,
            uid,
            Some(name),
            title,
            time,
            start_date,
        ) == a + time.millis@ + b,
        record_name(
            a + "{{ \"now\" | format_date: \"yyyyMMdd-HHmmss-fff\" }}"@ + b,
            room_id,
            uid,
            Some(name),
            title,
            time,
            start_date,
        ) == a + (time.stamp@ + "-"@ + time.millis@) + b,
{
    let places = name_places(room_id, uid, name, title, time, start_date);
    lemma_places_apart(room_id, uid, name, title, time, start_date);
    lemma_filled_all(a, b, places, 0);
    lemma_as_places(a + "{{ roomId }}"@ + b, room_id, uid, name, title, time, start_date);
    lemma_filled_all(a, b, places, 1);
    lemma_as_places(a + "{{ uid }}"@ + b, room_id, uid, name, title, time, start_date);
    lemma_filled_all(a, b, places, 2);
    lemma_as_places(a + "{{ name }}"@ + b, room_id, uid, name, title, time, start_date);
    lemma_filled_all(a, b, places, 3);
    lemma_as_places(a + "{{ title }}"@ + b, room_id, uid, name, title, time, start_date);
    lemma_filled_all(a, b, places, 4);
    lemma_as_places(a + "{{ now }}"@ + b, room_id, uid, name, title, time, start_date);
    lemma_filled_all(a, b, places, 5);
    lemma_as_places(a + "{{ date }}"@ + b, room_id, uid, name, title, time, start_date);
    lemma_filled_all(a, b, places, 6);
    lemma_as_places(a + "{{ liveDate }}"@ + b, room_id, uid, name, title, time, start_date);
    lemma_filled_all(a, b, places, 7);
    lemma_as_places(a + "{{ live_date }}"@ + b, room_id, uid, name, title, time, start_date);
    lemma_filled_all(a, b, places, 8);
    lemma_as_places(a + "{{ time }}"@ + b, room_id, uid, name, title, time, start_date);
    lemma_filled_all(a, b, places, 9);
    lemma_as_places(a + "{{ ms }}"@ + b, room_id, uid, name, title, time, start_date);
    lemma_filled_all(a, b, places, 10);
    lemma_as_places(
        a + "{{ \"now\" | format_date: \"yyyyMMdd-HHmmss-fff\" }}"@ + b,
        room_id,
        uid,
        name,
        title,
        time,
        start_date,
    );
}

/// A streamer whose name is not known has a common one.
pub proof fn law_unknown_streamer_named(
    template: Seq<char>,
    room_id: Seq<char>,
    uid: Seq<char>,
    title: Seq<char>,
    time: NameTime,
    start_date: Seq<char>,
)
    ensures
        record_name(template, room_id, uid, None, title, time, start_date) == record_name(
            template,
            room_id,
            uid,
            Some("主播"@),
            title,
            time,
            start_date,
        ),
{
}

/// Milliseconds have three digits, and spell their number.
pub proof fn law_milliseconds_spelled(n: int)
    requires
        0 <= n < 1000,
    ensures
        three_digits(n).len() == 3,
        i64_value(three_digits(n)) == Some(n as i64),
{
    reveal_strlit("00");
    reveal_strlit("0");
    assert("00"@.len() == 2 && "00"@[0] == '0' && "00"@[1] == '0');
    assert("0"@.len() == 1 && "0"@[0] == '0');
    let s = three_digits(n);
    let d = digits_of(n as nat);
    lemma_digits_of(n as nat);
    assert(decimal(n) == d);
    reveal_with_fuel(digits_of, 4);
    assert(s.len() == 3);
    assert(all_digits(s)) by {
        assert forall|k: int| 0 <= k < s.len() implies is_digit(#[trigger] s[k]) by {
            let m = s.len() - d.len();
            if k >= m {
                assert(s[k] == d[k - m]);
                assert(is_digit(d[k - m]));
            }
        }
    }
    lemma_zeros_in_front(d);
    if n < 10 {
        assert(s =~= seq!['0'] + (seq!['0'] + d));
        lemma_zeros_in_front(seq!['0'] + d);
    } else if n < 100 {
        assert(s =~= seq!['0'] + d);
    }
    assert(digits_value(s) == n);
    assert(is_digit(s[0]));
}

proof fn lemma_zeros_in_front(d: Seq<char>)
    ensures
        digits_value(seq!['0'] + d) == digits_value(d),
    decreases d.len(),
{
    let s = seq!['0'] + d;
    if d.len() == 0 {
        assert(s.drop_last() =~= Seq::<char>::empty());
        reveal_with_fuel(digits_value, 2);
    } else {
        assert(s.drop_last() =~= seq!['0'] + d.drop_last());
        lemma_zeros_in_front(d.drop_last());
    }
}

/// A file is turned into MP4 after a crash for a day and a half, and counts as left behind when it
/// was not written for half an hour and nothing uses it.
pub proof fn law_files_left_behind(age: u64)
    ensures
        remux_in_time(Some(age)) == (age <= 129_600 * 1_000_000_000),
        !remux_in_time(None),
        idle_file(false, Some(age)) == (age >= 1800 * 1_000_000_000),
        !idle_file(true, Some(age)),
        !idle_file(false, None),
{
}

/// The notes on a recording tell the room, the streamer, the title and the beginning, each under
/// its key.
pub proof fn law_notes_at_start(
    info: LiveRoomInfo,
    nickname: Option<Seq<char>>,
    title: Seq<char>,
    start: Seq<char>,
)
    ensures
        ({
            let notes = started_notes(info, nickname, title, start);
            &&& text_at(notes, "roomId"@) == Some(info.room_id@)
            &&& text_at(notes, "uid"@) == Some(info.uid@)
            &&& text_at(notes, "nickname"@) == nickname
            &&& text_at(notes, "title"@) == Some(title)
            &&& text_at(notes, "startTime"@) == Some(start)
        }),
{
    reveal_strlit("roomId");
    reveal_strlit("uid");
    reveal_strlit("nickname");
    reveal_strlit("title");
    reveal_strlit("startTime");
    assert("roomId"@.len() == 6 && "uid"@.len() == 3 && "nickname"@.len() == 8 && "title"@.len()
        == 5 && "startTime"@.len() == 9);
    let fields = started_notes(info, nickname, title, start)->Object_0;
    assert(fields[0].0 == "roomId"@ && fields[1].0 == "uid"@ && fields[2].0 == "nickname"@
        && fields[3].0 == "title"@ && fields[4].0 == "startTime"@);
    lemma_field_at(fields, 0);
    lemma_field_at(fields, 1);
    lemma_field_at(fields, 2);
    lemma_field_at(fields, 3);
    lemma_field_at(fields, 4);
}

/// At its end a recording's notes tell when it ended and how large it is, and keep all else.
pub proof fn law_notes_at_end(notes: JsonView, end: Seq<char>, size: u64, key: Seq<char>)
    requires
        notes is Object,
    ensures
        text_at(ended_notes(notes, end, size), "endTime"@) == Some(end),
        field(ended_notes(notes, end, size), "fileSize"@) == Some(JsonView::Number(size as int)),
        key != "endTime"@ && key != "fileSize"@ ==> field(ended_notes(notes, end, size), key)
            == field(notes, key),
{
    reveal_strlit("endTime");
    reveal_strlit("fileSize");
    assert("endTime"@.len() == 7 && "fileSize"@.len() == 8);
    let once = with_field(notes, "endTime"@, JsonView::Str(end));
    law_field_update(notes, "endTime"@, JsonView::Str(end), "fileSize"@);
    law_field_update(once, "fileSize"@, JsonView::Number(size as int), "endTime"@);
    if key != "endTime"@ && key != "fileSize"@ {
        law_field_update(notes, "endTime"@, JsonView::Str(end), key);
        law_field_update(once, "fileSize"@, JsonView::Number(size as int), key);
    }
}

/// A recording whose end is not known ended its length behind its beginning.
pub proof fn law_end_is_start_and_length(
    notes: JsonView,
    start: Seq<char>,
    at: (i64, u32, Seq<char>),
    ms: i64,
)
    requires
        text_at(notes, "startTime"@) == Some(start),
        rfc3339_moment(start) == Ok::<(i64, u32, Seq<char>), Seq<char>>(at),
    ensures
        end_by_length(Some(notes), Some(ms)) == rfc3339_after(at.0, at.1, ms),
        end_by_length(Some(notes), None) is None,
        end_by_length(None, Some(ms)) is None,
{
}

proof fn lemma_all_kept(parts: Seq<Seq<char>>)
    requires
        forall|i: int| 0 <= i < parts.len() ==> (#[trigger] parts[i]).len() > 0,
    ensures
        nonempty(parts) == parts,
    decreases parts.len(),
{
    if parts.len() > 0 {
        let rest = parts.drop_last();
        assert forall|i: int| 0 <= i < rest.len() implies (#[trigger] rest[i]).len() > 0 by {
            assert(rest[i] == parts[i]);
        }
        lemma_all_kept(rest);
        assert(parts[parts.len() - 1].len() > 0);
        assert(rest.push(parts.last()) =~= parts);
    } else {
        assert(nonempty(parts) =~= parts);
    }
}

/// The directories of a name are parted by slashes of either kind, and are read back from it.
pub proof fn law_name_parts_read_back(parts: Seq<Seq<char>>)
    requires
        parts.len() > 0,
        forall|i: int| 0 <= i < parts.len() ==> (#[trigger] parts[i]).len() > 0,
        forall|i: int, k: int|
            0 <= i < parts.len() && 0 <= k < parts[i].len() ==> #[trigger] parts[i][k] != '/'
                && parts[i][k] != '\\',
    ensures
        name_parts(join(parts, seq!['/'])) == parts,
        name_parts(join(parts, seq!['\\'])) == parts,
{
    lemma_all_kept(parts);
    lemma_join_split(parts, '/');
    lemma_forward_join(parts, '/');
    lemma_forward_join(parts, '\\');
}

proof fn lemma_forward_join(parts: Seq<Seq<char>>, c: char)
    requires
        c == '/' || c == '\\',
        forall|i: int, k: int|
            0 <= i < parts.len() && 0 <= k < parts[i].len() ==> #[trigger] parts[i][k] != '\\',
    ensures
        forward(join(parts, seq![c])) == join(parts, seq!['/']),
    decreases parts.len(),
{
    if parts.len() == 0 {
        assert(forward(join(parts, seq![c])) =~= join(parts, seq!['/']));
    } else {
        let rest = parts.drop_last();
        let last = parts.last();
        assert forall|i: int, k: int| 0 <= i < rest.len() && 0 <= k < rest[i].len() implies
            #[trigger] rest[i][k] != '\\' by {
            assert(rest[i][k] == parts[i][k]);
        }
        assert forall|k: int| 0 <= k < last.len() implies last[k] != '\\' by {
            assert(parts[parts.len() - 1][k] != '\\');
        }
        assert(forward(last) =~= last);
        if parts.len() == 1 {
            assert(parts[0] == last);
        } else {
            lemma_forward_join(rest, c);
            let a = join(rest, seq![c]);
            assert(forward(a + seq![c] + last) =~= forward(a) + seq!['/'] + last);
        }
    }
}

} // verus!
