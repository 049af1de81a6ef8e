//! The recording of one live room: which address to read from, when to give up, and what of
//! the stream goes into which file. The caller connects, reads and writes as it is told.

use crate::flv::{
    bytes_or_empty, is_video_keyframe, keyframe, opens_segment, opt_bytes,
    rebase_tag_to_segment_start, rebased, segment_base, should_open_segment_on_tag, timestamp_of,
    FlvHeaderCache, FlvTag,
};
use crate::pipeline::{
    header_tag, LiveFlvPipeline, LivePipelineSettings, SplitReason, NANOS_PER_SEC,
};
use crate::settings::{at_least, LiveSettings};
use crate::text::{
    ascii_lower, chars_have, concat3, contains, copy_text, lowered, text_eq, to_chars,
};
use crate::timestamps::TAG_REACH;
use vstd::prelude::*;

verus! {

/// So many seconds without data count against the connection.
pub const MISSING_SEGMENT_WINDOW_SECS: u64 = 60;

/// So many counted failures in a row end the session.
pub const DISCONNECT_LIMIT: usize = 3;

/// Bytes in a mebibyte.
pub const MEBIBYTE: u64 = 1_048_576;

/// The state of a recording task.
#[derive(Clone, Copy, PartialEq, Eq, Structural)]
pub enum RecordStatus {
    Recording,
    Stopped,
    Completed,
    Failed,
}

impl RecordStatus {
    /// The stored form of the state.
    pub open spec fn spec_name(self) -> Seq<char> {
        match self {
            RecordStatus::Recording => "RECORDING"@,
            RecordStatus::Stopped => "STOPPED"@,
            RecordStatus::Completed => "COMPLETED"@,
            RecordStatus::Failed => "FAILED"@,
        }
    }

    /// The stored form of the state.
    pub fn name(self) -> (r: String)
        ensures
            r@ == self.spec_name(),
    {
        match self {
            RecordStatus::Recording => "RECORDING".to_owned(),
            RecordStatus::Stopped => "STOPPED".to_owned(),
            RecordStatus::Completed => "COMPLETED".to_owned(),
            RecordStatus::Failed => "FAILED".to_owned(),
        }
    }
}

/// How the open file is to be closed.
pub struct SegmentClose {
    pub status: RecordStatus,
    pub message: String,
}

/// What went wrong with a connection.
pub enum StreamFailure {
    /// No address could be had.
    FetchFailed,
    /// The address is about to expire.
    UrlExpired,
    /// The connection could not be made.
    ConnectFailed,
    /// The server answered with an error.
    BadStatus,
    /// The answer is no media stream.
    UnexpectedBody,
    /// The stream does not begin as it should.
    InvalidHeader,
    /// The stream ended.
    ReadEnd,
    /// No data came in time.
    ReadTimeout,
    /// Reading failed.
    ReadError,
    /// The stream no longer moves.
    Stuck(String),
}

/// What to do about a failure: close the open file, end the session, or wait and connect
/// again.
pub struct FailurePlan {
    pub close: Option<SegmentClose>,
    pub end: Option<String>,
    pub wait_ms: u64,
}

/// What the rules found in a tag.
pub struct TagVerdict {
    pub split: Option<SplitReason>,
    pub disconnect: Option<String>,
    pub progressed: bool,
}

/// What to do with a tag: close the open file, open a new one with the given first bytes,
/// write the given bytes, and ask for a cut.
pub struct TagPlan {
    pub close: Option<SegmentClose>,
    pub open: Option<Vec<u8>>,
    pub write: Option<Vec<u8>>,
    pub raise_split: bool,
}

/// The text in an optional string.
pub open spec fn opt_text(v: Option<String>) -> Option<Seq<char>> {
    match v {
        Some(s) => Some(s@),
        None => None,
    }
}

/// How a file is closed, by state and text.
pub open spec fn closing(v: Option<SegmentClose>) -> Option<(RecordStatus, Seq<char>)> {
    match v {
        Some(c) => Some((c.status, c.message@)),
        None => None,
    }
}

/// The whole seconds between two readings of the clock.
pub open spec fn seconds_between(from: u64, to: u64) -> int {
    if to < from {
        0
    } else {
        (to - from) / NANOS_PER_SEC as int
    }
}

fn elapsed_secs(from: u64, to: u64) -> (r: u64)
    ensures
        r == seconds_between(from, to),
{
    to.saturating_sub(from) / NANOS_PER_SEC
}

// ---------------------------------------------------------------------------
// Waiting

/// The wait before an attempt to reconnect: none before the first one, then longer, never
/// beyond the configured retry time nor three seconds.
pub open spec fn backoff_ms(attempt: u32, stream_retry_ms: i64) -> int {
    let cap = if stream_retry_ms > 3000 {
        3000
    } else {
        at_least(stream_retry_ms as int, 0)
    };
    let raw = if attempt == 0 {
        0int
    } else if attempt == 1 {
        200
    } else if attempt == 2 {
        500
    } else if attempt == 3 {
        1000
    } else {
        2000
    };
    if raw < cap {
        raw
    } else {
        cap
    }
}

/// The wait in milliseconds before an attempt to reconnect.
pub fn reconnect_backoff_ms(attempt: u32, settings: &LiveSettings) -> (r: u64)
    ensures
        r == backoff_ms(attempt, settings.stream_retry_ms),
{
    let cap: u64 = if settings.stream_retry_ms > 3000 {
        3000
    } else if settings.stream_retry_ms < 0 {
        0
    } else {
        settings.stream_retry_ms as u64
    };
    let raw: u64 = if attempt == 0 {
        0
    } else if attempt == 1 {
        200
    } else if attempt == 2 {
        500
    } else if attempt == 3 {
        1000
    } else {
        2000
    };
    if raw < cap {
        raw
    } else {
        cap
    }
}

/// The first attempt comes at once, later ones wait no less than earlier ones, and none waits
/// longer than two seconds nor longer than the retry time; a retry time below zero counts as none.
pub proof fn law_backoff(attempt: u32, later: u32, stream_retry_ms: i64)
    requires
        attempt <= later,
    ensures
        backoff_ms(0, stream_retry_ms) == 0,
        0 <= backoff_ms(attempt, stream_retry_ms) <= backoff_ms(later, stream_retry_ms) <= 2000,
        backoff_ms(attempt, stream_retry_ms) <= at_least(stream_retry_ms as int, 0),
{
}

// ---------------------------------------------------------------------------
// Responses

/// Tells whether a response cannot be a media stream: text, JSON or HTML, or an encoding
/// other than the plain one.
pub open spec fn unexpected_response(content_type: Seq<char>, content_encoding: Seq<char>) -> bool {
    let kind = crate::text::ascii_lower(content_type);
    let encoding = crate::text::ascii_lower(content_encoding);
    ||| crate::text::starts_with(kind, "text/"@)
    ||| crate::text::contains(kind, "json"@)
    ||| crate::text::contains(kind, "html"@)
    ||| (encoding != "-"@ && encoding != "identity"@ && encoding.len() > 0)
}

/// Tells whether a response cannot be a media stream. A missing header is written `-`.
pub fn is_unexpected_response(content_type: &str, content_encoding: &str) -> (r: bool)
    ensures
        r == unexpected_response(content_type@, content_encoding@),
{
    let raw_kind = crate::text::to_chars(content_type);
    let kind = crate::text::lowered(raw_kind.as_slice());
    let raw_encoding = crate::text::to_chars(content_encoding);
    let encoding = crate::text::lowered(raw_encoding.as_slice());
    crate::text::begins(kind.as_slice(), "text/") || crate::text::chars_have(
        kind.as_slice(),
        "json",
    ) || crate::text::chars_have(kind.as_slice(), "html") || (!crate::text::is_text(
        encoding.as_slice(),
        "-",
    ) && !crate::text::is_text(encoding.as_slice(), "identity") && encoding.len() > 0)
}

// ---------------------------------------------------------------------------
// The session

/// The state of the recording of one room.
pub struct RecordSession {
    pub stream_urls: Vec<String>,
    pub stream_url_index: usize,
    pub stream_url_failures: usize,
    pub force_no_qn_until: Option<i64>,
    pub disconnect_retries: usize,
    pub reconnect_attempt: u32,
    /// The bytes written to the open file, where one is open.
    pub segment: Option<u64>,
    pub segment_index: i64,
    pub segment_start: u64,
    pub segment_base_ts: Option<i64>,
    pub pending_split: bool,
    pub pending_title: Option<String>,
    pub missing_since: Option<u64>,
    pub current_title: String,
    pub pipeline: LiveFlvPipeline,
}

/// The failures after which a new address is asked for at once.
pub open spec fn drops_urls(failure: StreamFailure) -> bool {
    match failure {
        StreamFailure::UrlExpired => true,
        StreamFailure::BadStatus => true,
        StreamFailure::UnexpectedBody => true,
        StreamFailure::InvalidHeader => true,
        StreamFailure::Stuck(_) => true,
        _ => false,
    }
}

/// The failures after which the quality is left to the server for a while.
pub open spec fn leaves_quality(failure: StreamFailure) -> bool {
    match failure {
        StreamFailure::BadStatus => true,
        StreamFailure::UnexpectedBody => true,
        StreamFailure::InvalidHeader => true,
        StreamFailure::ReadError => true,
        StreamFailure::Stuck(_) => true,
        _ => false,
    }
}

/// The failures of reading.
pub open spec fn reading_failed(failure: StreamFailure) -> bool {
    match failure {
        StreamFailure::ReadEnd => true,
        StreamFailure::ReadTimeout => true,
        StreamFailure::ReadError => true,
        _ => false,
    }
}

/// The text under which a file is closed before a reconnect. `long` tells whether data has
/// been missing for the whole window.
pub open spec fn rotate_reason(failure: StreamFailure, long: bool) -> Seq<char> {
    match failure {
        StreamFailure::FetchFailed => "获取流地址失败，重连前切段"@,
        StreamFailure::UrlExpired => "流地址过期，重连前切段"@,
        StreamFailure::ConnectFailed => "连接流失败，重连前切段"@,
        StreamFailure::BadStatus => "响应异常，重连前切段"@,
        StreamFailure::UnexpectedBody => "响应格式异常，重连前切段"@,
        StreamFailure::InvalidHeader => "流头异常，重连前切段"@,
        StreamFailure::ReadEnd => if long {
            "流断开超过窗口，重连前切段"@
        } else {
            "读取结束，重连前切段"@
        },
        StreamFailure::ReadTimeout => if long {
            "读取异常超过窗口，重连前切段"@
        } else {
            "读取异常，重连前切段"@
        },
        StreamFailure::ReadError => if long {
            "读取异常超过窗口，重连前切段"@
        } else {
            "读取异常，重连前切段"@
        },
        StreamFailure::Stuck(reason) => "流异常（"@ + reason@ + "），重连前切段"@,
    }
}

/// The text under which the last file is closed when the session ends.
pub open spec fn final_reason(failure: StreamFailure) -> Seq<char> {
    match failure {
        StreamFailure::ReadEnd => "流断开超过阈值，录制会话终止"@,
        StreamFailure::Stuck(_) => "流异常超过阈值，录制会话终止"@,
        _ => "读取异常超过阈值，录制会话终止"@,
    }
}

/// The error with which the session ends.
pub open spec fn session_error(failure: StreamFailure) -> Seq<char> {
    match failure {
        StreamFailure::ReadEnd => "直播流中断超过阈值"@,
        StreamFailure::Stuck(_) => "流异常超过阈值"@,
        _ => "读取异常超过阈值"@,
    }
}

fn rotate_text(failure: &StreamFailure, long: bool) -> (r: String)
    ensures
        r@ == rotate_reason(*failure, long),
{
    match failure {
        StreamFailure::FetchFailed => copy_text("获取流地址失败，重连前切段"),
        StreamFailure::UrlExpired => copy_text("流地址过期，重连前切段"),
        StreamFailure::ConnectFailed => copy_text("连接流失败，重连前切段"),
        StreamFailure::BadStatus => copy_text("响应异常，重连前切段"),
        StreamFailure::UnexpectedBody => copy_text("响应格式异常，重连前切段"),
        StreamFailure::InvalidHeader => copy_text("流头异常，重连前切段"),
        StreamFailure::ReadEnd => if long {
            copy_text("流断开超过窗口，重连前切段")
        } else {
            copy_text("读取结束，重连前切段")
        },
        StreamFailure::ReadTimeout => if long {
            copy_text("读取异常超过窗口，重连前切段")
        } else {
            copy_text("读取异常，重连前切段")
        },
        StreamFailure::ReadError => if long {
            copy_text("读取异常超过窗口，重连前切段")
        } else {
            copy_text("读取异常，重连前切段")
        },
        StreamFailure::Stuck(reason) => concat3(
            "流异常（",
            reason.as_str(),
            "），重连前切段",
        ),
    }
}

fn final_text(failure: &StreamFailure) -> (r: String)
    ensures
        r@ == final_reason(*failure),
{
    match failure {
        StreamFailure::ReadEnd => copy_text("流断开超过阈值，录制会话终止"),
        StreamFailure::Stuck(_) => copy_text("流异常超过阈值，录制会话终止"),
        _ => copy_text("读取异常超过阈值，录制会话终止"),
    }
}

fn error_text(failure: &StreamFailure) -> (r: String)
    ensures
        r@ == session_error(*failure),
{
    match failure {
        StreamFailure::ReadEnd => copy_text("直播流中断超过阈值"),
        StreamFailure::Stuck(_) => copy_text("流异常超过阈值"),
        _ => copy_text("读取异常超过阈值"),
    }
}

impl RecordSession {
    /// The rules are well formed and a timestamp base is not negative.
    pub open spec fn wf(&self) -> bool {
        &&& self.pipeline.wf()
        &&& self.segment_base_ts matches Some(b) ==> 0 <= b
    }

    /// The beginning of a session.
    pub fn new(settings: &LiveSettings, title: &str, now: u64) -> (r: Self)
        ensures
            r.wf(),
            r.pipeline.room(),
            r.stream_urls@.len() == 0,
            r.stream_url_index == 0,
            r.stream_url_failures == 0,
            r.force_no_qn_until is None,
            r.disconnect_retries == 0,
            r.reconnect_attempt == 0,
            r.segment is None,
            r.segment_index == 1,
            r.segment_start == now,
            r.segment_base_ts is None,
            !r.pending_split,
            r.pending_title is None,
            r.missing_since is None,
            r.current_title@ == title@,
            r.pipeline.begins(
                (LivePipelineSettings {
                    split_on_script_tag: false,
                    disable_split_on_h264_annexb: settings.flv_fix_disable_on_annexb,
                }),
                true,
                true,
                now,
            ),
    {
        RecordSession {
            stream_urls: Vec::new(),
            stream_url_index: 0,
            stream_url_failures: 0,
            force_no_qn_until: None,
            disconnect_retries: 0,
            reconnect_attempt: 0,
            segment: None,
            segment_index: 1,
            segment_start: now,
            segment_base_ts: None,
            pending_split: false,
            pending_title: None,
            missing_since: None,
            current_title: copy_text(title),
            pipeline: LiveFlvPipeline::new(
                LivePipelineSettings {
                    split_on_script_tag: false,
                    disable_split_on_h264_annexb: settings.flv_fix_disable_on_annexb,
                },
                true,
                true,
                now,
            ),
        }
    }

    // -- addresses

    /// Tells whether addresses have to be fetched.
    pub fn needs_urls(&self) -> (r: bool)
        ensures
            r == (self.stream_urls@.len() == 0),
    {
        self.stream_urls.len() == 0
    }

    /// Tells whether the configured quality is asked for at the given Unix time; the time
    /// for which it was left to the server ends here.
    pub fn wants_quality(&mut self, now_secs: i64) -> (r: bool)
        ensures
            r == !(old(self).force_no_qn_until matches Some(until) && now_secs < until),
            *final(self) == (RecordSession {
                force_no_qn_until: if r {
                    None
                } else {
                    old(self).force_no_qn_until
                },
                ..*old(self)
            }),
    {
        if let Some(until) = self.force_no_qn_until {
            if now_secs < until {
                return false;
            }
        }
        self.force_no_qn_until = None;
        true
    }

    /// Takes the addresses that were fetched, from the first one on.
    pub fn set_urls(&mut self, urls: Vec<String>)
        ensures
            *final(self) == (RecordSession { stream_urls: urls, stream_url_index: 0, ..*old(self) }),
    {
        self.stream_urls = urls;
        self.stream_url_index = 0;
    }

    /// The next address, in turn; where there is none, addresses have to be fetched.
    pub fn take_url(&mut self) -> (r: Option<String>)
        ensures
            match r {
                Some(url) => {
                    &&& old(self).stream_url_index < old(self).stream_urls@.len()
                    &&& url@ == old(self).stream_urls@[old(self).stream_url_index as int]@
                    &&& *final(self) == (RecordSession {
                        stream_url_index: ((old(self).stream_url_index + 1) % old(self).stream_urls@.len() as int) as usize,
                        ..*old(self)
                    })
                },
                None => {
                    &&& old(self).stream_url_index >= old(self).stream_urls@.len()
                    &&& final(self).stream_urls@.len() == 0
                    &&& *final(self) == (RecordSession {
                        stream_urls: final(self).stream_urls,
                        ..*old(self)
                    })
                },
            },
    {
        let len: usize = self.stream_urls.len();
        if self.stream_url_index < len {
            let url = copy_text(self.stream_urls[self.stream_url_index].as_str());
            self.stream_url_index = (self.stream_url_index + 1) % len;
            Some(url)
        } else {
            self.stream_urls = Vec::new();
            None
        }
    }

    /// The address failed: the next mirror is tried, and once all have failed addresses are
    /// fetched anew.
    pub fn failover_or_refetch(&mut self)
        ensures
            ({
                let failures = if old(self).stream_url_failures < usize::MAX {
                    old(self).stream_url_failures + 1
                } else {
                    usize::MAX as int
                };
                if old(self).stream_urls@.len() <= 1 || failures >= old(self).stream_urls@.len() {
                    &&& final(self).stream_urls@.len() == 0
                    &&& *final(self) == (RecordSession {
                        stream_urls: final(self).stream_urls,
                        stream_url_failures: 0,
                        ..*old(self)
                    })
                } else {
                    *final(self) == (RecordSession {
                        stream_url_failures: failures as usize,
                        ..*old(self)
                    })
                }
            }),
    {
        self.stream_url_failures = self.stream_url_failures.saturating_add(1);
        if self.stream_urls.len() <= 1 || self.stream_url_failures >= self.stream_urls.len() {
            self.stream_urls = Vec::new();
            self.stream_url_failures = 0;
        }
    }

    // -- waiting

    /// The wait before the next attempt; the attempt is counted.
    pub fn next_wait(&mut self, settings: &LiveSettings) -> (r: u64)
        ensures
            r == backoff_ms(old(self).reconnect_attempt, settings.stream_retry_ms),
            *final(self) == (RecordSession {
                reconnect_attempt: if old(self).reconnect_attempt < u32::MAX {
                    (old(self).reconnect_attempt + 1) as u32
                } else {
                    u32::MAX
                },
                ..*old(self)
            }),
    {
        let wait_ms: u64 = reconnect_backoff_ms(self.reconnect_attempt, settings);
        self.reconnect_attempt = self.reconnect_attempt.saturating_add(1);
        wait_ms
    }

    /// Until when the quality is left to the server after a failure at the given time.
    pub open spec fn no_qn_until(&self, settings: LiveSettings, now_secs: i64) -> Option<i64> {
        if settings.stream_retry_no_qn_sec <= 0 {
            self.force_no_qn_until
        } else {
            Some((now_secs + settings.stream_retry_no_qn_sec) as i64)
        }
    }

    /// Leaves the quality to the server for the configured time.
    pub fn mark_force_no_qn(&mut self, settings: &LiveSettings, now_secs: i64)
        requires
            now_secs + at_least(settings.stream_retry_no_qn_sec as int, 0) <= i64::MAX,
        ensures
            *final(self) == (RecordSession {
                force_no_qn_until: old(self).no_qn_until(*settings, now_secs),
                ..*old(self)
            }),
    {
        if settings.stream_retry_no_qn_sec <= 0 {
            return ;
        }
        self.force_no_qn_until = Some(now_secs + settings.stream_retry_no_qn_sec);
    }

    /// No address could be fetched: where the quality may be left to the server, the wait
    /// before asking again without it.
    pub fn on_fetch_error(&mut self, settings: &LiveSettings, now_secs: i64) -> (r: Option<u64>)
        requires
            now_secs + at_least(settings.stream_retry_no_qn_sec as int, 0) <= i64::MAX,
        ensures
            settings.stream_retry_no_qn_sec <= 0 ==> r is None && *final(self) == *old(self),
            settings.stream_retry_no_qn_sec > 0 ==> r == Some(
                backoff_ms(old(self).reconnect_attempt, settings.stream_retry_ms) as u64,
            ) && *final(self) == (RecordSession {
                force_no_qn_until: old(self).no_qn_until(*settings, now_secs),
                reconnect_attempt: if old(self).reconnect_attempt < u32::MAX {
                    (old(self).reconnect_attempt + 1) as u32
                } else {
                    u32::MAX
                },
                ..*old(self)
            }),
    {
        if settings.stream_retry_no_qn_sec > 0 {
            self.mark_force_no_qn(settings, now_secs);
            Some(self.next_wait(settings))
        } else {
            None
        }
    }

    // -- failures

    /// Since when data has been missing, once a failure of reading is seen.
    pub open spec fn missing_from(&self, now: u64) -> u64 {
        match self.missing_since {
            Some(since) => since,
            None => now,
        }
    }

    /// Tells whether reading has failed for the whole window.
    pub open spec fn missing_long(&self, failure: StreamFailure, now: u64) -> bool {
        reading_failed(failure) && seconds_between(self.missing_from(now), now)
            >= MISSING_SEGMENT_WINDOW_SECS
    }

    /// Tells whether a failure counts towards the end of the session.
    pub open spec fn counted(&self, failure: StreamFailure, now: u64) -> bool {
        failure is Stuck || self.missing_long(failure, now)
    }

    /// Tells whether a failure ends the session.
    pub open spec fn gives_up(&self, failure: StreamFailure, now: u64) -> bool {
        self.counted(failure, now) && self.disconnect_retries + 1 >= DISCONNECT_LIMIT
    }

    /// Tells whether the open file is closed before the reconnect.
    pub open spec fn rotates(&self, settings: LiveSettings) -> bool {
        self.segment is Some && !settings.reconnect_keep_file
    }

    /// Decides what to do about a failure, at the given reading of the clock and Unix time.
    pub fn on_failure(
        &mut self,
        failure: StreamFailure,
        settings: &LiveSettings,
        latest_title: &str,
        now: u64,
        now_secs: i64,
    ) -> (r: FailurePlan)
        requires
            old(self).wf(),
            now_secs + at_least(settings.stream_retry_no_qn_sec as int, 0) <= i64::MAX,
            old(self).disconnect_retries < usize::MAX,
            old(self).segment_index < i64::MAX,
        ensures
            final(self).wf(),
            // the session ends at the third counted failure in a row, and then alone
            opt_text(r.end) == (if old(self).gives_up(failure, now) {
                Some(session_error(failure))
            } else {
                None
            }),
            final(self).disconnect_retries == old(self).disconnect_retries + (if old(self).counted(
                failure,
                now,
            ) {
                1int
            } else {
                0
            }),
            // the open file
            closing(r.close) == (if old(self).gives_up(failure, now) {
                if old(self).segment is Some {
                    Some((RecordStatus::Failed, final_reason(failure)))
                } else {
                    None
                }
            } else if old(self).rotates(*settings) {
                Some(
                    (
                        RecordStatus::Completed,
                        rotate_reason(failure, old(self).missing_long(failure, now)),
                    ),
                )
            } else {
                None
            }),
            final(self).segment == (if old(self).gives_up(failure, now) || old(self).rotates(
                *settings,
            ) {
                None
            } else {
                old(self).segment
            }),
            final(self).segment_index == old(self).segment_index + (if !old(self).gives_up(
                failure,
                now,
            ) && old(self).rotates(*settings) {
                1int
            } else {
                0
            }),
            final(self).current_title@ == (if !old(self).gives_up(failure, now) && old(self).rotates(*settings) {
                latest_title@
            } else {
                old(self).current_title@
            }),
            // what was pending for the open file
            ({
                let settled = !old(self).gives_up(failure, now) && old(self).segment is Some;
                &&& final(self).pending_split == (!settled && old(self).pending_split)
                &&& opt_text(final(self).pending_title) == (if settled {
                    None
                } else {
                    opt_text(old(self).pending_title)
                })
                &&& final(self).missing_since == (if settled {
                    None
                } else if reading_failed(failure) {
                    Some(old(self).missing_from(now))
                } else {
                    old(self).missing_since
                })
            }),
            // the addresses
            ({
                let failures = if old(self).stream_url_failures < usize::MAX {
                    old(self).stream_url_failures + 1
                } else {
                    usize::MAX as int
                };
                let next_mirror = failure is ConnectFailed || (reading_failed(failure) && !old(self).missing_long(failure, now));
                let exhausted = old(self).stream_urls@.len() <= 1 || failures >= old(self).stream_urls@.len();
                &&& final(self).stream_urls@ == (if drops_urls(failure) || old(self).missing_long(
                    failure,
                    now,
                ) || (next_mirror && exhausted) {
                    Seq::<String>::empty()
                } else {
                    old(self).stream_urls@
                })
                &&& final(self).stream_url_failures == (if next_mirror {
                    if exhausted {
                        0int
                    } else {
                        failures
                    }
                } else {
                    old(self).stream_url_failures as int
                })
                &&& final(self).stream_url_index == old(self).stream_url_index
            }),
            final(self).force_no_qn_until == (if leaves_quality(failure) {
                old(self).no_qn_until(*settings, now_secs)
            } else {
                old(self).force_no_qn_until
            }),
            // the wait
            r.wait_ms == (if old(self).gives_up(failure, now) {
                0
            } else {
                backoff_ms(old(self).reconnect_attempt, settings.stream_retry_ms)
            }),
            final(self).reconnect_attempt == (if old(self).gives_up(failure, now) || old(self).reconnect_attempt == u32::MAX {
                old(self).reconnect_attempt as int
            } else {
                old(self).reconnect_attempt + 1
            }),
            // what no failure touches
            final(self).segment_start == old(self).segment_start,
            final(self).segment_base_ts == old(self).segment_base_ts,
            final(self).pipeline == old(self).pipeline,
    {
        let reading: bool = match &failure {
            StreamFailure::ReadEnd => true,
            StreamFailure::ReadTimeout => true,
            StreamFailure::ReadError => true,
            _ => false,
        };
        let stuck: bool = match &failure {
            StreamFailure::Stuck(_) => true,
            _ => false,
        };
        let connect: bool = match &failure {
            StreamFailure::ConnectFailed => true,
            _ => false,
        };
        let drops: bool = match &failure {
            StreamFailure::UrlExpired => true,
            StreamFailure::BadStatus => true,
            StreamFailure::UnexpectedBody => true,
            StreamFailure::InvalidHeader => true,
            StreamFailure::Stuck(_) => true,
            _ => false,
        };
        let leaves: bool = match &failure {
            StreamFailure::BadStatus => true,
            StreamFailure::UnexpectedBody => true,
            StreamFailure::InvalidHeader => true,
            StreamFailure::ReadError => true,
            StreamFailure::Stuck(_) => true,
            _ => false,
        };
        if leaves {
            self.mark_force_no_qn(settings, now_secs);
        }
        let mut long: bool = false;
        if reading {
            let since: u64 = match self.missing_since {
                Some(since) => since,
                None => now,
            };
            self.missing_since = Some(since);
            long = elapsed_secs(since, now) >= MISSING_SEGMENT_WINDOW_SECS;
        }
        if long || stuck {
            self.disconnect_retries = self.disconnect_retries + 1;
        }
        if drops || long {
            self.stream_urls = Vec::new();
            assert(self.stream_urls@ =~= Seq::<String>::empty());
        }
        if (long || stuck) && self.disconnect_retries >= DISCONNECT_LIMIT {
            let close: Option<SegmentClose> = if self.segment.is_some() {
                Some(SegmentClose { status: RecordStatus::Failed, message: final_text(&failure) })
            } else {
                None
            };
            self.segment = None;
            return FailurePlan { close, end: Some(error_text(&failure)), wait_ms: 0 };
        }
        let close: Option<SegmentClose> = if self.rotate_for_reconnect(settings, latest_title) {
            Some(
                SegmentClose {
                    status: RecordStatus::Completed,
                    message: rotate_text(&failure, long),
                },
            )
        } else {
            None
        };
        if connect || (reading && !long) {
            self.failover_or_refetch();
            assert(self.stream_urls@.len() == 0 ==> self.stream_urls@ =~= Seq::<String>::empty());
        }
        let wait_ms: u64 = self.next_wait(settings);
        FailurePlan { close, end: None, wait_ms }
    }

    /// Settles the open file before a reconnect: it is kept, or closed so that the next data
    /// opens another one. Tells whether it has to be closed.
    pub fn rotate_for_reconnect(&mut self, settings: &LiveSettings, latest_title: &str) -> (r: bool)
        requires
            old(self).segment_index < i64::MAX,
        ensures
            r == old(self).rotates(*settings),
            old(self).segment is None ==> *final(self) == *old(self),
            old(self).segment is Some ==> {
                &&& !final(self).pending_split
                &&& final(self).pending_title is None
                &&& final(self).missing_since is None
                &&& final(self).segment == (if r {
                    None
                } else {
                    old(self).segment
                })
                &&& final(self).segment_index == old(self).segment_index + (if r {
                    1int
                } else {
                    0
                })
                &&& final(self).current_title@ == (if r {
                    latest_title@
                } else {
                    old(self).current_title@
                })
                &&& *final(self) == (RecordSession {
                    pending_split: final(self).pending_split,
                    pending_title: final(self).pending_title,
                    missing_since: final(self).missing_since,
                    segment: final(self).segment,
                    segment_index: final(self).segment_index,
                    current_title: final(self).current_title,
                    ..*old(self)
                })
            },
    {
        if self.segment.is_none() {
            return false;
        }
        self.pending_split = false;
        self.pending_title = None;
        self.missing_since = None;
        if settings.reconnect_keep_file {
            return false;
        }
        self.segment = None;
        self.segment_index = self.segment_index + 1;
        self.current_title = copy_text(latest_title);
        true
    }

    /// The recording is to stop: how the open file is closed.
    pub fn on_stop(&mut self) -> (r: Option<RecordStatus>)
        ensures
            r == (if old(self).segment is Some {
                Some(RecordStatus::Stopped)
            } else {
                None
            }),
            *final(self) == (RecordSession { segment: None, ..*old(self) }),
    {
        if self.segment.is_some() {
            self.segment = None;
            Some(RecordStatus::Stopped)
        } else {
            None
        }
    }

    /// A playlist stream was recorded to its end: the next file is another one. Returns the
    /// wait before the next attempt.
    pub fn on_playlist_end(&mut self, settings: &LiveSettings, latest_title: &str) -> (r: u64)
        requires
            old(self).segment_index < i64::MAX,
        ensures
            r == backoff_ms(old(self).reconnect_attempt, settings.stream_retry_ms),
            final(self).stream_urls@.len() == 0,
            final(self).segment_index == old(self).segment_index + 1,
            final(self).current_title@ == latest_title@,
            *final(self) == (RecordSession {
                stream_urls: final(self).stream_urls,
                segment_index: final(self).segment_index,
                current_title: final(self).current_title,
                reconnect_attempt: if old(self).reconnect_attempt < u32::MAX {
                    (old(self).reconnect_attempt + 1) as u32
                } else {
                    u32::MAX
                },
                ..*old(self)
            }),
    {
        self.stream_urls = Vec::new();
        self.segment_index = self.segment_index + 1;
        self.current_title = copy_text(latest_title);
        self.next_wait(settings)
    }

    /// Data came in: nothing is missing any more.
    pub fn on_data(&mut self)
        ensures
            *final(self) == (RecordSession { missing_since: None, ..*old(self) }),
    {
        self.missing_since = None;
    }

    // -- tags

    /// Tells whether the session has room for another tag of the given length.
    pub open spec fn room(&self, bytes: int) -> bool {
        &&& self.pipeline.room()
        &&& self.segment_index < i64::MAX
        &&& self.segment matches Some(written) ==> written + bytes <= u64::MAX
    }

    /// Tells whether the session has room for another tag of the given length.
    pub fn has_room(&self, bytes: usize) -> (r: bool)
        ensures
            r == self.room(bytes as int),
    {
        self.pipeline.has_room() && self.segment_index < i64::MAX && match self.segment {
            Some(written) => written <= u64::MAX - bytes as u64,
            None => true,
        }
    }

    /// Applies the rules to a tag: its timestamp is repaired, a request for a new file is
    /// noted, and a stream that no longer moves is reported.
    pub fn inspect_tag(&mut self, tag: &mut FlvTag, now: u64) -> (r: TagVerdict)
        requires
            old(self).wf(),
            old(self).pipeline.room(),
            old(tag).wf(),
        ensures
            final(self).wf(),
            final(tag).wf(),
            final(tag).tag_type == old(tag).tag_type,
            final(tag).data_offset == old(tag).data_offset,
            final(tag).data_len == old(tag).data_len,
            final(tag).bytes@ == old(self).pipeline.timestamp_fixer.rewritten(
                old(tag).tag_type,
                old(tag).bytes@,
                header_tag(old(tag).tag_type, old(tag).payload()),
            ),
            r.split == old(self).pipeline.split_for(
                old(tag).tag_type,
                old(tag).payload(),
                final(tag).bytes@,
                final(tag).payload(),
            ),
            opt_text(r.disconnect) == old(self).pipeline.disconnect_for(final(tag).bytes@, now),
            r.progressed == old(self).pipeline.advances(timestamp_of(final(tag).bytes@)),
            final(self).pending_split == (old(self).pending_split || r.split is Some),
            final(self).pipeline.follows(old(self).pipeline, *old(tag), *final(tag), now),
            forall|bound: int|
                0 <= bound && #[trigger] old(self).pipeline.timestamp_fixer.within(bound) ==> final(self).pipeline.timestamp_fixer.within(bound + TAG_REACH),
            *final(self) == (RecordSession {
                pending_split: final(self).pending_split,
                pipeline: final(self).pipeline,
                ..*old(self)
            }),
    {
        let decision = self.pipeline.process_tag(tag, now);
        if decision.request_split.is_some() {
            self.pending_split = true;
        }
        TagVerdict {
            split: decision.request_split,
            disconnect: decision.disconnect_reason,
            progressed: decision.progressed,
        }
    }

    /// Tells whether a new title came in while the recording runs under another one.
    pub open spec fn retitled(&self, title_split: bool, latest_title: Seq<char>) -> bool {
        title_split && latest_title != self.current_title@
    }

    /// The title under which the next file is opened, where one is waiting.
    pub open spec fn title_waiting(
        &self,
        settings: LiveSettings,
        split: bool,
        title_split: bool,
        latest_title: Seq<char>,
    ) -> Option<Seq<char>> {
        if self.retitled(title_split, latest_title) {
            Some(latest_title)
        } else if opt_text(self.pending_title) is None && split && settings.cutting_by_title
            && latest_title != self.current_title@ {
            Some(latest_title)
        } else {
            opt_text(self.pending_title)
        }
    }

    /// Tells whether the open file has lasted long enough for a new title.
    pub open spec fn title_due(&self, settings: LiveSettings, now: u64) -> bool {
        seconds_between(self.segment_start, now) >= at_least(
            settings.title_split_min_seconds as int,
            0,
        )
    }

    /// Tells whether a cut is wanted at the next key frame.
    pub open spec fn cut_wanted(
        &self,
        settings: LiveSettings,
        split: bool,
        title_split: bool,
        latest_title: Seq<char>,
        now: u64,
    ) -> bool {
        ||| self.pending_split
        ||| split
        ||| (self.retitled(title_split, latest_title) && self.title_due(settings, now))
        ||| (self.title_waiting(settings, split, title_split, latest_title) is Some
            && settings.title_split_min_seconds > 0 && self.title_due(settings, now))
    }

    /// Tells whether the tag closes the open file.
    pub open spec fn closes(&self, cut: bool, cache: FlvHeaderCache) -> bool {
        cut && self.segment is Some && cache.header is Some
    }

    /// Tells whether the tag opens a file.
    pub open spec fn opens(&self, cut: bool, cache: FlvHeaderCache, tag: FlvTag) -> bool {
        (self.segment is None || self.closes(cut, cache)) && cache.header is Some && opens_segment(
            tag.tag_type,
            tag.payload(),
        )
    }

    /// Tells whether the tag is written.
    pub open spec fn writes(&self, cut: bool, cache: FlvHeaderCache, tag: FlvTag) -> bool {
        (self.segment is Some && !self.closes(cut, cache)) || self.opens(cut, cache, tag)
    }

    /// The first bytes of a file.
    pub open spec fn preamble_of(cache: FlvHeaderCache) -> Seq<u8> {
        cache.header->0@ + bytes_or_empty(opt_bytes(cache.script_tag)) + bytes_or_empty(
            opt_bytes(cache.video_header),
        ) + bytes_or_empty(opt_bytes(cache.audio_header))
    }

    /// The bytes in the open file once the tag is written.
    pub open spec fn written_after(&self, cut: bool, cache: FlvHeaderCache, tag: FlvTag) -> int {
        if self.opens(cut, cache, tag) {
            (RecordSession::preamble_of(cache).len() + tag.bytes@.len()) as int
        } else {
            self.segment->0 + tag.bytes@.len()
        }
    }

    /// Tells whether a file that began at `start` and holds `written` bytes is full.
    pub open spec fn file_full(settings: LiveSettings, start: u64, written: int, now: u64) -> bool {
        if settings.cutting_mode == 1 {
            seconds_between(start, now) >= at_least(settings.cutting_number as int, 1)
        } else if settings.cutting_mode == 2 {
            written >= at_least(settings.cutting_number as int, 1) * MEBIBYTE
        } else {
            false
        }
    }

    /// Decides where a tag goes that passed the rules. `split` and `title_split` tell whether
    /// a cut was asked for since the last tag, and `latest_title` is the title of the room.
    pub fn place_tag(
        &mut self,
        tag: FlvTag,
        cache: &FlvHeaderCache,
        settings: &LiveSettings,
        progressed: bool,
        split: bool,
        title_split: bool,
        latest_title: &str,
        now: u64,
    ) -> (r: TagPlan)
        requires
            old(self).wf(),
            tag.wf(),
            old(self).room(tag.bytes@.len() as int),
            RecordSession::preamble_of(*cache).len() + tag.bytes@.len() <= u64::MAX,
        ensures
            final(self).wf(),
            ({
                let wanted = old(self).cut_wanted(*settings, split, title_split, latest_title@, now);
                let waiting = old(self).title_waiting(
                    *settings,
                    split,
                    title_split,
                    latest_title@,
                );
                let cut = wanted && keyframe(tag.tag_type, tag.payload());
                let closes = old(self).closes(cut, *cache);
                let opens = old(self).opens(cut, *cache, tag);
                let writes = old(self).writes(cut, *cache, tag);
                let base = if opens {
                    None
                } else {
                    old(self).segment_base_ts
                };
                let start = if opens {
                    now
                } else {
                    old(self).segment_start
                };
                // the cut
                &&& final(self).pending_split == (wanted && !cut)
                &&& opt_text(final(self).pending_title) == (if cut {
                    None
                } else {
                    waiting
                })
                &&& final(self).current_title@ == (if cut {
                    match waiting {
                        Some(title) => title,
                        None => latest_title@,
                    }
                } else {
                    old(self).current_title@
                })
                &&& closing(r.close) == (if closes {
                    Some((RecordStatus::Completed, "分段切换"@))
                } else {
                    None
                })
                &&& final(self).segment_index == old(self).segment_index + (if closes {
                    1int
                } else {
                    0
                })
                // the new file
                &&& opt_bytes(r.open) == (if opens {
                    Some(RecordSession::preamble_of(*cache))
                } else {
                    None
                })
                &&& final(self).segment_start == start
                // the tag
                &&& opt_bytes(r.write) == (if writes {
                    Some(rebased(base, tag.bytes@))
                } else {
                    None
                })
                &&& final(self).segment_base_ts == (if writes {
                    segment_base(base, tag.bytes@)
                } else {
                    base
                })
                &&& final(self).segment == (if writes {
                    Some(old(self).written_after(cut, *cache, tag) as u64)
                } else {
                    None
                })
                &&& r.raise_split == (writes && RecordSession::file_full(
                    *settings,
                    start,
                    old(self).written_after(cut, *cache, tag),
                    now,
                ))
                // progress forgives earlier failures
                &&& final(self).disconnect_retries == (if writes && progressed {
                    0
                } else {
                    old(self).disconnect_retries
                })
                &&& final(self).reconnect_attempt == (if writes && progressed {
                    0
                } else {
                    old(self).reconnect_attempt
                })
                &&& final(self).stream_url_failures == (if writes && progressed {
                    0
                } else {
                    old(self).stream_url_failures
                })
                // the rules
                &&& final(self).pipeline == (if opens {
                    LiveFlvPipeline {
                        last_progress_timestamp: None,
                        stagnant_count: 0,
                        last_progress_at: now,
                        last_chunk_hash: None,
                        duplicate_chunk_count: 0,
                        ..old(self).pipeline
                    }
                } else {
                    old(self).pipeline
                })
            }),
            final(self).stream_urls == old(self).stream_urls,
            final(self).stream_url_index == old(self).stream_url_index,
            final(self).force_no_qn_until == old(self).force_no_qn_until,
            final(self).missing_since == old(self).missing_since,
    {
        self.note_requests(settings, split, title_split, latest_title, now);
        let cut: bool = self.pending_split && is_video_keyframe(&tag);
        let close: Option<SegmentClose> = self.make_cut(cut, cache, latest_title);
        let mut open: Option<Vec<u8>> = None;
        if self.segment.is_none() {
            if !should_open_segment_on_tag(&tag) || !cache.has_header() {
                return TagPlan { close, open, write: None, raise_split: false };
            }
            open = self.open_file(cache, now);
        }
        let (bytes, raise_split): (Vec<u8>, bool) = self.write_tag(tag, settings, progressed, now);
        TagPlan { close, open, write: Some(bytes), raise_split }
    }

    /// Notes what was asked for since the last tag.
    fn note_requests(
        &mut self,
        settings: &LiveSettings,
        split: bool,
        title_split: bool,
        latest_title: &str,
        now: u64,
    )
        ensures
            final(self).pending_split == old(self).cut_wanted(
                *settings,
                split,
                title_split,
                latest_title@,
                now,
            ),
            opt_text(final(self).pending_title) == old(self).title_waiting(
                *settings,
                split,
                title_split,
                latest_title@,
            ),
            *final(self) == (RecordSession {
                pending_split: final(self).pending_split,
                pending_title: final(self).pending_title,
                ..*old(self)
            }),
    {
        let title_split_min: u64 = settings.title_split_min();
        let age: u64 = elapsed_secs(self.segment_start, now);
        let same_title: bool = text_eq(latest_title, self.current_title.as_str());
        if title_split && !same_title {
            self.pending_title = Some(copy_text(latest_title));
            if !(title_split_min > 0 && age < title_split_min) {
                self.pending_split = true;
            }
        }
        if split {
            if self.pending_title.is_none() && settings.cutting_by_title && !same_title {
                self.pending_title = Some(copy_text(latest_title));
            }
            self.pending_split = true;
        }
        if self.pending_title.is_some() && title_split_min > 0 && age >= title_split_min {
            self.pending_split = true;
        }
    }

    /// Settles a cut: the title changes, and the open file is to be closed.
    fn make_cut(&mut self, cut: bool, cache: &FlvHeaderCache, latest_title: &str) -> (r: Option<
        SegmentClose,
    >)
        requires
            old(self).segment_index < i64::MAX,
        ensures
            !cut ==> r is None && *final(self) == *old(self),
            cut ==> {
                &&& !final(self).pending_split
                &&& final(self).pending_title is None
                &&& final(self).current_title@ == (match opt_text(old(self).pending_title) {
                    Some(title) => title,
                    None => latest_title@,
                })
                &&& final(self).segment == (if old(self).closes(true, *cache) {
                    None
                } else {
                    old(self).segment
                })
                &&& final(self).segment_index == old(self).segment_index + (if old(self).closes(
                    true,
                    *cache,
                ) {
                    1int
                } else {
                    0
                })
                &&& closing(r) == (if old(self).closes(true, *cache) {
                    Some((RecordStatus::Completed, "分段切换"@))
                } else {
                    None
                })
                &&& *final(self) == (RecordSession {
                    pending_split: final(self).pending_split,
                    pending_title: final(self).pending_title,
                    current_title: final(self).current_title,
                    segment: final(self).segment,
                    segment_index: final(self).segment_index,
                    ..*old(self)
                })
            },
    {
        if !cut {
            return None;
        }
        let waiting: Option<String> = self.pending_title.take();
        self.current_title =
        match waiting {
            Some(title) => title,
            None => copy_text(latest_title),
        };
        self.pending_split = false;
        if self.segment.is_some() && cache.has_header() {
            self.segment = None;
            self.segment_index = self.segment_index + 1;
            Some(SegmentClose { status: RecordStatus::Completed, message: copy_text("分段切换") })
        } else {
            None
        }
    }

    /// Opens a file.
    fn open_file(&mut self, cache: &FlvHeaderCache, now: u64) -> (r: Option<Vec<u8>>)
        requires
            cache.header is Some,
            RecordSession::preamble_of(*cache).len() <= u64::MAX,
        ensures
            opt_bytes(r) == Some(RecordSession::preamble_of(*cache)),
            *final(self) == (RecordSession {
                segment: Some(RecordSession::preamble_of(*cache).len() as u64),
                segment_base_ts: None,
                segment_start: now,
                pipeline: LiveFlvPipeline {
                    last_progress_timestamp: None,
                    stagnant_count: 0,
                    last_progress_at: now,
                    last_chunk_hash: None,
                    duplicate_chunk_count: 0,
                    ..old(self).pipeline
                },
                ..*old(self)
            }),
    {
        let mut open: Option<Vec<u8>> = None;
        if let Ok(first) = cache.preamble() {
            self.segment = Some(first.len() as u64);
            open = Some(first);
        }
        self.pipeline.reset_on_new_segment(now);
        self.segment_base_ts = None;
        self.segment_start = now;
        open
    }

    /// Writes a tag into the open file.
    fn write_tag(&mut self, tag: FlvTag, settings: &LiveSettings, progressed: bool, now: u64) -> (r:
        (Vec<u8>, bool))
        requires
            old(self).segment is Some,
            old(self).segment->0 + tag.bytes@.len() <= u64::MAX,
            old(self).segment_base_ts matches Some(b) ==> 0 <= b,
        ensures
            r.0@ == rebased(old(self).segment_base_ts, tag.bytes@),
            r.1 == RecordSession::file_full(
                *settings,
                old(self).segment_start,
                old(self).segment->0 + tag.bytes@.len(),
                now,
            ),
            final(self).segment_base_ts matches Some(b) ==> 0 <= b,
            *final(self) == (RecordSession {
                segment: Some((old(self).segment->0 + tag.bytes@.len()) as u64),
                segment_base_ts: segment_base(old(self).segment_base_ts, tag.bytes@),
                disconnect_retries: if progressed {
                    0
                } else {
                    old(self).disconnect_retries
                },
                reconnect_attempt: if progressed {
                    0
                } else {
                    old(self).reconnect_attempt
                },
                stream_url_failures: if progressed {
                    0
                } else {
                    old(self).stream_url_failures
                },
                ..*old(self)
            }),
    {
        let mut tag = tag;
        let before: u64 = match self.segment {
            Some(written) => written,
            None => 0,
        };
        let written: u64 = before + tag.bytes.len() as u64;
        rebase_tag_to_segment_start(&mut tag, &mut self.segment_base_ts);
        self.segment = Some(written);
        if progressed {
            self.disconnect_retries = 0;
            self.reconnect_attempt = 0;
            self.stream_url_failures = 0;
        }
        let least: u64 = if settings.cutting_number < 1 {
            1
        } else {
            settings.cutting_number as u64
        };
        let raise_split: bool = if settings.cutting_mode == 1 {
            elapsed_secs(self.segment_start, now) >= least
        } else if settings.cutting_mode == 2 {
            written / MEBIBYTE >= least
        } else {
            false
        };
        (tag.bytes, raise_split)
    }
}

/// The index of the address that is taken after so many others, of `count` addresses.
pub open spec fn turn(count: nat, taken: nat) -> int
    decreases taken,
{
    if taken == 0 {
        0
    } else {
        (turn(count, (taken - 1) as nat) + 1) % count as int
    }
}

/// The mirrors are taken in turn: one round takes every address once, in order, and the next
/// round begins with the first again.
pub proof fn law_mirrors_in_turn(count: nat, taken: nat)
    requires
        count > 0,
    ensures
        turn(count, taken) == taken % count,
        taken < count ==> turn(count, taken) == taken,
        turn(count, count) == 0,
    decreases taken,
{
    lemma_turn(count, taken);
    lemma_turn(count, count);
    if taken < count {
        vstd::arithmetic::div_mod::lemma_small_mod(taken, count);
    }
    vstd::arithmetic::div_mod::lemma_mod_self_0(count as int);
}

proof fn lemma_turn(count: nat, taken: nat)
    requires
        count > 0,
    ensures
        turn(count, taken) == taken % count,
    decreases taken,
{
    if taken > 0 {
        lemma_turn(count, (taken - 1) as nat);
        vstd::arithmetic::div_mod::lemma_add_mod_noop((taken - 1) as int, 1, count as int);
        vstd::arithmetic::div_mod::lemma_mod_twice((taken - 1) as int, count as int);
        vstd::arithmetic::div_mod::lemma_add_mod_noop(
            (taken - 1) as int % count as int,
            1,
            count as int,
        );
    } else {
        vstd::arithmetic::div_mod::lemma_small_mod(0, count);
    }
}

/// A file loses nothing while it is open: every tag that passes the rules is written, also
/// the key frame at which one file ends and the next begins.
pub proof fn law_open_file_takes_every_tag(
    session: RecordSession,
    cut: bool,
    cache: FlvHeaderCache,
    tag: FlvTag,
)
    requires
        session.segment is Some,
        cut ==> keyframe(tag.tag_type, tag.payload()),
    ensures
        session.writes(cut, cache, tag),
        session.closes(cut, cache) ==> session.opens(cut, cache, tag),
{
    if cut {
        crate::flv::law_keyframe_opens_segment(tag.tag_type, tag.payload());
    }
}

/// A reconnect that keeps its file neither closes nor renumbers it, unless it ends the
/// session.
pub proof fn law_kept_file_survives_reconnect(session: RecordSession, settings: LiveSettings)
    requires
        settings.reconnect_keep_file,
    ensures
        !session.rotates(settings),
{
}

/// No failure ends a session that has not seen two counted ones before, without progress
/// between them.
pub proof fn law_session_outlasts_failures(
    session: RecordSession,
    failure: StreamFailure,
    now: u64,
)
    requires
        session.disconnect_retries < DISCONNECT_LIMIT - 1,
    ensures
        !session.gives_up(failure, now),
{
}

/// Data that has been missing for less than the window never counts against the connection.
pub proof fn law_short_gap_not_counted(session: RecordSession, failure: StreamFailure, now: u64)
    requires
        reading_failed(failure),
        seconds_between(session.missing_from(now), now) < MISSING_SEGMENT_WINDOW_SECS,
    ensures
        !session.counted(failure, now),
        !session.gives_up(failure, now),
{
}

/// Tells what a failed read is by its text: a read that timed out, or another error.
pub open spec fn timed_out(by_kind: bool, message: Seq<char>) -> bool {
    by_kind || contains(ascii_lower(message), "timed out"@)
}

/// What a failed read is. `by_kind` tells whether the system called it a timeout.
pub fn read_failure(by_kind: bool, message: &str) -> (r: StreamFailure)
    ensures
        r == (if timed_out(by_kind, message@) {
            StreamFailure::ReadTimeout
        } else {
            StreamFailure::ReadError
        }),
{
    if by_kind {
        return StreamFailure::ReadTimeout;
    }
    let lower = lowered(to_chars(message).as_slice());
    if chars_have(lower.as_slice(), "timed out") {
        StreamFailure::ReadTimeout
    } else {
        StreamFailure::ReadError
    }
}

// ---------------------------------------------------------------------------
// What the decisions amount to

/// A nanosecond clock in seconds: a file that is cut by time is full once it has lasted its seconds,
/// and not before; one that is cut by size once it holds its mebibytes; any other file never is. A
/// limit below one counts as one.
pub proof fn law_file_full_at_its_limit(
    settings: LiveSettings,
    start: u64,
    written: int,
    now: u64,
)
    requires
        start <= now,
        written >= 0,
    ensures
        ({
            let full = RecordSession::file_full(settings, start, written, now);
            let limit = if settings.cutting_number < 1 {
                1int
            } else {
                settings.cutting_number as int
            };
            &&& settings.cutting_mode == 1 ==> full == (now - start >= limit * 1_000_000_000)
            &&& settings.cutting_mode == 2 ==> full == (written >= limit * 1_048_576)
            &&& settings.cutting_mode != 1 && settings.cutting_mode != 2 ==> !full
        }),
{
    let limit = if settings.cutting_number < 1 {
        1int
    } else {
        settings.cutting_number as int
    };
    let d = now - start;
    assert((d / 1_000_000_000 >= limit) == (d >= limit * 1_000_000_000)) by (nonlinear_arith)
        requires
            d >= 0,
            limit >= 1,
    ;
}

/// A cut that was asked for is wanted until it is made; without a request there is none.
pub proof fn law_cut_comes_by_request(
    session: RecordSession,
    settings: LiveSettings,
    split: bool,
    title_split: bool,
    title: Seq<char>,
    now: u64,
)
    ensures
        session.pending_split || split ==> session.cut_wanted(
            settings,
            split,
            title_split,
            title,
            now,
        ),
        !session.pending_split && !split && !title_split && session.pending_title is None
            ==> !session.cut_wanted(settings, split, title_split, title, now),
        !session.pending_split && !split && title == session.current_title@
            && session.pending_title is None ==> !session.cut_wanted(
            settings,
            split,
            title_split,
            title,
            now,
        ),
{
}

/// A new title is kept for the next file, and cuts the open one as soon as that has lasted its
/// least time, and no sooner.
pub proof fn law_new_title_waits_for_its_time(
    session: RecordSession,
    settings: LiveSettings,
    title: Seq<char>,
    now: u64,
)
    requires
        !session.pending_split,
        title != session.current_title@,
        session.segment_start <= now,
    ensures
        session.title_waiting(settings, false, true, title) == Some(title),
        session.cut_wanted(settings, false, true, title, now) == (now - session.segment_start
            >= settings.title_split_min_seconds * 1_000_000_000),
        // later, while the title still waits
        settings.title_split_min_seconds > 0 && session.pending_title is Some
            ==> session.cut_wanted(settings, false, false, title, now) == (now
            - session.segment_start >= settings.title_split_min_seconds * 1_000_000_000),
        session.pending_title is Some ==> session.title_waiting(settings, false, false, title)
            == Some(session.pending_title->0@),
{
    let least = if settings.title_split_min_seconds < 0 {
        0int
    } else {
        settings.title_split_min_seconds as int
    };
    let d = now - session.segment_start;
    assert((d / 1_000_000_000 >= least) == (d >= least * 1_000_000_000)) by (nonlinear_arith)
        requires
            d >= 0,
            least >= 0,
    ;
}

/// Where a file is cut for another reason, and titles cut too, a title that changed goes with it.
pub proof fn law_title_goes_with_a_cut(
    session: RecordSession,
    settings: LiveSettings,
    title: Seq<char>,
)
    requires
        session.pending_title is None,
    ensures
        session.title_waiting(settings, true, false, title) == (if settings.cutting_by_title
            && title != session.current_title@ {
            Some(title)
        } else {
            None
        }),
        session.title_waiting(settings, false, false, title) is None,
{
}

/// A file begins with the header of the stream, and behind it with the script data, the
/// configuration of the picture and that of the sound, as far as they are known: its first bytes
/// hold each of them whole, in this order.
pub proof fn law_file_begins_with_headers(cache: FlvHeaderCache)
    requires
        cache.header is Some,
    ensures
        ({
            let p = RecordSession::preamble_of(cache);
            let a = cache.header->0@.len() as int;
            let b = a + (if cache.script_tag is Some {
                cache.script_tag->0@.len() as int
            } else {
                0
            });
            let c = b + (if cache.video_header is Some {
                cache.video_header->0@.len() as int
            } else {
                0
            });
            let d = c + (if cache.audio_header is Some {
                cache.audio_header->0@.len() as int
            } else {
                0
            });
            &&& p.len() == d
            &&& p.take(a) == cache.header->0@
            &&& cache.script_tag is Some ==> p.subrange(a, b) == cache.script_tag->0@
            &&& cache.video_header is Some ==> p.subrange(b, c) == cache.video_header->0@
            &&& cache.audio_header is Some ==> p.subrange(c, d) == cache.audio_header->0@
        }),
{
    let p = RecordSession::preamble_of(cache);
    let h = cache.header->0@;
    let s = bytes_or_empty(opt_bytes(cache.script_tag));
    let v = bytes_or_empty(opt_bytes(cache.video_header));
    let u = bytes_or_empty(opt_bytes(cache.audio_header));
    assert(p.take(h.len() as int) =~= h);
    assert(p.subrange(h.len() as int, (h.len() + s.len()) as int) =~= s);
    assert(p.subrange((h.len() + s.len()) as int, (h.len() + s.len() + v.len()) as int) =~= v);
    assert(p.subrange(
        (h.len() + s.len() + v.len()) as int,
        (h.len() + s.len() + v.len() + u.len()) as int,
    ) =~= u);
}

/// The bytes in a file are counted: the first bytes and the tag in a new file, what was there and
/// the tag in one that goes on.
pub proof fn law_written_bytes_counted(
    session: RecordSession,
    cut: bool,
    cache: FlvHeaderCache,
    tag: FlvTag,
)
    requires
        session.writes(cut, cache, tag),
    ensures
        session.written_after(cut, cache, tag) == tag.bytes@.len() + (if session.segment is Some
            && !(cut && cache.header is Some) {
            session.segment->0 as int
        } else {
            RecordSession::preamble_of(cache).len() as int
        }),
{
}

/// No file is opened before the header of the stream is known, and none with a configuration or
/// script data: the first tag of a file is a media tag.
pub proof fn law_file_opens_with_media(
    session: RecordSession,
    cut: bool,
    cache: FlvHeaderCache,
    tag: FlvTag,
)
    requires
        session.opens(cut, cache, tag),
    ensures
        cache.header is Some,
        tag.tag_type != 18,
        !(tag.tag_type == 8 && tag.payload().len() >= 2 && tag.payload()[0] / 16 == 10
            && tag.payload()[1] == 0),
        session.segment is None || cut,
{
}

/// The session ends at the third failure in a row that counts: a stream that no longer moves
/// counts, and so does one that gave no data for a minute; any other failure never does.
pub proof fn law_third_failure_ends(session: RecordSession, failure: StreamFailure, now: u64)
    ensures
        ({
            let since = match session.missing_since {
                Some(t) => t,
                None => now,
            };
            let reads = failure is ReadEnd || failure is ReadTimeout || failure is ReadError;
            let counts = failure is Stuck || (reads && now - since >= 60_000_000_000);
            &&& session.counted(failure, now) == counts
            &&& session.gives_up(failure, now) == (counts && session.disconnect_retries >= 2)
        }),
{
    let since = session.missing_from(now);
    if since <= now {
        let d = now - since;
        assert((d / 1_000_000_000 >= 60) == (d >= 60_000_000_000)) by (nonlinear_arith)
            requires
                d >= 0,
        ;
    }
}

/// A page instead of a stream is told by its type or its encoding, in any case of its letters; a
/// plain media type is not.
pub proof fn law_pages_told_from_streams(kind: Seq<char>, encoding: Seq<char>)
    ensures
        crate::text::starts_with(ascii_lower(kind), "text/"@) ==> unexpected_response(
            kind,
            encoding,
        ),
        contains(ascii_lower(kind), "json"@) ==> unexpected_response(kind, encoding),
        contains(ascii_lower(kind), "html"@) ==> unexpected_response(kind, encoding),
        ascii_lower(encoding) == "gzip"@ ==> unexpected_response(kind, encoding),
        !crate::text::starts_with(ascii_lower(kind), "text/"@) && !contains(
            ascii_lower(kind),
            "json"@,
        ) && !contains(ascii_lower(kind), "html"@) && (encoding.len() == 0 || ascii_lower(encoding)
            == "identity"@ || ascii_lower(encoding) == "-"@) ==> !unexpected_response(
            kind,
            encoding,
        ),
{
    reveal_strlit("gzip");
    reveal_strlit("-");
    reveal_strlit("identity");
    assert("gzip"@.len() == 4 && "-"@.len() == 1 && "identity"@.len() == 8);
    assert(ascii_lower(encoding).len() == encoding.len());
}

/// After a failure that an address or a quality caused, another one is asked for: a bad answer or a
/// stream that no longer moves drops the addresses and leaves the quality to the server, an address
/// that expires drops the addresses alone, and a failed connection does neither.
pub proof fn law_failures_and_addresses(reason: String)
    ensures
        drops_urls(StreamFailure::UrlExpired) && !leaves_quality(StreamFailure::UrlExpired),
        drops_urls(StreamFailure::BadStatus) && leaves_quality(StreamFailure::BadStatus),
        drops_urls(StreamFailure::UnexpectedBody) && leaves_quality(StreamFailure::UnexpectedBody),
        drops_urls(StreamFailure::InvalidHeader) && leaves_quality(StreamFailure::InvalidHeader),
        drops_urls(StreamFailure::Stuck(reason)) && leaves_quality(StreamFailure::Stuck(reason)),
        !drops_urls(StreamFailure::ConnectFailed) && !leaves_quality(StreamFailure::ConnectFailed),
        !drops_urls(StreamFailure::ReadEnd) && !leaves_quality(StreamFailure::ReadEnd),
        !drops_urls(StreamFailure::ReadTimeout) && !leaves_quality(StreamFailure::ReadTimeout),
        !drops_urls(StreamFailure::ReadError) && leaves_quality(StreamFailure::ReadError),
        contains(rotate_reason(StreamFailure::Stuck(reason), false), reason@),
{
    let text = "流异常（"@ + reason@ + "），重连前切段"@;
    let a = "流异常（"@.len() as int;
    assert(text.subrange(a, a + reason@.len()) =~= reason@);
    assert(crate::text::occurs_at(text, reason@, a));
}

/// The quality is left to the server for the configured seconds, from the failure on.
pub proof fn law_quality_left_for_a_while(
    session: RecordSession,
    settings: LiveSettings,
    now_secs: i64,
)
    requires
        0 <= now_secs,
        now_secs + settings.stream_retry_no_qn_sec <= i64::MAX,
    ensures
        settings.stream_retry_no_qn_sec > 0 ==> (session.no_qn_until(settings, now_secs)
            matches Some(until) && until - now_secs == settings.stream_retry_no_qn_sec),
        settings.stream_retry_no_qn_sec <= 0 ==> session.no_qn_until(settings, now_secs)
            == session.force_no_qn_until,
{
}

/// A read is taken for a timeout where the system says so or its message does.
pub proof fn law_timeouts_told(message: Seq<char>)
    ensures
        timed_out(true, message),
        timed_out(false, message) == contains(ascii_lower(message), "timed out"@),
{
}

/// The waits of a long outage: at once, then 200, 500 and 1000 milliseconds, then two seconds each
/// time, where the retry time does not cut them short.
pub proof fn law_backoff_steps(attempt: u32, stream_retry_ms: i64)
    ensures
        stream_retry_ms >= 2000 ==> backoff_ms(attempt, stream_retry_ms) == (if attempt == 0 {
            0int
        } else if attempt == 1 {
            200
        } else if attempt == 2 {
            500
        } else if attempt == 3 {
            1000
        } else {
            2000
        }),
        0 <= stream_retry_ms < 2000 && attempt >= 4 ==> backoff_ms(attempt, stream_retry_ms)
            == stream_retry_ms,
{
}

/// A session that ends by a failure says by which.
pub proof fn law_failure_named_at_end(failure: StreamFailure)
    ensures
        failure is ReadEnd ==> final_reason(failure) == "流断开超过阈值，录制会话终止"@
            && session_error(failure) == "直播流中断超过阈值"@,
        failure is Stuck ==> final_reason(failure) == "流异常超过阈值，录制会话终止"@
            && session_error(failure) == "流异常超过阈值"@,
        !(failure is ReadEnd) && !(failure is Stuck) ==> final_reason(failure)
            == "读取异常超过阈值，录制会话终止"@ && session_error(failure) == "读取异常超过阈值"@,
{
}

/// The states of a recording are stored under these names.
pub proof fn law_names_of_states()
    ensures
        RecordStatus::Recording.spec_name() == "RECORDING"@,
        RecordStatus::Stopped.spec_name() == "STOPPED"@,
        RecordStatus::Completed.spec_name() == "COMPLETED"@,
        RecordStatus::Failed.spec_name() == "FAILED"@,
{
}

/// Time is counted in whole seconds, and a clock that went back counts none.
pub proof fn law_whole_seconds_counted(from: u64, to: u64)
    ensures
        to < from ==> seconds_between(from, to) == 0,
        from <= to ==> seconds_between(from, to) * 1_000_000_000 <= to - from < (seconds_between(
            from,
            to,
        ) + 1) * 1_000_000_000,
{
}

} // verus!
