//! The settings that the recorder reads.

use vstd::prelude::*;

verus! {

/// How live streams are recorded.
pub struct LiveSettings {
    pub record_path: String,
    pub file_name_template: String,
    pub recording_quality: String,
    pub record_mode: i64,
    pub reconnect_keep_file: bool,
    pub cutting_mode: i64,
    pub cutting_number: i64,
    pub cutting_by_title: bool,
    pub title_split_min_seconds: i64,
    pub stream_retry_ms: i64,
    pub stream_retry_no_qn_sec: i64,
    pub stream_connect_timeout_ms: i64,
    pub stream_read_timeout_ms: i64,
    pub check_interval_sec: i64,
    pub write_metadata: bool,
    pub save_cover: bool,
    pub record_danmaku: bool,
    pub record_danmaku_raw: bool,
    pub record_danmaku_superchat: bool,
    pub record_danmaku_gift: bool,
    pub record_danmaku_guard: bool,
    pub danmaku_transport: i64,
    pub flv_fix_split_on_missing: bool,
    pub flv_fix_adjust_timestamp_jump: bool,
    pub flv_fix_split_on_timestamp_jump: bool,
    pub flv_fix_disable_on_annexb: bool,
}

/// The greater of a number and a lower bound.
pub open spec fn at_least(value: int, least: int) -> int {
    if value < least {
        least
    } else {
        value
    }
}

impl LiveSettings {
    /// The connect timeout in milliseconds: at least a second.
    pub fn connect_timeout_ms(&self) -> (r: u64)
        ensures
            r == at_least(self.stream_connect_timeout_ms as int, 1000),
    {
        if self.stream_connect_timeout_ms < 1000 {
            1000
        } else {
            self.stream_connect_timeout_ms as u64
        }
    }

    /// The read timeout in milliseconds: none where it is switched off, else at least a
    /// second.
    pub fn read_timeout_ms(&self) -> (r: Option<u64>)
        ensures
            r == (if self.stream_read_timeout_ms > 0 {
                Some(at_least(self.stream_read_timeout_ms as int, 1000) as u64)
            } else {
                None
            }),
    {
        if self.stream_read_timeout_ms > 0 {
            if self.stream_read_timeout_ms < 1000 {
                Some(1000)
            } else {
                Some(self.stream_read_timeout_ms as u64)
            }
        } else {
            None
        }
    }

    /// The seconds between two looks at the rooms: at least ten.
    pub fn check_interval(&self) -> (r: u64)
        ensures
            r == at_least(self.check_interval_sec as int, 10),
    {
        if self.check_interval_sec < 10 {
            10
        } else {
            self.check_interval_sec as u64
        }
    }

    /// The seconds that a file lasts at least before a new title opens another one.
    pub fn title_split_min(&self) -> (r: u64)
        ensures
            r == at_least(self.title_split_min_seconds as int, 0),
    {
        if self.title_split_min_seconds < 0 {
            0
        } else {
            self.title_split_min_seconds as u64
        }
    }

    /// Tells whether anything of the chat is recorded.
    pub open spec fn records_danmaku(&self) -> bool {
        self.record_danmaku || self.record_danmaku_raw || self.record_danmaku_superchat
            || self.record_danmaku_gift || self.record_danmaku_guard
    }
}

/// A number below the least counts as the least, and any other as it is.
pub proof fn law_least_kept(value: int, least: int)
    ensures
        at_least(value, least) >= least,
        value >= least ==> at_least(value, least) == value,
        value < least ==> at_least(value, least) == least,
{
}

/// Comments are recorded where any kind of them is to be.
pub proof fn law_any_kind_is_recorded(s: LiveSettings)
    ensures
        s.record_danmaku ==> s.records_danmaku(),
        s.record_danmaku_raw ==> s.records_danmaku(),
        s.record_danmaku_superchat ==> s.records_danmaku(),
        s.record_danmaku_gift ==> s.records_danmaku(),
        s.record_danmaku_guard ==> s.records_danmaku(),
        s.records_danmaku() ==> s.record_danmaku || s.record_danmaku_raw
            || s.record_danmaku_superchat || s.record_danmaku_gift || s.record_danmaku_guard,
{
}

} // verus!
