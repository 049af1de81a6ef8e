//! The files of a recording on one timeline, and the clips that are cut from them.

use crate::clips::{growing, larger, normalize_record_ids, ClipInterval};
use crate::json::{text_at, text_or_empty, Json, JsonView};
use crate::outside::{
    decimals, format_utc, ids_read, integers_json, integers_text, later_by, moment_after,
    moment_gap, parse_integers, parse_moment, rfc3339_moment, seconds_between, utc_text, TimePoint,
};
use crate::session::opt_text;
use crate::text::{
    concat2, copy_text, decimal, digits_of, extend, extend_text, find, find_from, i64_text,
    index_of, join, piece, position, split_on, text_eq, texts, to_chars, to_text, trim, trim_text,
    u64_digits, views,
};
use vstd::prelude::*;

verus! {

// ---------------------------------------------------------------------------
// Records

/// A record of a file: when it began, and when it ended where that is known, as texts.
pub struct RecordRow {
    pub record_id: i64,
    pub file_path: String,
    pub start_time: String,
    pub end_time: Option<String>,
}

/// A record of a file with its times.
pub struct TimedRecord {
    pub record_id: i64,
    pub file_path: String,
    pub start: TimePoint,
    pub end: Option<TimePoint>,
}

/// A record of a file with its times.
pub ghost struct TimedView {
    pub record_id: i64,
    pub file_path: Seq<char>,
    pub start: TimePoint,
    pub end: Option<TimePoint>,
}

impl View for TimedRecord {
    type V = TimedView;

    open spec fn view(&self) -> TimedView {
        TimedView {
            record_id: self.record_id,
            file_path: self.file_path@,
            start: self.start,
            end: self.end,
        }
    }
}

/// The views of a list of records.
pub open spec fn timed_views(v: Seq<TimedRecord>) -> Seq<TimedView> {
    Seq::new(v.len(), |i: int| v[i]@)
}

/// The moment that a text gives, or the error.
pub open spec fn read_time(s: Seq<char>) -> Result<TimePoint, Seq<char>> {
    match rfc3339_moment(s) {
        Ok(m) => Ok(TimePoint { secs: m.0, nanos: m.1 }),
        Err(e) => Err("时间解析失败: "@ + e),
    }
}

/// The moment that a text gives.
pub fn parse_rfc3339_utc(value: &str) -> (r: Result<TimePoint, String>)
    ensures
        match r {
            Ok(t) => read_time(value@) == Ok::<TimePoint, Seq<char>>(t),
            Err(e) => read_time(value@) == Err::<TimePoint, Seq<char>>(e@),
        },
{
    match parse_moment(value) {
        Ok(m) => Ok(TimePoint { secs: m.secs, nanos: m.nanos }),
        Err(e) => Err(concat2("时间解析失败: ", e.as_str())),
    }
}

/// A record with its times, or the error. A blank end is none.
pub open spec fn timed(row: RecordRow) -> Result<TimedView, Seq<char>> {
    match read_time(row.start_time@) {
        Err(e) => Err("解析录播开始时间失败: "@ + e),
        Ok(start) => {
            let base = TimedView {
                record_id: row.record_id,
                file_path: row.file_path@,
                start,
                end: None,
            };
            match row.end_time {
                None => Ok(base),
                Some(text) => if trim(text@).len() == 0 {
                    Ok(base)
                } else {
                    match read_time(text@) {
                        Err(e) => Err(e),
                        Ok(end) => Ok(TimedView { end: Some(end), ..base }),
                    }
                },
            }
        },
    }
}

fn time_row(row: &RecordRow) -> (r: Result<TimedRecord, String>)
    ensures
        match r {
            Ok(t) => timed(*row) == Ok::<TimedView, Seq<char>>(t@),
            Err(e) => timed(*row) == Err::<TimedView, Seq<char>>(e@),
        },
{
    let start = match parse_rfc3339_utc(row.start_time.as_str()) {
        Ok(t) => t,
        Err(e) => {
            return Err(concat2("解析录播开始时间失败: ", e.as_str()));
        },
    };
    let end: Option<TimePoint> = match &row.end_time {
        None => None,
        Some(text) => {
            let bare = trim_text(text.as_str());
            if bare.as_str().is_empty() {
                None
            } else {
                match parse_rfc3339_utc(text.as_str()) {
                    Ok(t) => Some(t),
                    Err(e) => {
                        return Err(e);
                    },
                }
            }
        },
    };
    Ok(
        TimedRecord {
            record_id: row.record_id,
            file_path: copy_text(row.file_path.as_str()),
            start,
            end,
        },
    )
}

/// Tells whether a moment comes before another.
pub open spec fn before(a: TimePoint, b: TimePoint) -> bool {
    a.secs < b.secs || (a.secs == b.secs && a.nanos < b.nanos)
}

fn is_before(a: TimePoint, b: TimePoint) -> (r: bool)
    ensures
        r == before(a, b),
{
    a.secs < b.secs || (a.secs == b.secs && a.nanos < b.nanos)
}

/// How many leading records do not begin after a moment.
pub open spec fn begin_place(s: Seq<TimedView>, start: TimePoint) -> int
    decreases s.len(),
{
    if s.len() == 0 || before(start, s[0].start) {
        0
    } else {
        1 + begin_place(s.drop_first(), start)
    }
}

/// The records of rows by their beginnings, or the first error. Records that begin together keep
/// their order.
pub open spec fn timed_rows(rows: Seq<RecordRow>) -> Result<Seq<TimedView>, Seq<char>>
    decreases rows.len(),
{
    if rows.len() == 0 {
        Ok(Seq::empty())
    } else {
        match timed_rows(rows.drop_last()) {
            Err(e) => Err(e),
            Ok(done) => match timed(rows.last()) {
                Err(e) => Err(e),
                Ok(row) => Ok(done.insert(begin_place(done, row.start), row)),
            },
        }
    }
}

proof fn lemma_rows_error(rows: Seq<RecordRow>, k: int, e: Seq<char>)
    requires
        0 <= k <= rows.len(),
        timed_rows(rows.take(k)) == Err::<Seq<TimedView>, Seq<char>>(e),
    ensures
        timed_rows(rows) == Err::<Seq<TimedView>, Seq<char>>(e),
    decreases rows.len() - k,
{
    if k < rows.len() {
        assert(rows.take(k + 1).drop_last() =~= rows.take(k));
        lemma_rows_error(rows, k + 1, e);
    } else {
        assert(rows.take(k) =~= rows);
    }
}

proof fn lemma_begin_place(s: Seq<TimedView>, start: TimePoint, p: int)
    requires
        0 <= p <= s.len(),
        forall|k: int| 0 <= k < p ==> !before(start, (#[trigger] s[k]).start),
        p < s.len() ==> before(start, s[p].start),
    ensures
        begin_place(s, start) == p,
    decreases s.len(),
{
    if p > 0 {
        assert(!before(start, s[0].start));
        let t = s.drop_first();
        assert forall|k: int| 0 <= k < p - 1 implies !before(start, (#[trigger] t[k]).start) by {
            assert(t[k] == s[k + 1]);
        }
        lemma_begin_place(t, start, p - 1);
    }
}

/// The records of rows by their beginnings, or the first error.
pub fn time_rows(rows: &Vec<RecordRow>) -> (r: Result<Vec<TimedRecord>, String>)
    ensures
        match r {
            Ok(records) => timed_rows(rows@) == Ok::<Seq<TimedView>, Seq<char>>(
                timed_views(records@),
            ),
            Err(e) => timed_rows(rows@) == Err::<Seq<TimedView>, Seq<char>>(e@),
        },
{
    let ghost all = rows@;
    let mut out: Vec<TimedRecord> = Vec::new();
    let mut i: usize = 0;
    assert(all.take(0) =~= Seq::<RecordRow>::empty());
    assert(timed_views(out@) =~= Seq::<TimedView>::empty());
    while i < rows.len()
        invariant
            i <= rows@.len(),
            all == rows@,
            timed_rows(all.take(i as int)) == Ok::<Seq<TimedView>, Seq<char>>(timed_views(out@)),
        decreases rows.len() - i,
    {
        assert(all.take(i + 1).drop_last() =~= all.take(i as int));
        assert(all.take(i + 1).last() == all[i as int]);
        match time_row(&rows[i]) {
            Ok(record) => {
                let ghost done = timed_views(out@);
                let mut at: usize = 0;
                while at < out.len() && !is_before(record.start, out[at].start)
                    invariant
                        at <= out@.len(),
                        done == timed_views(out@),
                        forall|k: int|
                            0 <= k < at ==> !before(record.start, (#[trigger] done[k]).start),
                    decreases out.len() - at,
                {
                    assert(done[at as int] == out@[at as int]@);
                    at += 1;
                }
                proof {
                    if at < out.len() {
                        assert(done[at as int] == out@[at as int]@);
                    }
                    lemma_begin_place(done, record.start, at as int);
                }
                let ghost added = record@;
                out.insert(at, record);
                assert(timed_views(out@) =~= done.insert(at as int, added));
            },
            Err(e) => {
                proof {
                    lemma_rows_error(all, i + 1, e@);
                }
                return Err(e);
            },
        }
        i += 1;
    }
    assert(all.take(i as int) =~= all);
    Ok(out)
}

/// Tells whether the length of the last file has to be read from the file: its end is not known.
pub fn needs_duration(records: &Vec<TimedRecord>) -> (r: bool)
    ensures
        r == (records@.len() > 0 && records@.last().end is None),
{
    if records.len() == 0 {
        return false;
    }
    records[records.len() - 1].end.is_none()
}

// ---------------------------------------------------------------------------
// Segments

/// A file of a recording: its times, and the seconds that it covers, counted from the beginning
/// of the first file.
pub struct LiveRecordSegment {
    pub record_id: i64,
    pub file_path: String,
    pub start_time: TimePoint,
    pub end_time: TimePoint,
    pub offset_start: i64,
    pub offset_end: i64,
}

/// A file of a recording.
pub ghost struct SegmentView {
    pub record_id: i64,
    pub file_path: Seq<char>,
    pub start: TimePoint,
    pub end: TimePoint,
    pub offset_start: i64,
    pub offset_end: i64,
}

impl View for LiveRecordSegment {
    type V = SegmentView;

    open spec fn view(&self) -> SegmentView {
        SegmentView {
            record_id: self.record_id,
            file_path: self.file_path@,
            start: self.start_time,
            end: self.end_time,
            offset_start: self.offset_start,
            offset_end: self.offset_end,
        }
    }
}

/// The views of a list of files.
pub open spec fn segment_views(v: Seq<LiveRecordSegment>) -> Seq<SegmentView> {
    Seq::new(v.len(), |i: int| v[i]@)
}

/// The whole seconds between two moments.
pub open spec fn gap(from: TimePoint, to: TimePoint) -> Option<i64> {
    moment_gap(from.secs, from.nanos, to.secs, to.nanos)
}

/// The moment some seconds after another.
pub open spec fn after(from: TimePoint, seconds: i64) -> Option<TimePoint> {
    match moment_after(from.secs, from.nanos, seconds) {
        Some(t) => Some(TimePoint { secs: t.0, nanos: t.1 }),
        None => None,
    }
}

/// The end of a record: its own, else the beginning of the next one, else what the length of
/// the file tells. None where the calendar does not reach it.
pub open spec fn record_end(
    records: Seq<TimedView>,
    i: int,
    duration: Option<i64>,
) -> Option<Result<TimePoint, Seq<char>>> {
    match records[i].end {
        Some(end) => Some(Ok(end)),
        None => if i + 1 < records.len() {
            Some(Ok(records[i + 1].start))
        } else {
            match duration {
                Some(d) => match after(records[i].start, d) {
                    Some(end) => Some(Ok(end)),
                    None => None,
                },
                None => Some(Err("无法获取录播时长: "@ + records[i].file_path)),
            }
        },
    }
}

/// The files of the first records, without their seconds, or the first error.
pub open spec fn bare_segments(
    records: Seq<TimedView>,
    n: int,
    duration: Option<i64>,
) -> Option<Result<Seq<SegmentView>, Seq<char>>>
    decreases n,
{
    if n <= 0 {
        Some(Ok(Seq::empty()))
    } else {
        match bare_segments(records, n - 1, duration) {
            Some(Ok(done)) => {
                let record = records[n - 1];
                match record_end(records, n - 1, duration) {
                    None => None,
                    Some(Err(e)) => Some(Err(e)),
                    Some(Ok(end)) => if before(record.start, end) {
                        Some(
                            Ok(
                                done.push(
                                    SegmentView {
                                        record_id: record.record_id,
                                        file_path: record.file_path,
                                        start: record.start,
                                        end,
                                        offset_start: 0,
                                        offset_end: 0,
                                    },
                                ),
                            ),
                        )
                    } else {
                        Some(Err("录播结束时间异常: "@ + record.file_path))
                    },
                }
            },
            other => other,
        }
    }
}

/// The earliest of some moments.
pub open spec fn earliest(s: Seq<SegmentView>) -> TimePoint
    decreases s.len(),
{
    if s.len() <= 1 {
        s[0].start
    } else {
        let rest = earliest(s.drop_last());
        if before(s.last().start, rest) {
            s.last().start
        } else {
            rest
        }
    }
}

/// The seconds that a file covers, given those from the beginning to its own and to its end: it
/// begins no earlier than the recording, and ends no earlier than it begins.
pub open spec fn covered(start_gap: i64, end_gap: i64) -> (i64, i64) {
    let start = larger(start_gap, 0);
    (start, larger(end_gap, start))
}

/// The seconds that a file covers, given those from the beginning to its own and to its end.
pub fn covered_seconds(start_gap: i64, end_gap: i64) -> (r: (i64, i64))
    ensures
        r == covered(start_gap, end_gap),
        0 <= r.0 <= r.1,
{
    let start: i64 = if start_gap > 0 {
        start_gap
    } else {
        0
    };
    let end: i64 = if end_gap > start {
        end_gap
    } else {
        start
    };
    (start, end)
}

/// A file with the seconds that it covers.
pub open spec fn placed(s: SegmentView, base: TimePoint) -> Option<SegmentView> {
    match (gap(base, s.start), gap(base, s.end)) {
        (Some(a), Some(b)) => Some(
            SegmentView { offset_start: covered(a, b).0, offset_end: covered(a, b).1, ..s },
        ),
        _ => None,
    }
}

/// Files with the seconds that they cover.
pub open spec fn all_placed(s: Seq<SegmentView>, base: TimePoint) -> Option<Seq<SegmentView>>
    decreases s.len(),
{
    if s.len() == 0 {
        Some(Seq::empty())
    } else {
        match (all_placed(s.drop_last(), base), placed(s.last(), base)) {
            (Some(rest), Some(last)) => Some(rest.push(last)),
            _ => None,
        }
    }
}

proof fn lemma_not_placed(s: Seq<SegmentView>, base: TimePoint, k: int)
    requires
        0 <= k <= s.len(),
        all_placed(s.take(k), base) is None,
    ensures
        all_placed(s, base) is None,
    decreases s.len() - k,
{
    if k < s.len() {
        assert(s.take(k + 1).drop_last() =~= s.take(k));
        lemma_not_placed(s, base, k + 1);
    } else {
        assert(s.take(k) =~= s);
    }
}

/// Tells whether the seconds of files are in order: none begins before the recording, or ends
/// before it begins.
pub open spec fn well_placed(s: Seq<SegmentView>) -> bool {
    forall|i: int|
        0 <= i < s.len() ==> 0 <= (#[trigger] s[i]).offset_start <= s[i].offset_end
}

/// The earliest moment at which one of some files starts.
pub fn find_earliest(segments: &Vec<LiveRecordSegment>) -> (r: TimePoint)
    requires
        segments@.len() > 0,
    ensures
        r == earliest(segment_views(segments@)),
{
    let ghost all = segment_views(segments@);
    let mut base = segments[0].start_time;
    let mut i: usize = 1;
    assert(all[0] == segments@[0]@);
    while i < segments.len()
        invariant
            1 <= i <= segments@.len(),
            all == segment_views(segments@),
            base == earliest(all.take(i as int)),
        decreases segments.len() - i,
    {
        assert(all.take(i + 1).drop_last() =~= all.take(i as int));
        assert(all.take(i + 1).last() == segments@[i as int]@);
        if is_before(segments[i].start_time, base) {
            base = segments[i].start_time;
        }
        i += 1;
    }
    assert(all.take(i as int) =~= all);
    base
}

fn place_all(segments: Vec<LiveRecordSegment>) -> (r: Option<Vec<LiveRecordSegment>>)
    ensures
        ({
            let all = segment_views(segments@);
            match r {
                Some(out) => well_placed(segment_views(out@)) && (if all.len() == 0 {
                    segment_views(out@) == all
                } else {
                    all_placed(all, earliest(all)) == Some(segment_views(out@))
                }),
                None => all.len() > 0 && all_placed(all, earliest(all)) is None,
            }
        }),
{
    let ghost all = segment_views(segments@);
    if segments.len() == 0 {
        return Some(segments);
    }
    let base = find_earliest(&segments);
    let mut out: Vec<LiveRecordSegment> = Vec::new();
    let mut i: usize = 0;
    assert(all.take(0) =~= Seq::<SegmentView>::empty());
    assert(segment_views(out@) =~= Seq::<SegmentView>::empty());
    while i < segments.len()
        invariant
            i <= segments@.len(),
            all == segment_views(segments@),
            all.len() > 0,
            base == earliest(all),
            all_placed(all.take(i as int), base) == Some(segment_views(out@)),
            well_placed(segment_views(out@)),
        decreases segments.len() - i,
    {
        assert(all.take(i + 1).drop_last() =~= all.take(i as int));
        assert(all.take(i + 1).last() == segments@[i as int]@);
        let a = seconds_between(base, segments[i].start_time);
        let b = seconds_between(base, segments[i].end_time);
        match (a, b) {
            (Some(start_gap), Some(end_gap)) => {
                let (offset_start, offset_end): (i64, i64) = covered_seconds(start_gap, end_gap);
                let ghost done = segment_views(out@);
                let segment = LiveRecordSegment {
                    record_id: segments[i].record_id,
                    file_path: copy_text(segments[i].file_path.as_str()),
                    start_time: segments[i].start_time,
                    end_time: segments[i].end_time,
                    offset_start,
                    offset_end,
                };
                let ghost added = segment@;
                out.push(segment);
                assert(segment_views(out@) =~= done.push(added));
                assert forall|k: int| 0 <= k < segment_views(out@).len() implies 0 <= (
                #[trigger] segment_views(out@)[k]).offset_start <= segment_views(
                    out@,
                )[k].offset_end by {
                    if k < done.len() {
                        assert(done[k] == segment_views(out@)[k]);
                    }
                }
            },
            _ => {
                proof {
                    lemma_not_placed(all, base, i + 1);
                }
                return None;
            },
        }
        i += 1;
    }
    assert(all.take(i as int) =~= all);
    Some(out)
}

/// The files of some records, or the first error. None where the calendar does not reach the
/// end of a file.
pub open spec fn segments_of(records: Seq<TimedView>, duration: Option<i64>) -> Option<
    Result<Seq<SegmentView>, Seq<char>>,
> {
    match bare_segments(records, records.len() as int, duration) {
        Some(Ok(bare)) => if bare.len() == 0 {
            Some(Ok(bare))
        } else {
            match all_placed(bare, earliest(bare)) {
                Some(out) => Some(Ok(out)),
                None => None,
            }
        },
        other => other,
    }
}

proof fn lemma_bare_stops(records: Seq<TimedView>, k: int, n: int, duration: Option<i64>)
    requires
        k <= n,
        !(bare_segments(records, k, duration) matches Some(Ok(_))),
    ensures
        bare_segments(records, n, duration) == bare_segments(records, k, duration),
    decreases n - k,
{
    if k < n {
        lemma_bare_stops(records, k, n - 1, duration);
    }
}

/// The files of some records. `duration` is the length of the last file, where it could be read.
pub fn build_segments(records: &Vec<TimedRecord>, duration: Option<i64>) -> (r: Option<
    Result<Vec<LiveRecordSegment>, String>,
>)
    ensures
        match r {
            Some(Ok(out)) => well_placed(segment_views(out@)) && segments_of(
                timed_views(records@),
                duration,
            ) == Some(Ok::<Seq<SegmentView>, Seq<char>>(segment_views(out@))),
            Some(Err(e)) => segments_of(timed_views(records@), duration) == Some(
                Err::<Seq<SegmentView>, Seq<char>>(e@),
            ),
            None => segments_of(timed_views(records@), duration) is None,
        },
{
    let ghost all = timed_views(records@);
    let mut bare: Vec<LiveRecordSegment> = Vec::new();
    let mut i: usize = 0;
    assert(segment_views(bare@) =~= Seq::<SegmentView>::empty());
    let len: usize = records.len();
    while i < len
        invariant
            i <= len,
            len == records@.len(),
            all == timed_views(records@),
            bare_segments(all, i as int, duration) == Some(
                Ok::<Seq<SegmentView>, Seq<char>>(segment_views(bare@)),
            ),
        decreases len - i,
    {
        assert(all[i as int] == records@[i as int]@);
        let end: TimePoint = match records[i].end {
            Some(end) => end,
            None => {
                if i + 1 < len {
                    assert(all[i + 1] == records@[i + 1]@);
                    records[i + 1].start
                } else {
                    match duration {
                        Some(d) => match later_by(records[i].start, d) {
                            Some(end) => end,
                            None => {
                                proof {
                                    lemma_bare_stops(all, i + 1, len as int, duration);
                                }
                                return None;
                            },
                        },
                        None => {
                            proof {
                                lemma_bare_stops(all, i + 1, len as int, duration);
                            }
                            return Some(
                                Err(concat2("无法获取录播时长: ", records[i].file_path.as_str())),
                            );
                        },
                    }
                }
            },
        };
        if !is_before(records[i].start, end) {
            proof {
                lemma_bare_stops(all, i + 1, len as int, duration);
            }
            return Some(Err(concat2("录播结束时间异常: ", records[i].file_path.as_str())));
        }
        let ghost done = segment_views(bare@);
        let segment = LiveRecordSegment {
            record_id: records[i].record_id,
            file_path: copy_text(records[i].file_path.as_str()),
            start_time: records[i].start,
            end_time: end,
            offset_start: 0,
            offset_end: 0,
        };
        let ghost added = segment@;
        bare.push(segment);
        assert(segment_views(bare@) =~= done.push(added));
        i += 1;
    }
    assert(segment_views(bare@).len() == bare@.len());
    match place_all(bare) {
        Some(out) => Some(Ok(out)),
        None => None,
    }
}

/// A file with the end that its length tells, where its times are off by more than half a
/// minute.
pub open spec fn adjusted(s: SegmentView, duration: Option<i64>) -> Option<SegmentView> {
    match duration {
        None => Some(s),
        Some(d) => match gap(s.start, s.end) {
            None => None,
            Some(g) => if is_off(g, d) {
                match after(s.start, d) {
                    Some(end) => Some(SegmentView { end, ..s }),
                    None => None,
                }
            } else {
                Some(s)
            },
        },
    }
}

/// Tells whether the times of a file are off by more than half a minute from its length.
pub open spec fn is_off(computed: i64, duration: i64) -> bool {
    computed <= 0 || duration - computed > 30 || computed - duration > 30
}

/// Tells whether the times of a file are off by more than half a minute from its length.
pub fn length_is_off(computed: i64, duration: i64) -> (r: bool)
    ensures
        r == is_off(computed, duration),
{
    computed <= 0 || duration as i128 - computed as i128 > 30 || computed as i128
        - duration as i128 > 30
}

/// What is known of a file: nothing where it is gone, else where it is, and its length where it
/// could be read.
pub open spec fn probe_views(v: Seq<Option<(String, Option<i64>)>>) -> Seq<
    Option<(Seq<char>, Option<i64>)>,
> {
    Seq::new(
        v.len(),
        |i: int|
            match v[i] {
                Some(p) => Some((p.0@, p.1)),
                None => None,
            },
    )
}

/// The files that are there, with their ends adjusted.
pub open spec fn present(
    s: Seq<SegmentView>,
    probes: Seq<Option<(Seq<char>, Option<i64>)>>,
) -> Option<Seq<SegmentView>>
    decreases s.len(),
{
    if s.len() == 0 {
        Some(Seq::empty())
    } else {
        match present(s.drop_last(), probes) {
            None => None,
            Some(rest) => match probes[s.len() - 1] {
                None => Some(rest),
                Some((path, duration)) => match adjusted(
                    SegmentView { file_path: path, ..s.last() },
                    duration,
                ) {
                    Some(last) => Some(rest.push(last)),
                    None => None,
                },
            },
        }
    }
}

proof fn lemma_not_present(
    s: Seq<SegmentView>,
    probes: Seq<Option<(Seq<char>, Option<i64>)>>,
    k: int,
)
    requires
        0 <= k <= s.len(),
        present(s.take(k), probes) is None,
    ensures
        present(s, probes) is None,
    decreases s.len() - k,
{
    if k < s.len() {
        assert(s.take(k + 1).drop_last() =~= s.take(k));
        lemma_not_present(s, probes, k + 1);
    } else {
        assert(s.take(k) =~= s);
    }
}

/// The files that are there, on the timeline that begins with the first of them.
pub open spec fn normal_segments(
    s: Seq<SegmentView>,
    probes: Seq<Option<(Seq<char>, Option<i64>)>>,
) -> Option<Seq<SegmentView>> {
    match present(s, probes) {
        None => None,
        Some(kept) => if kept.len() == 0 {
            Some(kept)
        } else {
            all_placed(kept, earliest(kept))
        },
    }
}

/// The files that are there, on the timeline that begins with the first of them. None where the
/// calendar does not reach a moment.
pub fn normalize_segments_for_analysis(
    segments: &Vec<LiveRecordSegment>,
    probes: &Vec<Option<(String, Option<i64>)>>,
) -> (r: Option<Vec<LiveRecordSegment>>)
    requires
        probes@.len() == segments@.len(),
    ensures
        match r {
            Some(out) => well_placed(segment_views(out@)) && normal_segments(
                segment_views(segments@),
                probe_views(probes@),
            ) == Some(segment_views(out@)),
            None => normal_segments(segment_views(segments@), probe_views(probes@)) is None,
        },
{
    let ghost all = segment_views(segments@);
    let ghost ps = probe_views(probes@);
    let mut kept: Vec<LiveRecordSegment> = Vec::new();
    let mut i: usize = 0;
    assert(all.take(0) =~= Seq::<SegmentView>::empty());
    assert(segment_views(kept@) =~= Seq::<SegmentView>::empty());
    while i < segments.len()
        invariant
            i <= segments@.len(),
            probes@.len() == segments@.len(),
            all == segment_views(segments@),
            ps == probe_views(probes@),
            present(all.take(i as int), ps) == Some(segment_views(kept@)),
        decreases segments.len() - i,
    {
        assert(all.take(i + 1).drop_last() =~= all.take(i as int));
        assert(all.take(i + 1).last() == segments@[i as int]@);
        match &probes[i] {
            None => {},
            Some((path, duration)) => {
                let mut end = segments[i].end_time;
                if let Some(d) = duration {
                    match seconds_between(segments[i].start_time, end) {
                        Some(g) => {
                            if length_is_off(g, *d) {
                                match later_by(segments[i].start_time, *d) {
                                    Some(t) => {
                                        end = t;
                                    },
                                    None => {
                                        proof {
                                            lemma_not_present(all, ps, i + 1);
                                        }
                                        return None;
                                    },
                                }
                            }
                        },
                        None => {
                            proof {
                                lemma_not_present(all, ps, i + 1);
                            }
                            return None;
                        },
                    }
                }
                let ghost done = segment_views(kept@);
                let segment = LiveRecordSegment {
                    record_id: segments[i].record_id,
                    file_path: copy_text(path.as_str()),
                    start_time: segments[i].start_time,
                    end_time: end,
                    offset_start: segments[i].offset_start,
                    offset_end: segments[i].offset_end,
                };
                let ghost added = segment@;
                kept.push(segment);
                assert(segment_views(kept@) =~= done.push(added));
            },
        }
        i += 1;
    }
    assert(all.take(i as int) =~= all);
    assert(segment_views(kept@).len() == kept@.len());
    place_all(kept)
}

/// The date by which a recording is filed: that of its first file.
pub fn date_label(segments: &Vec<LiveRecordSegment>) -> (r: Option<String>)
    requires
        segments@.len() > 0,
    ensures
        opt_text(r) == utc_text(
            segments@[0].start_time.secs,
            segments@[0].start_time.nanos,
            "%Y-%m-%d"@,
        ),
{
    format_utc(segments[0].start_time.secs, segments[0].start_time.nanos, "%Y-%m-%d")
}

/// The names under which a recording may lie, by its name without an ending, in the order in
/// which they are tried.
pub fn record_file_names(stem: &str) -> (r: Vec<String>)
    ensures
        texts(r@) == seq![stem@ + ".mp4"@, stem@ + ".flv"@, stem@ + ".ts"@],
{
    let mut out: Vec<String> = Vec::new();
    out.push(concat2(stem, ".mp4"));
    out.push(concat2(stem, ".flv"));
    out.push(concat2(stem, ".ts"));
    assert(texts(out@) =~= seq![stem@ + ".mp4"@, stem@ + ".flv"@, stem@ + ".ts"@]);
    out
}

// ---------------------------------------------------------------------------
// Comments

/// The second of a comment on a timeline, from a line of the comment log: only comments and paid
/// messages count, and only those whose time can be told.
pub open spec fn comment_second(line: JsonView, base: TimePoint) -> Option<i64> {
    let cmd = text_or_empty(line, "cmd"@);
    if cmd != "DANMU_MSG"@ && cmd != "SUPER_CHAT_MESSAGE"@ {
        None
    } else {
        match text_at(line, "timestamp"@) {
            Some(text) => match rfc3339_moment(text) {
                Ok(m) => moment_gap(base.secs, base.nanos, m.0, m.1),
                Err(_) => None,
            },
            None => None,
        }
    }
}

/// The second of a comment on a timeline, from a line of the comment log.
pub fn comment_offset(line: &Json, base: TimePoint) -> (r: Option<i64>)
    ensures
        r == comment_second(line@, base),
{
    let cmd = line.get_text_or_empty("cmd");
    if !text_eq(cmd.as_str(), "DANMU_MSG") && !text_eq(cmd.as_str(), "SUPER_CHAT_MESSAGE") {
        return None;
    }
    match line.get_text("timestamp") {
        Some(text) => match parse_moment(text.as_str()) {
            Ok(m) => seconds_between(base, TimePoint { secs: m.secs, nanos: m.nanos }),
            Err(_) => None,
        },
        None => None,
    }
}

/// The first values of the `p` attributes on a line of a comment file.
pub open spec fn p_values(line: Seq<char>) -> Seq<Seq<char>>
    decreases line.len(),
    via p_values_shrink
{
    match find_from(line, "p=\""@, 0) {
        None => Seq::empty(),
        Some(at) => {
            let rest = line.skip(at + 3);
            let end = index_of(rest, '"');
            if end >= rest.len() {
                Seq::empty()
            } else {
                seq![first_of(rest.take(end))] + p_values(rest.skip(end + 1))
            }
        },
    }
}

/// What stands before the first comma.
pub open spec fn first_of(s: Seq<char>) -> Seq<char> {
    s.take(index_of(s, ','))
}

#[via_fn]
proof fn p_values_shrink(line: Seq<char>) {
    reveal_strlit("p=\"");
    crate::text::lemma_find_is_leftmost(line, "p=\""@, 0);
    if let Some(at) = find_from(line, "p=\""@, 0) {
        let rest = line.skip(at + 3);
        crate::text::lemma_index_of(rest, '"');
    }
}

/// The first values of the `p` attributes on a line of a comment file: the seconds of its
/// comments, as texts.
pub fn comment_times(line: &str) -> (r: Vec<String>)
    ensures
        texts(r@) == p_values(line@),
{
    let chars = to_chars(line);
    let mark = to_chars("p=\"");
    let mut out: Vec<String> = Vec::new();
    let mut rest: Vec<char> = chars;
    let mut going = true;
    assert(texts(out@) =~= Seq::<Seq<char>>::empty());
    assert(texts(out@) + p_values(rest@) =~= p_values(line@));
    proof {
        reveal_strlit("p=\"");
    }
    while going
        invariant
            mark@ == "p=\""@,
            mark@.len() == 3,
            going ==> texts(out@) + p_values(rest@) == p_values(line@),
            !going ==> texts(out@) == p_values(line@),
        decreases rest.len(), (if going {
            1int
        } else {
            0
        }),
    {
        match find(rest.as_slice(), mark.as_slice(), 0) {
            None => {
                going = false;
                assert(texts(out@) =~= p_values(line@));
            },
            Some(at) => {
                let len: usize = rest.len();
                assert(at + 3 <= len);
                let after_mark = piece(rest.as_slice(), at + 3, len);
                assert(after_mark@ =~= rest@.skip(at + 3));
                match position(after_mark.as_slice(), '"') {
                    None => {
                        going = false;
                        assert(texts(out@) =~= p_values(line@));
                    },
                    Some(end) => {
                        let value = piece(after_mark.as_slice(), 0, end);
                        assert(value@ =~= after_mark@.take(end as int));
                        let cut: usize = match position(value.as_slice(), ',') {
                            Some(c) => c,
                            None => value.len(),
                        };
                        let first = piece(value.as_slice(), 0, cut);
                        assert(first@ =~= first_of(value@));
                        let ghost done = texts(out@);
                        let ghost old_rest = rest@;
                        let text = to_text(first.as_slice());
                        let ghost added = text@;
                        out.push(text);
                        assert(texts(out@) =~= done.push(added));
                        let tail = piece(after_mark.as_slice(), end + 1, after_mark.len());
                        assert(tail@ =~= after_mark@.skip(end + 1));
                        rest = tail;
                        assert(p_values(old_rest) == seq![added] + p_values(rest@));
                        assert(texts(out@) + p_values(rest@) =~= done + p_values(old_rest));
                    },
                }
            },
        }
    }
    out
}

// ---------------------------------------------------------------------------
// Cutting

/// The position of the first file that covers a second.
pub open spec fn covering(s: Seq<SegmentView>, offset: i64) -> int
    decreases s.len(),
{
    if s.len() == 0 || s[0].offset_start <= offset < s[0].offset_end {
        0
    } else {
        1 + covering(s.drop_first(), offset)
    }
}

/// The first file that covers a second: its position, the second within the file, and how many
/// seconds of the file are left.
pub fn locate_segment_for_offset(segments: &Vec<LiveRecordSegment>, offset: i64) -> (r: Option<
    (usize, i64, i64),
>)
    requires
        well_placed(segment_views(segments@)),
    ensures
        match r {
            Some((i, start_in_file, max_available)) => i < segments@.len() && i == covering(
                segment_views(segments@),
                offset,
            ) && start_in_file == offset - segments@[i as int].offset_start && max_available
                == segments@[i as int].offset_end - offset && start_in_file >= 0 && max_available
                > 0,
            None => covering(segment_views(segments@), offset) == segments@.len(),
        },
{
    let ghost all = segment_views(segments@);
    let mut i: usize = 0;
    assert(all.skip(0) =~= all);
    while i < segments.len()
        invariant
            i <= segments@.len(),
            all == segment_views(segments@),
            well_placed(all),
            covering(all, offset) == i + covering(all.skip(i as int), offset),
        decreases segments.len() - i,
    {
        assert(all.skip(i as int)[0] == segments@[i as int]@);
        assert(all.skip(i as int).drop_first() =~= all.skip(i + 1));
        assert(all[i as int] == segments@[i as int]@);
        if offset >= segments[i].offset_start && offset < segments[i].offset_end {
            return Some(
                (i, offset - segments[i].offset_start, segments[i].offset_end - offset),
            );
        }
        i += 1;
    }
    assert(all.skip(i as int).len() == 0);
    None
}

/// A number with zeros before it, up to a length.
pub open spec fn padded(digits: Seq<char>, len: int) -> Seq<char>
    decreases len - digits.len(),
{
    if digits.len() >= len {
        digits
    } else {
        padded(seq!['0'] + digits, len)
    }
}

pub fn pad(digits: Vec<char>, len: usize) -> (r: Vec<char>)
    ensures
        r@ == padded(digits@, len as int),
    decreases len - digits@.len(),
{
    if digits.len() >= len {
        digits
    } else {
        let mut more: Vec<char> = Vec::new();
        more.push('0');
        extend(&mut more, digits.as_slice());
        assert(more@ =~= seq!['0'] + digits@);
        pad(more, len)
    }
}

/// Seconds as hours, minutes and seconds; a negative number counts as none.
pub open spec fn hms(seconds: i64) -> Seq<char> {
    let t = if seconds < 0 {
        0
    } else {
        seconds as int
    };
    padded(digits_of((t / 3600) as nat), 2) + "_"@ + padded(
        digits_of((t % 3600 / 60) as nat),
        2,
    ) + "_"@ + padded(digits_of((t % 60) as nat), 2)
}

/// Seconds as hours, minutes and seconds.
pub fn format_hms(seconds: i64) -> (r: Vec<char>)
    ensures
        r@ == hms(seconds),
{
    let total: u64 = if seconds < 0 {
        0
    } else {
        seconds as u64
    };
    let mut out = pad(u64_digits(total / 3600), 2);
    let m = pad(u64_digits(total % 3600 / 60), 2);
    let s = pad(u64_digits(total % 60), 2);
    extend_text(&mut out, "_");
    extend(&mut out, m.as_slice());
    extend_text(&mut out, "_");
    extend(&mut out, s.as_slice());
    out
}

/// The name of a clip: its number and the times of its ends.
pub open spec fn clip_name(index: int, start: i64, end: i64) -> Seq<char> {
    "clip_"@ + padded(digits_of(index as nat), 3) + "_"@ + hms(start) + "-"@ + hms(end)
}

/// The name of a clip, before characters that file names cannot have are replaced and the
/// extension is added.
pub fn build_clip_file_name(index: u64, start_offset: i64, end_offset: i64) -> (r: String)
    ensures
        r@ == clip_name(index as int, start_offset, end_offset),
{
    let number = pad(u64_digits(index), 3);
    let start = format_hms(start_offset);
    let end = format_hms(end_offset);
    let mut out = to_chars("clip_");
    extend(&mut out, number.as_slice());
    extend_text(&mut out, "_");
    extend(&mut out, start.as_slice());
    extend_text(&mut out, "-");
    extend(&mut out, end.as_slice());
    to_text(out.as_slice())
}

/// The arguments by which a clip is cut.
pub open spec fn clip_arg_texts(
    start: i64,
    duration: i64,
    source: Seq<char>,
    output: Seq<char>,
) -> Seq<Seq<char>> {
    seq![
        "-y"@,
        "-ss"@,
        decimal(start as int),
        "-t"@,
        decimal(duration as int),
        "-accurate_seek"@,
        "-i"@,
        source,
        "-c"@,
        "copy"@,
        "-avoid_negative_ts"@,
        "1"@,
        output,
    ]
}

/// The arguments by which a clip is cut.
pub fn clip_args(start: i64, duration: i64, source: &str, output: &str) -> (r: Vec<String>)
    ensures
        texts(r@) == clip_arg_texts(start, duration, source@, output@),
{
    let mut out: Vec<String> = Vec::new();
    out.push(copy_text("-y"));
    out.push(copy_text("-ss"));
    out.push(i64_text(start));
    out.push(copy_text("-t"));
    out.push(i64_text(duration));
    out.push(copy_text("-accurate_seek"));
    out.push(copy_text("-i"));
    out.push(copy_text(source));
    out.push(copy_text("-c"));
    out.push(copy_text("copy"));
    out.push(copy_text("-avoid_negative_ts"));
    out.push(copy_text("1"));
    out.push(copy_text(output));
    assert(texts(out@) =~= clip_arg_texts(start, duration, source@, output@));
    out
}

/// A clip to be cut: from which file, from which of its seconds, and what of the recording it
/// shows.
pub struct ClipCut {
    pub segment: usize,
    pub start_in_file: i64,
    pub start_offset: i64,
    pub end_offset: i64,
    pub duration: i64,
    pub peak_count: i64,
    pub raw_name: String,
}

/// A clip to be cut.
pub ghost struct CutView {
    pub segment: int,
    pub start_in_file: int,
    pub start_offset: i64,
    pub end_offset: int,
    pub duration: int,
    pub peak_count: i64,
    pub raw_name: Seq<char>,
}

impl View for ClipCut {
    type V = CutView;

    open spec fn view(&self) -> CutView {
        CutView {
            segment: self.segment as int,
            start_in_file: self.start_in_file as int,
            start_offset: self.start_offset,
            end_offset: self.end_offset as int,
            duration: self.duration as int,
            peak_count: self.peak_count,
            raw_name: self.raw_name@,
        }
    }
}

/// The views of a list of clips.
pub open spec fn cut_views(v: Seq<ClipCut>) -> Seq<CutView> {
    Seq::new(v.len(), |i: int| v[i]@)
}

/// The clip of a passage: from the file in which it begins, up to the end of the file at most,
/// and of at least a minute.
pub open spec fn cut_of(s: Seq<SegmentView>, p: ClipInterval, index: int) -> Option<CutView> {
    let at = covering(s, p.start_offset);
    if at >= s.len() {
        None
    } else {
        let end = if p.end_offset > s[at].offset_end {
            s[at].offset_end
        } else {
            p.end_offset
        };
        if end - p.start_offset < 60 {
            None
        } else {
            Some(
                CutView {
                    segment: at,
                    start_in_file: p.start_offset - s[at].offset_start,
                    start_offset: p.start_offset,
                    end_offset: end as int,
                    duration: end - p.start_offset,
                    peak_count: p.peak_count,
                    raw_name: clip_name(index, p.start_offset, end),
                },
            )
        }
    }
}

/// The clips of passages. Passages are numbered from one on, whether they give a clip or not.
pub open spec fn cuts_of(s: Seq<SegmentView>, passages: Seq<ClipInterval>) -> Seq<CutView>
    decreases passages.len(),
{
    if passages.len() == 0 {
        Seq::empty()
    } else {
        match cut_of(s, passages.last(), passages.len() as int) {
            Some(cut) => cuts_of(s, passages.drop_last()).push(cut),
            None => cuts_of(s, passages.drop_last()),
        }
    }
}

/// The clips of passages.
pub fn plan_cuts(segments: &Vec<LiveRecordSegment>, passages: &Vec<ClipInterval>) -> (r: Vec<
    ClipCut,
>)
    requires
        well_placed(segment_views(segments@)),
    ensures
        cut_views(r@) == cuts_of(segment_views(segments@), passages@),
{
    let ghost segs = segment_views(segments@);
    let mut out: Vec<ClipCut> = Vec::new();
    let mut i: usize = 0;
    assert(passages@.take(0) =~= Seq::<ClipInterval>::empty());
    assert(cut_views(out@) =~= Seq::<CutView>::empty());
    while i < passages.len()
        invariant
            i <= passages@.len(),
            segs == segment_views(segments@),
            well_placed(segs),
            cut_views(out@) == cuts_of(segs, passages@.take(i as int)),
        decreases passages.len() - i,
    {
        assert(passages@.take(i + 1).drop_last() =~= passages@.take(i as int));
        assert(passages@.take(i + 1).last() == passages@[i as int]);
        let p = passages[i];
        if let Some((at, start_in_file, max_available)) = locate_segment_for_offset(
            segments,
            p.start_offset,
        ) {
            assert(segs[at as int] == segments@[at as int]@);
            let max_end: i64 = p.start_offset + max_available;
            let end: i64 = if p.end_offset > max_end {
                max_end
            } else {
                p.end_offset
            };
            if end as i128 - p.start_offset as i128 >= 60 {
                let duration: i64 = end - p.start_offset;
                let ghost done = cut_views(out@);
                let cut = ClipCut {
                    segment: at,
                    start_in_file,
                    start_offset: p.start_offset,
                    end_offset: end,
                    duration,
                    peak_count: p.peak_count,
                    raw_name: build_clip_file_name(i as u64 + 1, p.start_offset, end),
                };
                let ghost added = cut@;
                out.push(cut);
                assert(cut_views(out@) =~= done.push(added));
            }
        }
        i += 1;
    }
    assert(passages@.take(i as int) =~= passages@);
    out
}

/// Every clip lies within the file that it is cut from, within its passage, and is at least a
/// minute long.
pub proof fn law_cuts_fit(s: Seq<SegmentView>, passages: Seq<ClipInterval>, k: int)
    requires
        0 <= k < cuts_of(s, passages).len(),
    ensures
        ({
            let cut = cuts_of(s, passages)[k];
            &&& 0 <= cut.segment < s.len()
            &&& cut.start_in_file >= 0
            &&& cut.duration >= 60
            &&& cut.start_offset + cut.duration == cut.end_offset
            &&& cut.start_in_file + cut.duration <= s[cut.segment].offset_end
                - s[cut.segment].offset_start
            &&& exists|i: int|
                0 <= i < passages.len() && cut.start_offset == (#[trigger] passages[i]).start_offset
                    && cut.end_offset <= passages[i].end_offset
        }),
    decreases passages.len(),
{
    let rest = passages.drop_last();
    let before_cuts = cuts_of(s, rest);
    let cuts = cuts_of(s, passages);
    let last = passages[passages.len() - 1];
    lemma_covering(s, last.start_offset);
    if k < before_cuts.len() {
        law_cuts_fit(s, rest, k);
        assert(cuts[k] == before_cuts[k]);
        let i = choose|i: int|
            0 <= i < rest.len() && cuts[k].start_offset == (#[trigger] rest[i]).start_offset
                && cuts[k].end_offset <= rest[i].end_offset;
        assert(passages[i] == rest[i]);
    } else {
        assert(cut_of(s, last, passages.len() as int) == Some(cuts[k]));
    }
}

proof fn lemma_covering(s: Seq<SegmentView>, offset: i64)
    ensures
        0 <= covering(s, offset) <= s.len(),
        covering(s, offset) < s.len() ==> s[covering(s, offset)].offset_start <= offset
            < s[covering(s, offset)].offset_end,
    decreases s.len(),
{
    if s.len() > 0 {
        lemma_covering(s.drop_first(), offset);
    }
}

/// The text under which the clips of some records are filed; none where no id is valid.
pub fn clip_key(record_ids: &[i64]) -> (r: Option<(Vec<i64>, String)>)
    ensures
        match r {
            Some((ids, key)) => ids@.len() > 0 && growing(ids@) && (forall|x: i64|
                ids@.contains(x) <==> x > 0 && record_ids@.contains(x)) && key@ == key_text(ids@),
            None => forall|x: i64| x > 0 ==> !record_ids@.contains(x),
        },
{
    let ids = normalize_record_ids(record_ids);
    if ids.len() == 0 {
        assert forall|x: i64| x > 0 implies !record_ids@.contains(x) by {
            assert(!ids@.contains(x));
        }
        return None;
    }
    let key = integers_json(ids.as_slice());
    Some((ids, key))
}

/// The text under which the clips of some records are filed.
pub open spec fn key_text(ids: Seq<i64>) -> Seq<char> {
    integers_text(ids)
}

/// The records under which clips were filed; none where the text cannot be read. What was filed is
/// read as it was.
pub fn read_record_ids(text: &str) -> (r: Vec<i64>)
    ensures
        r@ == (match ids_read(text@) {
            Some(ids) => ids,
            None => Seq::empty(),
        }),
        forall|ids: Seq<i64>| text@ == #[trigger] key_text(ids) ==> r@ == ids,
{
    let ghost empty = Seq::<i64>::empty();
    match parse_integers(text) {
        Some(ids) => {
            assert forall|other: Seq<i64>| text@ == #[trigger] key_text(other) implies ids@
                == other by {
                assert(key_text(other) == integers_text(other));
            }
            ids
        },
        None => {
            let none: Vec<i64> = Vec::new();
            assert(none@ =~= empty);
            assert forall|other: Seq<i64>| text@ == #[trigger] key_text(other) implies none@
                == other by {
                assert(key_text(other) == integers_text(other));
            }
            none
        },
    }
}

/// Clips are found again by their records, in whatever order and however often those are named:
/// the ids that are filed depend on which ids there are and on nothing else.
pub proof fn law_clips_found_again(first: Seq<i64>, second: Seq<i64>)
    requires
        growing(first),
        growing(second),
        forall|x: i64| first.contains(x) <==> second.contains(x),
    ensures
        first == second,
    decreases first.len(),
{
    if first.len() == 0 {
        if second.len() > 0 {
            assert(second.contains(second[0]));
            assert(first.contains(second[0]));
        }
        assert(first =~= second);
    } else {
        assert(first.contains(first.last()));
        assert(second.contains(first.last()));
        let a = first.drop_last();
        let b = second.drop_last();
        let at = choose|i: int| 0 <= i < second.len() && second[i] == first.last();
        assert(first.contains(second.last())) by {
            assert(second.contains(second.last()));
        }
        let back = choose|i: int| 0 <= i < first.len() && first[i] == second.last();
        assert(second[at] == first.last() && first[back] == second.last());
        assert(first.last() == second.last());
        assert forall|x: i64| a.contains(x) <==> b.contains(x) by {
            if a.contains(x) {
                let i = choose|i: int| 0 <= i < a.len() && a[i] == x;
                assert(first[i] == x && x < first.last());
                assert(second.contains(x));
                let j = choose|j: int| 0 <= j < second.len() && second[j] == x;
                assert(b[j] == x);
            }
            if b.contains(x) {
                let i = choose|i: int| 0 <= i < b.len() && b[i] == x;
                assert(second[i] == x && x < second.last());
                assert(first.contains(x));
                let j = choose|j: int| 0 <= j < first.len() && first[j] == x;
                assert(a[j] == x);
            }
        }
        law_clips_found_again(a, b);
        assert(first =~= a.push(first.last()));
        assert(second =~= b.push(second.last()));
    }
}

/// Clips of different records are never filed under the same text.
pub proof fn law_clip_keys_differ(first: Seq<i64>, second: Seq<i64>)
    requires
        first.len() > 0,
        second.len() > 0,
        key_text(first) == key_text(second),
    ensures
        first == second,
{
    lemma_key_body(first);
    lemma_key_body(second);
    lemma_key_parts(first);
    lemma_key_parts(second);
    assert(decimals(first) == decimals(second));
    assert(first.len() == decimals(first).len());
    assert forall|i: int| 0 <= i < first.len() implies first[i] == second[i] by {
        assert(decimals(first)[i] == decimals(second)[i]);
        crate::text::lemma_decimal_round_trip(first[i]);
        crate::text::lemma_decimal_round_trip(second[i]);
    }
    assert(first =~= second);
}

proof fn lemma_key_body(ids: Seq<i64>)
    ensures
        key_text(ids).subrange(1, key_text(ids).len() - 1) == join(decimals(ids), ","@),
{
    reveal_strlit("[");
    reveal_strlit("]");
    assert(key_text(ids).subrange(1, key_text(ids).len() - 1) =~= join(decimals(ids), ","@));
}

proof fn lemma_key_parts(ids: Seq<i64>)
    requires
        ids.len() > 0,
    ensures
        split_on(join(decimals(ids), ","@), ',') == decimals(ids),
{
    reveal_strlit(",");
    let parts = decimals(ids);
    assert forall|i: int, k: int| 0 <= i < parts.len() && 0 <= k < parts[i].len() implies
        #[trigger] parts[i][k] != ',' by {
        let n = ids[i] as int;
        let m = (if n < 0 {
            -n
        } else {
            n
        }) as nat;
        crate::text::lemma_digits_of(m);
        if n < 0 {
            assert(parts[i] == seq!['-'] + digits_of(m));
            if k > 0 {
                assert(parts[i][k] == digits_of(m)[k - 1]);
            }
        }
    }
    crate::text::lemma_join_split(parts, ',');
    assert(","@ =~= seq![',']);
}

// ---------------------------------------------------------------------------
// What the timeline amounts to

spec fn rising(s: Seq<TimedView>) -> bool {
    forall|i: int, j: int| 0 <= i <= j < s.len() ==> !before(s[j].start, s[i].start)
}

proof fn lemma_place_of(s: Seq<TimedView>, start: TimePoint)
    ensures
        0 <= begin_place(s, start) <= s.len(),
        forall|k: int| 0 <= k < begin_place(s, start) ==> !before(start, (#[trigger] s[k]).start),
        begin_place(s, start) < s.len() ==> before(start, s[begin_place(s, start)].start),
    decreases s.len(),
{
    if s.len() > 0 && !before(start, s[0].start) {
        let t = s.drop_first();
        lemma_place_of(t, start);
        assert forall|k: int| 0 <= k < begin_place(s, start) implies !before(
            start,
            (#[trigger] s[k]).start,
        ) by {
            if k > 0 {
                assert(s[k] == t[k - 1]);
            }
        }
    }
}

proof fn lemma_rows(rows: Seq<RecordRow>, k: int)
    requires
        timed_rows(rows) is Ok,
    ensures
        rising(timed_rows(rows)->Ok_0),
        timed_rows(rows)->Ok_0.len() == rows.len(),
        0 <= k < rows.len() ==> (timed(rows[k]) matches Ok(v) && timed_rows(rows)->Ok_0.contains(v)),
    decreases rows.len(),
{
    if rows.len() > 0 {
        let rest = rows.drop_last();
        lemma_rows(rest, k);
        let s = timed_rows(rest)->Ok_0;
        let v = timed(rows.last())->Ok_0;
        let p = begin_place(s, v.start);
        lemma_place_of(s, v.start);
        let t = s.insert(p, v);
        assert(t == timed_rows(rows)->Ok_0);
        assert forall|i: int, j: int| 0 <= i <= j < t.len() implies !before(
            t[j].start,
            t[i].start,
        ) by {
            if i < p && j > p {
                assert(!before(s[j - 1].start, s[i].start));
            } else if i > p {
                assert(!before(s[j - 1].start, s[i - 1].start));
            } else if j < p {
                assert(!before(s[j].start, s[i].start));
            } else if i == p && j > p {
                assert(!before(s[j - 1].start, s[p].start));
            }
        }
        assert(t[p] == v);
        if 0 <= k < rest.len() {
            assert(rest[k] == rows[k]);
            let w = timed(rows[k])->Ok_0;
            let m = choose|m: int| 0 <= m < s.len() && s[m] == w;
            if m < p {
                assert(t[m] == w);
            } else {
                assert(t[m + 1] == w);
            }
        }
    }
}

/// Records are read by when they began: none is lost, and each begins no earlier than those before
/// it.
pub proof fn law_records_in_order(rows: Seq<RecordRow>, i: int, j: int, k: int)
    requires
        timed_rows(rows) is Ok,
    ensures
        ({
            let out = timed_rows(rows)->Ok_0;
            &&& out.len() == rows.len()
            &&& 0 <= i <= j < out.len() ==> out[i].start.secs < out[j].start.secs || (
            out[i].start.secs == out[j].start.secs && out[i].start.nanos <= out[j].start.nanos)
            &&& 0 <= k < rows.len() ==> exists|n: int|
                0 <= n < out.len() && (#[trigger] out[n]).record_id == rows[k].record_id
                    && out[n].file_path == rows[k].file_path@ && (rfc3339_moment(
                    rows[k].start_time@,
                ) matches Ok(m) && out[n].start.secs == m.0 && out[n].start.nanos == m.1)
        }),
{
    lemma_rows(rows, k);
    let out = timed_rows(rows)->Ok_0;
    if 0 <= i <= j < out.len() {
        assert(!before(out[j].start, out[i].start));
    }
    if 0 <= k < rows.len() {
        let v = timed(rows[k])->Ok_0;
        let n = choose|n: int| 0 <= n < out.len() && out[n] == v;
        assert(out[n].record_id == rows[k].record_id);
    }
}

proof fn lemma_bare(records: Seq<TimedView>, n: int, duration: Option<i64>, i: int)
    requires
        0 <= n <= records.len(),
        bare_segments(records, n, duration) matches Some(Ok(_)),
    ensures
        ({
            let out = bare_segments(records, n, duration)->0->Ok_0;
            &&& out.len() == n
            &&& 0 <= i < n ==> {
                &&& out[i].record_id == records[i].record_id
                &&& out[i].file_path == records[i].file_path
                &&& out[i].start == records[i].start
                &&& record_end(records, i, duration) == Some(
                    Ok::<TimePoint, Seq<char>>(out[i].end),
                )
                &&& before(out[i].start, out[i].end)
            }
        }),
    decreases n,
{
    if n > 0 {
        lemma_bare(records, n - 1, duration, i);
    }
}

proof fn lemma_placed(s: Seq<SegmentView>, base: TimePoint, i: int)
    requires
        all_placed(s, base) is Some,
    ensures
        all_placed(s, base)->0.len() == s.len(),
        0 <= i < s.len() ==> placed(s[i], base) == Some(all_placed(s, base)->0[i]),
    decreases s.len(),
{
    if s.len() > 0 {
        lemma_placed(s.drop_last(), base, i);
        if i < s.len() - 1 && 0 <= i {
            assert(s.drop_last()[i] == s[i]);
        }
    }
}

proof fn lemma_earliest(s: Seq<SegmentView>, i: int)
    requires
        s.len() > 0,
    ensures
        0 <= i < s.len() ==> !before(s[i].start, earliest(s)),
        exists|k: int| 0 <= k < s.len() && (#[trigger] s[k]).start == earliest(s),
    decreases s.len(),
{
    if s.len() == 1 {
        assert(s[0].start == earliest(s));
    } else {
        let rest = s.drop_last();
        lemma_earliest(rest, i);
        let k = choose|k: int| 0 <= k < rest.len() && (#[trigger] rest[k]).start == earliest(rest);
        assert(s[k] == rest[k]);
        if 0 <= i < rest.len() {
            assert(s[i] == rest[i]);
        }
        assert(s[s.len() - 1] == s.last());
    }
}

/// Tells whether segments stand on a timeline that begins with the earliest of them: each begins and
/// ends so many whole seconds behind that one, and none ends before it begins.
pub open spec fn on_timeline(s: Seq<SegmentView>, zero: TimePoint) -> bool {
    &&& exists|k: int| 0 <= k < s.len() && (#[trigger] s[k]).start == zero
    &&& forall|i: int|
        0 <= i < s.len() ==> {
            &&& !((#[trigger] s[i]).start.secs < zero.secs || (s[i].start.secs == zero.secs
                && s[i].start.nanos < zero.nanos))
            &&& moment_gap(zero.secs, zero.nanos, s[i].start.secs, s[i].start.nanos) matches Some(a)
                && s[i].offset_start == (if a > 0 {
                a
            } else {
                0
            })
            &&& moment_gap(zero.secs, zero.nanos, s[i].end.secs, s[i].end.nanos) matches Some(b)
                && s[i].offset_end == (if b > s[i].offset_start {
                b
            } else {
                s[i].offset_start
            })
        }
}

proof fn lemma_timeline(s: Seq<SegmentView>)
    requires
        s.len() > 0,
        all_placed(s, earliest(s)) is Some,
    ensures
        on_timeline(all_placed(s, earliest(s))->0, earliest(s)),
{
    let zero = earliest(s);
    let out = all_placed(s, zero)->0;
    lemma_earliest(s, 0);
    lemma_placed(s, zero, 0);
    let k = choose|k: int| 0 <= k < s.len() && (#[trigger] s[k]).start == zero;
    lemma_placed(s, zero, k);
    assert(out[k].start == zero);
    assert forall|i: int| 0 <= i < out.len() implies !((#[trigger] out[i]).start.secs < zero.secs
        || (out[i].start.secs == zero.secs && out[i].start.nanos < zero.nanos)) && (moment_gap(
        zero.secs,
        zero.nanos,
        out[i].start.secs,
        out[i].start.nanos,
    ) matches Some(a) && out[i].offset_start == (if a > 0 {
        a
    } else {
        0
    })) && (moment_gap(zero.secs, zero.nanos, out[i].end.secs, out[i].end.nanos) matches Some(b)
        && out[i].offset_end == (if b > out[i].offset_start {
        b
    } else {
        out[i].offset_start
    })) by {
        lemma_placed(s, zero, i);
        lemma_earliest(s, i);
    }
}

/// The files of a recording lie on one timeline, each under its own record: it lasts until its end,
/// else until the next one begins, else as long as it plays.
pub proof fn law_files_on_one_timeline(records: Seq<TimedView>, duration: Option<i64>, i: int)
    requires
        records.len() > 0,
        segments_of(records, duration) matches Some(Ok(_)),
    ensures
        ({
            let out = segments_of(records, duration)->0->Ok_0;
            &&& out.len() == records.len()
            &&& exists|zero: TimePoint| #[trigger] on_timeline(out, zero)
            &&& 0 <= i < records.len() ==> {
                &&& out[i].record_id == records[i].record_id
                &&& out[i].file_path == records[i].file_path
                &&& out[i].start == records[i].start
                &&& records[i].end is Some ==> out[i].end == records[i].end->0
                &&& records[i].end is None && i + 1 < records.len() ==> out[i].end == records[i
                    + 1].start
                &&& records[i].end is None && i + 1 == records.len() ==> (duration matches Some(d)
                    && moment_after(records[i].start.secs, records[i].start.nanos, d) == Some(
                    (out[i].end.secs, out[i].end.nanos),
                ))
            }
        }),
{
    let n = records.len() as int;
    lemma_bare(records, n, duration, i);
    let bare = bare_segments(records, n, duration)->0->Ok_0;
    lemma_timeline(bare);
    lemma_placed(bare, earliest(bare), i);
}

proof fn lemma_present(
    s: Seq<SegmentView>,
    probes: Seq<Option<(Seq<char>, Option<i64>)>>,
    k: int,
)
    requires
        present(s, probes) is Some,
        s.len() <= probes.len(),
    ensures
        present(s, probes)->0.len() <= s.len(),
        0 <= k < s.len() ==> match probes[k] {
            Some((path, duration)) => exists|n: int|
                0 <= n < present(s, probes)->0.len() && adjusted(
                    SegmentView { file_path: path, ..s[k] },
                    duration,
                ) == Some(#[trigger] present(s, probes)->0[n]),
            None => true,
        },
        forall|n: int|
            0 <= n < present(s, probes)->0.len() ==> exists|m: int|
                0 <= m < s.len() && probes[m] is Some && (#[trigger] s[m]).record_id == (
                #[trigger] present(s, probes)->0[n]).record_id && s[m].start == present(
                    s,
                    probes,
                )->0[n].start,
    decreases s.len(),
{
    if s.len() > 0 {
        let rest = s.drop_last();
        lemma_present(rest, probes, k);
        let t = present(rest, probes)->0;
        let u = present(s, probes)->0;
        let last = s.len() - 1;
        if 0 <= k < rest.len() {
            assert(rest[k] == s[k]);
            if let Some((path, duration)) = probes[k] {
                let n = choose|n: int|
                    0 <= n < t.len() && adjusted(
                        SegmentView { file_path: path, ..s[k] },
                        duration,
                    ) == Some(#[trigger] t[n]);
                assert(u[n] == t[n]);
            }
        } else if k == last {
            if let Some((path, duration)) = probes[k] {
                assert(u[t.len() as int] == adjusted(
                    SegmentView { file_path: path, ..s[k] },
                    duration,
                )->0);
            }
        }
        assert forall|n: int| 0 <= n < u.len() implies exists|m: int|
            0 <= m < s.len() && probes[m] is Some && (#[trigger] s[m]).record_id == (
            #[trigger] u[n]).record_id && s[m].start == u[n].start by {
            if n < t.len() {
                assert(u[n] == t[n]);
                let m = choose|m: int|
                    0 <= m < rest.len() && probes[m] is Some && (#[trigger] rest[m]).record_id
                        == t[n].record_id && rest[m].start == t[n].start;
                assert(s[m] == rest[m]);
            } else {
                assert(s[last].record_id == u[n].record_id);
            }
        }
    }
}

/// Files that are missing are left out, and no others: every file that was found is on the
/// timeline, at the path where it was found, with the end that its length gives where its record
/// tells no length or one that is off by more than half a minute.
pub proof fn law_missing_files_left_out(
    s: Seq<SegmentView>,
    probes: Seq<Option<(Seq<char>, Option<i64>)>>,
    k: int,
)
    requires
        normal_segments(s, probes) is Some,
        s.len() == probes.len(),
        0 <= k < s.len(),
        probes[k] is Some,
    ensures
        ({
            let out = normal_segments(s, probes)->0;
            let probe = probes[k]->0;
            let path = probe.0;
            let told = moment_gap(
                s[k].start.secs,
                s[k].start.nanos,
                s[k].end.secs,
                s[k].end.nanos,
            );
            &&& exists|zero: TimePoint| #[trigger] on_timeline(out, zero)
            &&& exists|n: int|
                0 <= n < out.len() && (#[trigger] out[n]).record_id == s[k].record_id
                    && out[n].file_path == path && out[n].start == s[k].start && (
                match probe.1 {
                    None => out[n].end == s[k].end,
                    Some(d) => told matches Some(g) && (if g <= 0 || d - g > 30 || g - d > 30 {
                        moment_after(s[k].start.secs, s[k].start.nanos, d) == Some(
                            (out[n].end.secs, out[n].end.nanos),
                        )
                    } else {
                        out[n].end == s[k].end
                    }),
                })
        }),
{
    lemma_present(s, probes, k);
    let kept = present(s, probes)->0;
    let (path, duration) = probes[k]->0;
    let n = choose|n: int|
        0 <= n < kept.len() && adjusted(SegmentView { file_path: path, ..s[k] }, duration) == Some(
            #[trigger] kept[n],
        );
    lemma_timeline(kept);
    lemma_placed(kept, earliest(kept), n);
    let out = normal_segments(s, probes)->0;
    assert(out[n].record_id == s[k].record_id);
}

/// A comment is placed by when it was made, in seconds from the beginning; only comments and paid
/// messages are.
pub proof fn law_comments_by_time(line: JsonView, base: TimePoint)
    ensures
        text_or_empty(line, "cmd"@) != "DANMU_MSG"@ && text_or_empty(line, "cmd"@)
            != "SUPER_CHAT_MESSAGE"@ ==> comment_second(line, base) is None,
        text_or_empty(line, "cmd"@) == "DANMU_MSG"@ || text_or_empty(line, "cmd"@)
            == "SUPER_CHAT_MESSAGE"@ ==> (match text_at(line, "timestamp"@) {
            Some(text) => match rfc3339_moment(text) {
                Ok(m) => comment_second(line, base) == moment_gap(
                    base.secs,
                    base.nanos,
                    m.0,
                    m.1,
                ),
                Err(_) => comment_second(line, base) is None,
            },
            None => comment_second(line, base) is None,
        }),
{
}

/// The file of a second is the first that covers it.
pub proof fn law_first_covering_file(s: Seq<SegmentView>, offset: i64, k: int)
    ensures
        0 <= covering(s, offset) <= s.len(),
        covering(s, offset) < s.len() ==> s[covering(s, offset)].offset_start <= offset
            < s[covering(s, offset)].offset_end,
        0 <= k < covering(s, offset) ==> !(s[k].offset_start <= offset < s[k].offset_end),
    decreases s.len(),
{
    if s.len() > 0 && !(s[0].offset_start <= offset < s[0].offset_end) {
        law_first_covering_file(s.drop_first(), offset, k - 1);
        if 0 < k < s.len() {
            assert(s.drop_first()[k - 1] == s[k]);
        }
    }
}

proof fn lemma_cuts_hold(s: Seq<SegmentView>, passages: Seq<ClipInterval>, i: int)
    requires
        0 <= i < passages.len(),
        cut_of(s, passages[i], i + 1) is Some,
    ensures
        cuts_of(s, passages).contains(cut_of(s, passages[i], i + 1)->0),
    decreases passages.len(),
{
    let rest = passages.drop_last();
    let all = cuts_of(s, passages);
    if i < rest.len() {
        assert(rest[i] == passages[i]);
        lemma_cuts_hold(s, rest, i);
        let c = cut_of(s, passages[i], i + 1)->0;
        let t = cuts_of(s, rest);
        let n = choose|n: int| 0 <= n < t.len() && t[n] == c;
        assert(all[n] == c);
    } else {
        assert(all.last() == cut_of(s, passages[i], i + 1)->0);
        assert(all[all.len() - 1] == all.last());
    }
}

/// No passage goes without a clip that its file has a minute of: the clip begins with the passage,
/// at the same place of its file, and goes on to the end of the passage or of the file.
pub proof fn law_every_passage_is_cut(
    s: Seq<SegmentView>,
    passages: Seq<ClipInterval>,
    i: int,
    n: int,
)
    requires
        0 <= i < passages.len(),
        0 <= n < s.len(),
        s[n].offset_start <= passages[i].start_offset < s[n].offset_end,
        forall|m: int|
            0 <= m < n ==> !((#[trigger] s[m]).offset_start <= passages[i].start_offset
                < s[m].offset_end),
        passages[i].end_offset - passages[i].start_offset >= 60,
        s[n].offset_end - passages[i].start_offset >= 60,
    ensures
        exists|k: int|
            0 <= k < cuts_of(s, passages).len() && {
                let cut = #[trigger] cuts_of(s, passages)[k];
                &&& cut.segment == n
                &&& cut.start_offset == passages[i].start_offset
                &&& cut.start_in_file == passages[i].start_offset - s[n].offset_start
                &&& cut.end_offset == (if passages[i].end_offset < s[n].offset_end {
                    passages[i].end_offset as int
                } else {
                    s[n].offset_end as int
                })
                &&& cut.peak_count == passages[i].peak_count
            },
{
    let at = covering(s, passages[i].start_offset);
    law_first_covering_file(s, passages[i].start_offset, n);
    if at < n {
        assert(s[at].offset_start <= passages[i].start_offset < s[at].offset_end);
    }
    assert(at == n);
    lemma_cuts_hold(s, passages, i);
    let c = cut_of(s, passages[i], i + 1)->0;
    let k = choose|k: int| 0 <= k < cuts_of(s, passages).len() && cuts_of(s, passages)[k] == c;
    assert(cuts_of(s, passages)[k].segment == n);
}

/// A clip is cut from its start in the file for its length, and nothing is encoded.
pub proof fn law_clip_is_cut_from_its_start(
    start: i64,
    duration: i64,
    source: Seq<char>,
    output: Seq<char>,
)
    ensures
        ({
            let args = clip_arg_texts(start, duration, source, output);
            &&& args[1] == "-ss"@ && args[2] == decimal(start as int)
            &&& args[3] == "-t"@ && args[4] == decimal(duration as int)
            &&& args[6] == "-i"@ && args[7] == source
            &&& args[8] == "-c"@ && args[9] == "copy"@
            &&& args.last() == output
        }),
{
}

proof fn lemma_pad(digits: Seq<char>, len: int)
    requires
        digits.len() > 0,
        crate::text::all_digits(digits),
    ensures
        padded(digits, len).len() >= len,
        crate::text::all_digits(padded(digits, len)),
        crate::text::digits_value(padded(digits, len)) == crate::text::digits_value(digits),
    decreases len - digits.len(),
{
    if digits.len() < len {
        let more = seq!['0'] + digits;
        assert forall|i: int| 0 <= i < more.len() implies crate::text::is_digit(
            #[trigger] more[i],
        ) by {
            if i > 0 {
                assert(crate::text::is_digit(digits[i - 1]));
            }
        }
        lemma_zero_in_front(digits);
        lemma_pad(more, len);
    }
}

proof fn lemma_zero_in_front(digits: Seq<char>)
    ensures
        crate::text::digits_value(seq!['0'] + digits) == crate::text::digits_value(digits),
    decreases digits.len(),
{
    let more = seq!['0'] + digits;
    if digits.len() == 0 {
        assert(more.drop_last() =~= Seq::<char>::empty());
        assert(crate::text::digits_value(more.drop_last()) == 0);
    } else {
        lemma_zero_in_front(digits.drop_last());
        assert(more.drop_last() =~= seq!['0'] + digits.drop_last());
        assert(more.last() == digits.last());
    }
}

/// A second is written as hours, minutes and seconds that amount to it, with two digits at least.
pub proof fn law_clock_text_amounts(seconds: i64)
    requires
        seconds >= 0,
    ensures
        ({
            let parts = split_on(hms(seconds), '_');
            let h = crate::text::digits_value(parts[0]);
            let m = crate::text::digits_value(parts[1]);
            let s = crate::text::digits_value(parts[2]);
            &&& parts.len() == 3
            &&& parts[0].len() >= 2 && parts[1].len() >= 2 && parts[2].len() >= 2
            &&& h * 3600 + m * 60 + s == seconds
            &&& 0 <= m < 60 && 0 <= s < 60
        }),
{
    let t = seconds as int;
    let h = padded(digits_of((t / 3600) as nat), 2);
    let m = padded(digits_of((t % 3600 / 60) as nat), 2);
    let s = padded(digits_of((t % 60) as nat), 2);
    crate::text::lemma_digits_of((t / 3600) as nat);
    crate::text::lemma_digits_of((t % 3600 / 60) as nat);
    crate::text::lemma_digits_of((t % 60) as nat);
    lemma_pad(digits_of((t / 3600) as nat), 2);
    lemma_pad(digits_of((t % 3600 / 60) as nat), 2);
    lemma_pad(digits_of((t % 60) as nat), 2);
    reveal_strlit("_");
    assert("_"@ =~= seq!['_']);
    let parts = seq![h, m, s];
    assert forall|i: int, k: int|
        0 <= i < parts.len() && 0 <= k < parts[i].len() implies #[trigger] parts[i][k] != '_' by {
        assert(crate::text::is_digit(parts[i][k]));
    }
    crate::text::lemma_join_split(parts, '_');
    assert(parts.drop_last() =~= seq![h, m]);
    assert(seq![h, m].drop_last() =~= seq![h]);
    assert(join(seq![h], seq!['_']) =~= h);
    assert(join(seq![h, m], seq!['_']) =~= h + seq!['_'] + m);
    assert(join(parts, seq!['_']) =~= h + seq!['_'] + m + seq!['_'] + s);
    assert(hms(seconds) =~= join(parts, seq!['_']));
    assert(t / 3600 * 3600 + t % 3600 / 60 * 60 + t % 60 == t) by (nonlinear_arith)
        requires
            t >= 0,
    ;
}

/// The times of comments in a line are the first values of its marks, in their order: what stands
/// before the first comma.
pub proof fn law_comment_times_in_order(
    head: Seq<char>,
    time: Seq<char>,
    more: Seq<char>,
    tail: Seq<char>,
)
    requires
        forall|i: int| 0 <= i <= head.len() ==> !crate::text::occurs_at(
            head + "p=\""@ + time + seq![','] + more + seq!['"'] + tail,
            "p=\""@,
            i,
        ) || i == head.len(),
        forall|i: int| 0 <= i < time.len() ==> time[i] != ',' && time[i] != '"',
        forall|i: int| 0 <= i < more.len() ==> more[i] != '"',
    ensures
        p_values(head + "p=\""@ + time + seq![','] + more + seq!['"'] + tail) == seq![time]
            + p_values(tail),
{
    let line = head + "p=\""@ + time + seq![','] + more + seq!['"'] + tail;
    reveal_strlit("p=\"");
    let mark = "p=\""@;
    assert(line.subrange(head.len() as int, head.len() as int + 3) =~= mark);
    assert(crate::text::occurs_at(line, mark, head.len() as int));
    crate::text::lemma_find_is_leftmost(line, mark, 0);
    let at = find_from(line, mark, 0)->0;
    assert(at == head.len()) by {
        if at < head.len() {
            assert(!crate::text::occurs_at(line, mark, at));
        }
    }
    let rest = line.skip(at + 3);
    let inner = time + seq![','] + more;
    assert(rest =~= inner + seq!['"'] + tail);
    crate::text::lemma_index_of(rest, '"');
    let end = index_of(rest, '"');
    assert(rest[inner.len() as int] == '"');
    assert(end == inner.len()) by {
        if end < inner.len() {
            if end < time.len() {
                assert(rest[end] == time[end]);
            } else if end > time.len() {
                assert(rest[end] == more[end - time.len() - 1]);
            }
        }
    }
    assert(rest.take(end) =~= inner);
    assert(rest.skip(end + 1) =~= tail);
    crate::text::lemma_index_of(inner, ',');
    let c = index_of(inner, ',');
    assert(inner[time.len() as int] == ',');
    assert(c == time.len()) by {
        if c < time.len() {
            assert(inner[c] == time[c]);
        }
    }
    assert(inner.take(c) =~= time);
}

/// A clip is named by its number, of three digits, and by the times of its two ends.
pub proof fn law_clip_named_by_its_ends(index: int, start: i64, end: i64)
    ensures
        clip_name(index, start, end) == "clip_"@ + padded(digits_of(index as nat), 3) + "_"@ + hms(
            start,
        ) + "-"@ + hms(end),
        start >= 0 ==> hms(start) == padded(digits_of((start as int / 3600) as nat), 2) + "_"@
            + padded(digits_of((start as int / 60 % 60) as nat), 2) + "_"@ + padded(
            digits_of((start as int % 60) as nat),
            2,
        ),
        start < 0 ==> hms(start) == hms(0),
{
    if start >= 0 {
        let t = start as int;
        assert(t % 3600 / 60 == t / 60 % 60) by (nonlinear_arith)
            requires
                t >= 0,
        ;
    }
}

/// A record has the times that its texts tell; an end that is blank or missing is none, and a time
/// that cannot be read is an error.
pub proof fn law_record_times_read(row: RecordRow)
    ensures
        read_time(row.start_time@) is Err ==> timed(row) is Err,
        read_time(row.start_time@) is Ok && (row.end_time is None || trim(
            row.end_time->0@,
        ).len() == 0) ==> timed(row) is Ok && timed(row)->Ok_0.end is None,
        read_time(row.start_time@) is Ok && row.end_time is Some && trim(row.end_time->0@).len() > 0
            && read_time(row.end_time->0@) is Ok ==> timed(row) is Ok && timed(row)->Ok_0.end
            == Some(read_time(row.end_time->0@)->Ok_0),
        read_time(row.start_time@) is Ok && row.end_time is Some && trim(row.end_time->0@).len() > 0
            && read_time(row.end_time->0@) is Err ==> timed(row) is Err,
        timed(row) is Ok ==> timed(row)->Ok_0.start == read_time(row.start_time@)->Ok_0
            && timed(row)->Ok_0.record_id == row.record_id && timed(row)->Ok_0.file_path
            == row.file_path@,
{
}

} // verus!
