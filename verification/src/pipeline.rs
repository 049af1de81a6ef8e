//! The rules that every tag of a live stream passes before it is written: timestamp repair,
//! requests for a new file, and the detection of a stream that no longer moves.

use crate::flv::{
    annexb_signature, audio_header, contains_annexb_signature, is_audio_header_tag,
    is_video_header_tag, is_video_keyframe, keyframe, normalize_header_tag, normalized_header,
    opt_bytes, parse_flv_timestamp, timestamp_of, video_header, FlvTag, SCRIPT_TAG, VIDEO_TAG,
};
use crate::text::{decimal, extend, to_chars, to_text, u64_digits};
use crate::timestamps::{TimestampFixer, TimestampJumpInfo, TAG_REACH, TIMELINE_LIMIT};
use std::collections::hash_map::DefaultHasher;
use std::hash::Hasher;
use vstd::prelude::*;
use vstd::std_specs::hash::DefaultHasherAdditionalSpecFns;

verus! {

/// So many tags without progress count as a dead stream.
pub const INVALID_STREAM_TAG_LIMIT: usize = 300;

/// A stream is dead only if nothing moved for so many seconds.
pub const INVALID_STREAM_STALL_SECS: u64 = 10;

/// Nanoseconds in a second.
pub const NANOS_PER_SEC: u64 = 1_000_000_000;

/// Which rules apply.
#[derive(Clone, Copy)]
pub struct LivePipelineSettings {
    pub split_on_script_tag: bool,
    pub disable_split_on_h264_annexb: bool,
}

/// What is known of the framing of the video stream.
#[derive(Clone, Copy, PartialEq, Eq, Structural)]
pub enum PipelineAnnexBState {
    Unknown,
    Pending,
    IsAnnexB,
}

/// Why a new file is asked for.
#[derive(Clone, Copy, PartialEq, Eq, Structural)]
pub enum SplitReason {
    ScriptTag,
    AudioHeaderChanged,
    VideoHeaderChanged,
}

impl SplitReason {
    /// The name of the reason.
    pub open spec fn spec_name(self) -> Seq<char> {
        match self {
            SplitReason::ScriptTag => "script_tag"@,
            SplitReason::AudioHeaderChanged => "audio_header_changed"@,
            SplitReason::VideoHeaderChanged => "video_header_changed"@,
        }
    }

    /// The name of the reason.
    pub fn name(self) -> (r: String)
        ensures
            r@ == self.spec_name(),
    {
        match self {
            SplitReason::ScriptTag => "script_tag".to_owned(),
            SplitReason::AudioHeaderChanged => "audio_header_changed".to_owned(),
            SplitReason::VideoHeaderChanged => "video_header_changed".to_owned(),
        }
    }
}

/// What the rules decided for one tag.
pub struct LivePipelineDecision {
    pub request_split: Option<SplitReason>,
    pub disconnect_reason: Option<String>,
    pub jump: Option<TimestampJumpInfo>,
    pub progressed: bool,
}

/// The message of a stream that repeats itself.
pub open spec fn duplicate_message() -> Seq<char> {
    "连续重复数据块，触发断流重连"@
}

/// The message of a stream whose timestamps stand still.
pub open spec fn stagnant_message(timestamp: int) -> Seq<char> {
    "时间戳停滞，触发断流重连 timestamp="@ + decimal(timestamp)
}

/// The hash by which repeated tags are told.
pub open spec fn tag_hash(bytes: Seq<u8>) -> u64 {
    DefaultHasher::spec_finish(seq![bytes])
}

/// The hash by which repeated tags are told.
pub fn calculate_tag_hash(data: &[u8]) -> (r: u64)
    ensures
        r == tag_hash(data@),
{
    let mut hasher = DefaultHasher::new();
    hasher.write(data);
    assert(hasher@ =~= seq![data@]);
    hasher.finish()
}

/// Whether so many nanoseconds make up the time after which a stream counts as dead.
pub open spec fn stalled(last_progress_at: u64, now: u64) -> bool {
    now - last_progress_at >= INVALID_STREAM_STALL_SECS * NANOS_PER_SEC
}

fn is_stalled(last_progress_at: u64, now: u64) -> (r: bool)
    ensures
        r == stalled(last_progress_at, now),
{
    now.saturating_sub(last_progress_at) >= INVALID_STREAM_STALL_SECS * NANOS_PER_SEC
}

/// The state of the rules.
pub struct LiveFlvPipeline {
    pub settings: LivePipelineSettings,
    pub timestamp_fixer: TimestampFixer,
    pub metadata_received: bool,
    pub annexb_state: PipelineAnnexBState,
    pub last_audio_header: Option<Vec<u8>>,
    pub last_video_header: Option<Vec<u8>>,
    pub last_chunk_hash: Option<u64>,
    pub duplicate_chunk_count: usize,
    pub last_progress_timestamp: Option<u32>,
    pub stagnant_count: usize,
    pub last_progress_at: u64,
}

/// Tells whether a tag carries a stream configuration or script data.
pub open spec fn header_tag(tag_type: u8, data: Seq<u8>) -> bool {
    tag_type == SCRIPT_TAG || audio_header(data) || video_header(data)
}

/// A stream configuration changed: one was known and the new one differs.
pub open spec fn header_changed(known: Option<Seq<u8>>, bytes: Seq<u8>) -> bool {
    known is Some && known->0 != normalized_header(bytes)
}

impl LiveFlvPipeline {
    /// The timestamp repair is well formed.
    pub open spec fn wf(&self) -> bool {
        self.timestamp_fixer.wf()
    }

    /// The counters and the time line have room for another tag.
    pub open spec fn room(&self) -> bool {
        &&& self.timestamp_fixer.within(TIMELINE_LIMIT as int)
        &&& self.duplicate_chunk_count < usize::MAX
        &&& self.stagnant_count < usize::MAX
    }

    /// What is known of the framing once a tag has passed: a key frame with parameter sets
    /// behind start codes confirms it.
    pub open spec fn annexb_after(&self, tag_type: u8, data: Seq<u8>) -> PipelineAnnexBState {
        if self.settings.disable_split_on_h264_annexb && keyframe(tag_type, data) && data.len() >= 6
            && annexb_signature(data) {
            match self.annexb_state {
                PipelineAnnexBState::Unknown => PipelineAnnexBState::Pending,
                _ => PipelineAnnexBState::IsAnnexB,
            }
        } else {
            self.annexb_state
        }
    }

    /// The reason for which a new file is asked for. `data` is the payload before and
    /// `bytes`, `new_data` the tag after the repair of its timestamp.
    pub open spec fn split_for(
        &self,
        tag_type: u8,
        data: Seq<u8>,
        bytes: Seq<u8>,
        new_data: Seq<u8>,
    ) -> Option<SplitReason> {
        let suppressed = self.settings.disable_split_on_h264_annexb && self.annexb_after(
            tag_type,
            data,
        ) == PipelineAnnexBState::IsAnnexB;
        if tag_type == SCRIPT_TAG && self.metadata_received && self.settings.split_on_script_tag {
            Some(SplitReason::ScriptTag)
        } else if audio_header(new_data) && header_changed(opt_bytes(self.last_audio_header), bytes)
            && !suppressed {
            Some(SplitReason::AudioHeaderChanged)
        } else if video_header(new_data) && header_changed(opt_bytes(self.last_video_header), bytes)
            && !suppressed {
            Some(SplitReason::VideoHeaderChanged)
        } else {
            None
        }
    }

    /// How often in a row the same tag was seen, once this one has passed.
    pub open spec fn duplicates_after(&self, bytes: Seq<u8>) -> int {
        if self.last_chunk_hash == Some(tag_hash(bytes)) {
            self.duplicate_chunk_count + 1
        } else {
            0
        }
    }

    /// Tells whether a timestamp moves the stream forward.
    pub open spec fn advances(&self, timestamp: int) -> bool {
        match self.last_progress_timestamp {
            Some(prev) => timestamp > prev,
            None => true,
        }
    }

    /// How many tags in a row did not move the stream, once this one has passed.
    pub open spec fn stagnant_after(&self, timestamp: int) -> int {
        if self.advances(timestamp) {
            0
        } else {
            self.stagnant_count + 1
        }
    }

    /// The reason to give the connection up: the same tag over and over, or timestamps that
    /// stand still, for long enough. `bytes` is the tag after the repair of its timestamp.
    pub open spec fn disconnect_for(&self, bytes: Seq<u8>, now: u64) -> Option<Seq<char>> {
        let timestamp = timestamp_of(bytes);
        if self.duplicates_after(bytes) >= INVALID_STREAM_TAG_LIMIT && stalled(
            self.last_progress_at,
            now,
        ) {
            Some(duplicate_message())
        } else if self.stagnant_after(timestamp) >= INVALID_STREAM_TAG_LIMIT && stalled(
            self.last_progress_at,
            now,
        ) {
            Some(stagnant_message(timestamp))
        } else {
            None
        }
    }

    /// The state at the beginning of a session: nothing has been seen.
    pub open spec fn begins(
        &self,
        settings: LivePipelineSettings,
        enable_timestamp_fix: bool,
        apply_timestamp_fix: bool,
        now: u64,
    ) -> bool {
        *self == LiveFlvPipeline {
            settings,
            timestamp_fixer: TimestampFixer::initial(enable_timestamp_fix, apply_timestamp_fix),
            metadata_received: false,
            annexb_state: PipelineAnnexBState::Unknown,
            last_audio_header: None,
            last_video_header: None,
            last_chunk_hash: None,
            duplicate_chunk_count: 0,
            last_progress_timestamp: None,
            stagnant_count: 0,
            last_progress_at: now,
        }
    }

    /// The state behind `before` once a tag has passed. `tag` is the tag as it came in and
    /// `fixed` the same with its timestamp repaired.
    pub open spec fn follows(
        &self,
        before: LiveFlvPipeline,
        tag: FlvTag,
        fixed: FlvTag,
        now: u64,
    ) -> bool {
        let timestamp = timestamp_of(fixed.bytes@);
        &&& self.settings == before.settings
        &&& self.timestamp_fixer == before.timestamp_fixer.after(
            tag.tag_type,
            timestamp_of(tag.bytes@),
            header_tag(tag.tag_type, tag.payload()),
        )
        &&& self.annexb_state == before.annexb_after(tag.tag_type, tag.payload())
        &&& self.metadata_received == (before.metadata_received || tag.tag_type == SCRIPT_TAG)
        &&& opt_bytes(self.last_audio_header) == (if audio_header(fixed.payload()) {
            Some(normalized_header(fixed.bytes@))
        } else {
            opt_bytes(before.last_audio_header)
        })
        &&& opt_bytes(self.last_video_header) == (if video_header(fixed.payload()) {
            Some(normalized_header(fixed.bytes@))
        } else {
            opt_bytes(before.last_video_header)
        })
        &&& self.last_chunk_hash == Some(tag_hash(fixed.bytes@))
        &&& self.duplicate_chunk_count == before.duplicates_after(fixed.bytes@)
        &&& self.last_progress_timestamp == (if before.advances(timestamp) {
            Some(timestamp as u32)
        } else {
            before.last_progress_timestamp
        })
        &&& self.last_progress_at == (if before.advances(timestamp) {
            now
        } else {
            before.last_progress_at
        })
        &&& self.stagnant_count == before.stagnant_after(timestamp)
    }

    /// The rules at the beginning of a session, at the given reading of a monotonic clock in
    /// nanoseconds.
    pub fn new(
        settings: LivePipelineSettings,
        enable_timestamp_fix: bool,
        apply_timestamp_fix: bool,
        now: u64,
    ) -> (r: Self)
        ensures
            r.wf(),
            r.room(),
            r.begins(settings, enable_timestamp_fix, apply_timestamp_fix, now),
    {
        LiveFlvPipeline {
            settings,
            timestamp_fixer: TimestampFixer::new(enable_timestamp_fix, apply_timestamp_fix),
            metadata_received: false,
            annexb_state: PipelineAnnexBState::Unknown,
            last_audio_header: None,
            last_video_header: None,
            last_chunk_hash: None,
            duplicate_chunk_count: 0,
            last_progress_timestamp: None,
            stagnant_count: 0,
            last_progress_at: now,
        }
    }

    /// Tells whether the counters and the time line have room for another tag.
    pub fn has_room(&self) -> (r: bool)
        ensures
            r == self.room(),
    {
        self.timestamp_fixer.has_room() && self.duplicate_chunk_count < usize::MAX
            && self.stagnant_count < usize::MAX
    }

    /// A new file was opened: the progress is measured anew, the time line goes on.
    pub fn reset_on_new_segment(&mut self, now: u64)
        ensures
            *final(self) == (LiveFlvPipeline {
                last_progress_timestamp: None,
                stagnant_count: 0,
                last_progress_at: now,
                last_chunk_hash: None,
                duplicate_chunk_count: 0,
                ..*old(self)
            }),
    {
        self.last_progress_timestamp = None;
        self.stagnant_count = 0;
        self.last_progress_at = now;
        self.last_chunk_hash = None;
        self.duplicate_chunk_count = 0;
    }

    /// A file header came in: the framing of the video has to be found out again.
    pub fn on_stream_header(&mut self)
        ensures
            *final(self) == (LiveFlvPipeline {
                annexb_state: if old(self).settings.disable_split_on_h264_annexb {
                    PipelineAnnexBState::Unknown
                } else {
                    old(self).annexb_state
                },
                ..*old(self)
            }),
    {
        if self.settings.disable_split_on_h264_annexb {
            self.annexb_state = PipelineAnnexBState::Unknown;
        }
    }

    /// Applies the rules to a tag at the given reading of the clock.
    pub fn process_tag(&mut self, tag: &mut FlvTag, now: u64) -> (r: LivePipelineDecision)
        requires
            old(self).wf(),
            old(self).room(),
            old(tag).wf(),
        ensures
            final(self).wf(),
            final(tag).wf(),
            final(tag).tag_type == old(tag).tag_type,
            final(tag).data_offset == old(tag).data_offset,
            final(tag).data_len == old(tag).data_len,
            final(tag).bytes@ == old(self).timestamp_fixer.rewritten(
                old(tag).tag_type,
                old(tag).bytes@,
                header_tag(old(tag).tag_type, old(tag).payload()),
            ),
            final(self).follows(*old(self), *old(tag), *final(tag), now),
            forall|bound: int|
                0 <= bound && #[trigger] old(self).timestamp_fixer.within(bound) ==> final(self).timestamp_fixer.within(bound + TAG_REACH),
            r.jump == old(self).timestamp_fixer.reported(
                old(tag).tag_type,
                timestamp_of(old(tag).bytes@),
                header_tag(old(tag).tag_type, old(tag).payload()),
            ),
            r.request_split == old(self).split_for(
                old(tag).tag_type,
                old(tag).payload(),
                final(tag).bytes@,
                final(tag).payload(),
            ),
            r.progressed == old(self).advances(timestamp_of(final(tag).bytes@)),
            match r.disconnect_reason {
                Some(message) => old(self).disconnect_for(final(tag).bytes@, now) == Some(
                    message@,
                ),
                None => old(self).disconnect_for(final(tag).bytes@, now) is None,
            },
    {
        let mut decision = LivePipelineDecision {
            request_split: None,
            disconnect_reason: None,
            jump: None,
            progressed: false,
        };
        self.apply_annexb_rule(tag);
        let is_header_tag: bool = tag.tag_type == SCRIPT_TAG || is_audio_header_tag(tag.data())
            || is_video_header_tag(tag.data());
        decision.jump = self.timestamp_fixer.fix_tag(tag, is_header_tag);
        self.apply_script_tag_rule(tag, &mut decision);
        self.apply_header_change_rule(tag, &mut decision);
        self.apply_duplicate_chunk_rule(tag, now, &mut decision);
        self.apply_progress_rule(tag, now, &mut decision);
        decision
    }

    fn apply_annexb_rule(&mut self, tag: &FlvTag)
        requires
            tag.wf(),
        ensures
            *final(self) == (LiveFlvPipeline {
                annexb_state: old(self).annexb_after(tag.tag_type, tag.payload()),
                ..*old(self)
            }),
    {
        if !(self.settings.disable_split_on_h264_annexb && tag.tag_type == VIDEO_TAG
            && is_video_keyframe(tag)) {
            return ;
        }
        if !contains_annexb_signature(tag.data()) {
            return ;
        }
        self.annexb_state = match self.annexb_state {
            PipelineAnnexBState::Unknown => PipelineAnnexBState::Pending,
            PipelineAnnexBState::Pending => PipelineAnnexBState::IsAnnexB,
            PipelineAnnexBState::IsAnnexB => PipelineAnnexBState::IsAnnexB,
        };
    }

    fn apply_script_tag_rule(&mut self, tag: &FlvTag, decision: &mut LivePipelineDecision)
        ensures
            *final(self) == (LiveFlvPipeline {
                metadata_received: old(self).metadata_received || tag.tag_type == SCRIPT_TAG,
                ..*old(self)
            }),
            *final(decision) == (LivePipelineDecision {
                request_split: if tag.tag_type == SCRIPT_TAG && old(self).metadata_received && old(self).settings.split_on_script_tag {
                    first_reason(*old(decision), SplitReason::ScriptTag)
                } else {
                    old(decision).request_split
                },
                ..*old(decision)
            }),
    {
        if tag.tag_type != SCRIPT_TAG {
            return ;
        }
        if !self.metadata_received {
            self.metadata_received = true;
            return ;
        }
        if self.settings.split_on_script_tag {
            request_split_if_safe(decision, SplitReason::ScriptTag);
        }
    }

    fn apply_header_change_rule(&mut self, tag: &FlvTag, decision: &mut LivePipelineDecision)
        requires
            tag.wf(),
            old(decision).disconnect_reason is None,
        ensures
            final(self).settings == old(self).settings,
            final(self).timestamp_fixer == old(self).timestamp_fixer,
            final(self).metadata_received == old(self).metadata_received,
            final(self).annexb_state == old(self).annexb_state,
            final(self).last_chunk_hash == old(self).last_chunk_hash,
            final(self).duplicate_chunk_count == old(self).duplicate_chunk_count,
            final(self).last_progress_timestamp == old(self).last_progress_timestamp,
            final(self).stagnant_count == old(self).stagnant_count,
            final(self).last_progress_at == old(self).last_progress_at,
            opt_bytes(final(self).last_audio_header) == (if audio_header(tag.payload()) {
                Some(normalized_header(tag.bytes@))
            } else {
                opt_bytes(old(self).last_audio_header)
            }),
            opt_bytes(final(self).last_video_header) == (if video_header(tag.payload()) {
                Some(normalized_header(tag.bytes@))
            } else {
                opt_bytes(old(self).last_video_header)
            }),
            ({
                let suppressed = old(self).settings.disable_split_on_h264_annexb && old(self).annexb_state == PipelineAnnexBState::IsAnnexB;
                let audio = audio_header(tag.payload()) && header_changed(
                    opt_bytes(old(self).last_audio_header),
                    tag.bytes@,
                );
                let video = video_header(tag.payload()) && header_changed(
                    opt_bytes(old(self).last_video_header),
                    tag.bytes@,
                );
                *final(decision) == (LivePipelineDecision {
                    request_split: if old(decision).request_split is Some || suppressed {
                        old(decision).request_split
                    } else if audio {
                        Some(SplitReason::AudioHeaderChanged)
                    } else if video {
                        Some(SplitReason::VideoHeaderChanged)
                    } else {
                        None
                    },
                    ..*old(decision)
                })
            }),
    {
        let suppressed: bool = self.settings.disable_split_on_h264_annexb && self.annexb_state
            == PipelineAnnexBState::IsAnnexB;
        if is_audio_header_tag(tag.data()) {
            let normalized = normalize_header_tag(tag.bytes.as_slice());
            let changed: bool = differs(&self.last_audio_header, &normalized);
            self.last_audio_header = Some(normalized);
            if changed && !suppressed {
                request_split_if_safe(decision, SplitReason::AudioHeaderChanged);
            }
        }
        if is_video_header_tag(tag.data()) {
            let normalized = normalize_header_tag(tag.bytes.as_slice());
            let changed: bool = differs(&self.last_video_header, &normalized);
            self.last_video_header = Some(normalized);
            if changed && !suppressed {
                request_split_if_safe(decision, SplitReason::VideoHeaderChanged);
            }
        }
    }

    fn apply_duplicate_chunk_rule(
        &mut self,
        tag: &FlvTag,
        now: u64,
        decision: &mut LivePipelineDecision,
    )
        requires
            old(self).duplicate_chunk_count < usize::MAX,
            old(decision).disconnect_reason is None,
        ensures
            *final(self) == (LiveFlvPipeline {
                last_chunk_hash: Some(tag_hash(tag.bytes@)),
                duplicate_chunk_count: old(self).duplicates_after(tag.bytes@) as usize,
                ..*old(self)
            }),
            final(decision).request_split == old(decision).request_split,
            final(decision).jump == old(decision).jump,
            final(decision).progressed == old(decision).progressed,
            match final(decision).disconnect_reason {
                Some(message) => old(self).duplicates_after(tag.bytes@) >= INVALID_STREAM_TAG_LIMIT
                    && stalled(old(self).last_progress_at, now) && message@ == duplicate_message(),
                None => !(old(self).duplicates_after(tag.bytes@) >= INVALID_STREAM_TAG_LIMIT
                    && stalled(old(self).last_progress_at, now)),
            },
    {
        let chunk_hash: u64 = calculate_tag_hash(tag.bytes.as_slice());
        let repeated: bool = match self.last_chunk_hash {
            Some(previous) => previous == chunk_hash,
            None => false,
        };
        if repeated {
            self.duplicate_chunk_count = self.duplicate_chunk_count + 1;
        } else {
            self.last_chunk_hash = Some(chunk_hash);
            self.duplicate_chunk_count = 0;
        }
        if self.duplicate_chunk_count >= INVALID_STREAM_TAG_LIMIT && is_stalled(
            self.last_progress_at,
            now,
        ) {
            decision.disconnect_reason = Some("连续重复数据块，触发断流重连".to_owned());
        }
    }

    fn apply_progress_rule(&mut self, tag: &FlvTag, now: u64, decision: &mut LivePipelineDecision)
        requires
            old(self).stagnant_count < usize::MAX,
        ensures
            *final(self) == (LiveFlvPipeline {
                last_progress_timestamp: if old(self).advances(timestamp_of(tag.bytes@)) {
                    Some(timestamp_of(tag.bytes@) as u32)
                } else {
                    old(self).last_progress_timestamp
                },
                last_progress_at: if old(self).advances(timestamp_of(tag.bytes@)) {
                    now
                } else {
                    old(self).last_progress_at
                },
                stagnant_count: old(self).stagnant_after(timestamp_of(tag.bytes@)) as usize,
                ..*old(self)
            }),
            final(decision).request_split == old(decision).request_split,
            final(decision).jump == old(decision).jump,
            final(decision).progressed == (old(decision).progressed || old(self).advances(
                timestamp_of(tag.bytes@),
            )),
            old(decision).disconnect_reason is Some ==> final(decision).disconnect_reason == old(decision).disconnect_reason,
            old(decision).disconnect_reason is None ==> match final(decision).disconnect_reason {
                Some(message) => old(self).stagnant_after(timestamp_of(tag.bytes@))
                    >= INVALID_STREAM_TAG_LIMIT && stalled(old(self).last_progress_at, now)
                    && message@ == stagnant_message(timestamp_of(tag.bytes@)),
                None => !(old(self).stagnant_after(timestamp_of(tag.bytes@))
                    >= INVALID_STREAM_TAG_LIMIT && stalled(old(self).last_progress_at, now)),
            },
    {
        let timestamp: u32 = parse_flv_timestamp(tag);
        let advances: bool = match self.last_progress_timestamp {
            Some(prev) => timestamp > prev,
            None => true,
        };
        if advances {
            self.last_progress_timestamp = Some(timestamp);
            self.stagnant_count = 0;
            self.last_progress_at = now;
            decision.progressed = true;
        } else {
            self.stagnant_count = self.stagnant_count + 1;
        }
        if self.stagnant_count >= INVALID_STREAM_TAG_LIMIT && is_stalled(
            self.last_progress_at,
            now,
        ) {
            if decision.disconnect_reason.is_none() {
                let mut message = to_chars("时间戳停滞，触发断流重连 timestamp=");
                let digits = u64_digits(timestamp as u64);
                extend(&mut message, digits.as_slice());
                decision.disconnect_reason = Some(to_text(message.as_slice()));
            }
        }
    }
}

/// The reason of a request: the first one given stays, and none is given once the connection
/// is to be dropped.
pub open spec fn first_reason(decision: LivePipelineDecision, reason: SplitReason) -> Option<
    SplitReason,
> {
    if decision.disconnect_reason is None && decision.request_split is None {
        Some(reason)
    } else {
        decision.request_split
    }
}

fn request_split_if_safe(decision: &mut LivePipelineDecision, reason: SplitReason)
    ensures
        *final(decision) == (LivePipelineDecision {
            request_split: first_reason(*old(decision), reason),
            ..*old(decision)
        }),
{
    if decision.disconnect_reason.is_none() && decision.request_split.is_none() {
        decision.request_split = Some(reason);
    }
}

fn differs(known: &Option<Vec<u8>>, bytes: &Vec<u8>) -> (r: bool)
    ensures
        r == (*known matches Some(k) && k@ != bytes@),
{
    match known {
        Some(k) => !same_bytes(k.as_slice(), bytes.as_slice()),
        None => false,
    }
}

/// Tells whether two byte sequences are the same.
pub fn same_bytes(a: &[u8], b: &[u8]) -> (r: bool)
    ensures
        r == (a@ == b@),
{
    if a.len() != b.len() {
        return false;
    }
    let mut i: usize = 0;
    while i < a.len()
        invariant
            i <= a.len(),
            a@.len() == b@.len(),
            forall|k: int| 0 <= k < i ==> a@[k] == b@[k],
        decreases a.len() - i,
    {
        if a[i] != b[i] {
            assert(a@[i as int] != b@[i as int]);
            return false;
        }
        i += 1;
    }
    assert(a@ =~= b@);
    true
}

/// The connection is never given up while the stream moves: not before so many tags in a row
/// stood still or repeated themselves, and not within the stall time behind the last progress.
pub proof fn law_no_early_disconnect(pipeline: LiveFlvPipeline, bytes: Seq<u8>, now: u64)
    requires
        pipeline.disconnect_for(bytes, now) is Some,
    ensures
        stalled(pipeline.last_progress_at, now),
        pipeline.duplicate_chunk_count + 1 >= INVALID_STREAM_TAG_LIMIT || pipeline.stagnant_count
            + 1 >= INVALID_STREAM_TAG_LIMIT,
{
}

/// A configuration that repeats itself never asks for a new file.
pub proof fn law_same_header_no_split(
    pipeline: LiveFlvPipeline,
    tag_type: u8,
    data: Seq<u8>,
    bytes: Seq<u8>,
    new_data: Seq<u8>,
)
    requires
        tag_type != SCRIPT_TAG,
        opt_bytes(pipeline.last_audio_header) == Some(normalized_header(bytes)) || !audio_header(
            new_data,
        ),
        opt_bytes(pipeline.last_video_header) == Some(normalized_header(bytes)) || !video_header(
            new_data,
        ),
    ensures
        pipeline.split_for(tag_type, data, bytes, new_data) is None,
{
}

/// Tags that pass the rules one behind the other: `states` holds the state before each tag and the
/// one behind the last, `fixed` the tags with their timestamps repaired.
pub open spec fn run_of(
    states: Seq<LiveFlvPipeline>,
    tags: Seq<FlvTag>,
    fixed: Seq<FlvTag>,
    times: Seq<u64>,
) -> bool {
    &&& states.len() == tags.len() + 1
    &&& fixed.len() == tags.len()
    &&& times.len() == tags.len()
    &&& forall|i: int|
        0 <= i < tags.len() ==> states[i + 1].follows(
            states[i],
            #[trigger] tags[i],
            fixed[i],
            times[i],
        )
}

/// Tags that do not move the stream are counted, and the last progress stays where it was.
proof fn lemma_standing_counted(
    states: Seq<LiveFlvPipeline>,
    tags: Seq<FlvTag>,
    fixed: Seq<FlvTag>,
    times: Seq<u64>,
    n: int,
)
    requires
        run_of(states, tags, fixed, times),
        0 <= n <= tags.len(),
        forall|i: int|
            0 <= i < tags.len() ==> !(#[trigger] states[i]).advances(timestamp_of(fixed[i].bytes@)),
    ensures
        states[n].stagnant_count == states[0].stagnant_count + n,
        states[n].last_progress_at == states[0].last_progress_at,
    decreases n,
{
    if n > 0 {
        lemma_standing_counted(states, tags, fixed, times, n - 1);
        let last = tags[n - 1];
        assert(states[n].follows(states[n - 1], last, fixed[n - 1], times[n - 1]));
    }
}

/// A stream that stands still is reported: once so many tags in a row did not move it, and the
/// stall time has gone by since the last progress, the connection is given up.
pub proof fn law_stuck_stream_reported(
    states: Seq<LiveFlvPipeline>,
    tags: Seq<FlvTag>,
    fixed: Seq<FlvTag>,
    times: Seq<u64>,
)
    requires
        run_of(states, tags, fixed, times),
        tags.len() >= INVALID_STREAM_TAG_LIMIT,
        forall|i: int|
            0 <= i < tags.len() ==> !(#[trigger] states[i]).advances(timestamp_of(fixed[i].bytes@)),
        stalled(states[0].last_progress_at, times.last()),
    ensures
        states[tags.len() - 1].disconnect_for(fixed.last().bytes@, times.last()) is Some,
{
    lemma_standing_counted(states, tags, fixed, times, tags.len() - 1);
}

/// Tells whether a payload is a configuration of the sound, or else of the picture.
pub open spec fn configures(audio: bool, data: Seq<u8>) -> bool {
    if audio {
        audio_header(data)
    } else {
        video_header(data)
    }
}

/// The configuration of the sound, or else of the picture, that was seen last.
pub open spec fn known_header(state: LiveFlvPipeline, audio: bool) -> Option<Seq<u8>> {
    if audio {
        opt_bytes(state.last_audio_header)
    } else {
        opt_bytes(state.last_video_header)
    }
}

/// A configuration is remembered until another of its kind comes in.
proof fn lemma_header_remembered(
    states: Seq<LiveFlvPipeline>,
    tags: Seq<FlvTag>,
    fixed: Seq<FlvTag>,
    times: Seq<u64>,
    audio: bool,
    n: int,
)
    requires
        run_of(states, tags, fixed, times),
        1 <= n <= tags.len(),
        configures(audio, fixed[0].payload()),
        forall|i: int|
            0 < i < fixed.len() ==> !configures(audio, (#[trigger] fixed[i]).payload()),
    ensures
        known_header(states[n], audio) == Some(normalized_header(fixed[0].bytes@)),
        states[n].settings == states[0].settings,
    decreases n,
{
    if n > 1 {
        lemma_header_remembered(states, tags, fixed, times, audio, n - 1);
    }
    let last = tags[n - 1];
    assert(states[n].follows(states[n - 1], last, fixed[n - 1], times[n - 1]));
}

/// A configuration that differs from the last one of its kind asks for a new file, however many
/// tags passed in between, unless the framing of the video forbids it.
pub proof fn law_changed_header_splits(
    states: Seq<LiveFlvPipeline>,
    tags: Seq<FlvTag>,
    fixed: Seq<FlvTag>,
    times: Seq<u64>,
    audio: bool,
    tag: FlvTag,
    repaired: FlvTag,
)
    requires
        run_of(states, tags, fixed, times),
        tags.len() > 0,
        configures(audio, fixed[0].payload()),
        forall|i: int|
            0 < i < fixed.len() ==> !configures(audio, (#[trigger] fixed[i]).payload()),
        configures(audio, repaired.payload()),
        normalized_header(repaired.bytes@) != normalized_header(fixed[0].bytes@),
        !states[0].settings.disable_split_on_h264_annexb || states.last().annexb_after(
            tag.tag_type,
            tag.payload(),
        ) != PipelineAnnexBState::IsAnnexB,
    ensures
        states.last().split_for(
            tag.tag_type,
            tag.payload(),
            repaired.bytes@,
            repaired.payload(),
        ) is Some,
{
    lemma_header_remembered(states, tags, fixed, times, audio, tags.len() as int);
}

/// The limits in numbers: the connection is given up at the three hundredth tag in a row that is
/// the same or stands still, once nothing moved for ten seconds, and not before.
pub proof fn law_disconnect_limits(pipeline: LiveFlvPipeline, bytes: Seq<u8>, now: u64)
    requires
        pipeline.last_progress_at <= now,
    ensures
        ({
            let same = pipeline.last_chunk_hash == Some(tag_hash(bytes));
            let still = pipeline.last_progress_timestamp matches Some(prev) && timestamp_of(bytes)
                <= prev;
            let idle = now - pipeline.last_progress_at >= 10_000_000_000;
            (pipeline.disconnect_for(bytes, now) is Some) == (idle && ((same
                && pipeline.duplicate_chunk_count >= 299) || (still && pipeline.stagnant_count
                >= 299)))
        }),
{
}

/// Script data asks for a new file only where that is set, and only from the second time on.
pub proof fn law_script_data_splits(
    pipeline: LiveFlvPipeline,
    data: Seq<u8>,
    bytes: Seq<u8>,
    new_data: Seq<u8>,
)
    requires
        !audio_header(new_data),
        !video_header(new_data),
    ensures
        (pipeline.split_for(18, data, bytes, new_data) is Some) == (pipeline.metadata_received
            && pipeline.settings.split_on_script_tag),
        pipeline.split_for(8, data, bytes, new_data) is None,
        pipeline.split_for(9, data, bytes, new_data) is None,
{
}

/// A stream that carries its parameter sets in its key frames is known as such from the second such
/// key frame on, and then a changed configuration no longer asks for a new file.
pub proof fn law_parameter_sets_stop_splits(
    pipeline: LiveFlvPipeline,
    next: LiveFlvPipeline,
    data: Seq<u8>,
    bytes: Seq<u8>,
    new_data: Seq<u8>,
    tag_type: u8,
    other: Seq<u8>,
)
    requires
        pipeline.settings.disable_split_on_h264_annexb,
        pipeline.annexb_state == PipelineAnnexBState::Unknown,
        data.len() >= 6,
        keyframe(9, data),
        annexb_signature(data),
        next == (LiveFlvPipeline {
            annexb_state: pipeline.annexb_after(9, data),
            ..pipeline
        }),
        tag_type == 8 || tag_type == 9,
    ensures
        next.annexb_state == PipelineAnnexBState::Pending,
        next.annexb_after(9, data) == PipelineAnnexBState::IsAnnexB,
        ({
            let known = LiveFlvPipeline { annexb_state: next.annexb_after(9, data), ..next };
            known.annexb_after(tag_type, other) == PipelineAnnexBState::IsAnnexB && known.split_for(
                tag_type,
                other,
                bytes,
                new_data,
            ) is None
        }),
{
}

/// A changed configuration is told by its kind.
pub proof fn law_split_reason_told(
    pipeline: LiveFlvPipeline,
    tag_type: u8,
    data: Seq<u8>,
    bytes: Seq<u8>,
    new_data: Seq<u8>,
)
    requires
        tag_type == 8 || tag_type == 9,
    ensures
        match pipeline.split_for(tag_type, data, bytes, new_data) {
            Some(SplitReason::AudioHeaderChanged) => audio_header(new_data)
                && pipeline.last_audio_header is Some && pipeline.last_audio_header->0@
                != normalized_header(bytes),
            Some(SplitReason::VideoHeaderChanged) => video_header(new_data)
                && pipeline.last_video_header is Some && pipeline.last_video_header->0@
                != normalized_header(bytes),
            Some(SplitReason::ScriptTag) => false,
            None => true,
        },
{
}

/// What breaks a stream off, and what begins a file, is told by these words.
pub proof fn law_words_of_the_pipeline(timestamp: int)
    ensures
        duplicate_message() == "连续重复数据块，触发断流重连"@,
        SplitReason::ScriptTag.spec_name() == "script_tag"@,
        SplitReason::AudioHeaderChanged.spec_name() == "audio_header_changed"@,
        SplitReason::VideoHeaderChanged.spec_name() == "video_header_changed"@,
{
}

/// A tag moves the watch on just where its time goes on; else the watch stays where it was. Headers
/// are kept until others come.
pub proof fn law_watch_moves_with_time(
    after: LiveFlvPipeline,
    before: LiveFlvPipeline,
    tag: FlvTag,
    fixed: FlvTag,
    now: u64,
)
    requires
        after.follows(before, tag, fixed, now),
    ensures
        before.advances(timestamp_of(fixed.bytes@)) ==> after.last_progress_at == now
            && after.last_progress_timestamp == Some(timestamp_of(fixed.bytes@) as u32),
        !before.advances(timestamp_of(fixed.bytes@)) ==> after.last_progress_at
            == before.last_progress_at && after.last_progress_timestamp
            == before.last_progress_timestamp,
        !audio_header(fixed.payload()) ==> opt_bytes(after.last_audio_header) == opt_bytes(
            before.last_audio_header,
        ),
        !video_header(fixed.payload()) ==> opt_bytes(after.last_video_header) == opt_bytes(
            before.last_video_header,
        ),
        audio_header(fixed.payload()) ==> opt_bytes(after.last_audio_header) == Some(
            normalized_header(fixed.bytes@),
        ),
        video_header(fixed.payload()) ==> opt_bytes(after.last_video_header) == Some(
            normalized_header(fixed.bytes@),
        ),
        before.metadata_received ==> after.metadata_received,
        after.settings == before.settings,
{
}

/// Before the first tag nothing was seen.
pub proof fn law_nothing_seen_at_first(
    p: LiveFlvPipeline,
    settings: LivePipelineSettings,
    enable: bool,
    apply: bool,
    now: u64,
)
    requires
        p.begins(settings, enable, apply, now),
    ensures
        !p.metadata_received,
        p.last_audio_header is None,
        p.last_video_header is None,
        p.last_chunk_hash is None,
        p.duplicate_chunk_count == 0,
        p.stagnant_count == 0,
        p.last_progress_timestamp is None,
        p.last_progress_at == now,
        p.settings == settings,
{
}

/// Script data and the configurations of sound and picture are headers, and nothing else is.
pub proof fn law_header_tags(tag_type: u8, data: Seq<u8>)
    ensures
        header_tag(18, data),
        audio_header(data) ==> header_tag(tag_type, data),
        video_header(data) ==> header_tag(tag_type, data),
        tag_type != 18 && !audio_header(data) && !video_header(data) ==> !header_tag(tag_type, data),
{
}

} // verus!
