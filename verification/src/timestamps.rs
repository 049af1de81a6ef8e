//! Repair of the timestamps of an interleaved audio and video stream: one shared offset for
//! both streams, a floor for each, and gaps that collapse.

use crate::flv::{
    clamp_timestamp, clamped, parse_flv_timestamp, timestamp_of, with_timestamp,
    write_flv_timestamp, FlvTag, AUDIO_TAG, SCRIPT_TAG, VIDEO_TAG,
};
use vstd::prelude::*;

verus! {

/// A step further than this, in milliseconds, is a jump.
pub const TIMESTAMP_JUMP_THRESHOLD_MS: i64 = 500;

/// The step of an audio stream where it cannot be told from its tags.
pub const TIMESTAMP_AUDIO_FALLBACK_MS: i64 = 22;

/// The least plausible step of an audio stream.
pub const TIMESTAMP_AUDIO_MIN_STEP_MS: i64 = 20;

/// The greatest plausible step of an audio stream.
pub const TIMESTAMP_AUDIO_MAX_STEP_MS: i64 = 24;

/// The step of a video stream where it cannot be told from its tags.
pub const TIMESTAMP_VIDEO_FALLBACK_MS: i64 = 33;

/// The least plausible step of a video stream.
pub const TIMESTAMP_VIDEO_MIN_STEP_MS: i64 = 15;

/// The greatest plausible step of a video stream.
pub const TIMESTAMP_VIDEO_MAX_STEP_MS: i64 = 50;

/// The least step between two tags of one stream.
pub const TIMESTAMP_MIN_STEP_MS: i64 = 1;

/// How far one tag can move the time line.
pub const TAG_REACH: i64 = 0x2_0000_0000;

/// The bound within which the time line has room for another tag.
pub const TIMELINE_LIMIT: i64 = 0x2000_0000_0000_0000;

/// A jump that was found, with the raw and the repaired timestamp.
pub struct TimestampJumpInfo {
    pub diff: i64,
    pub original: i64,
    pub fixed: i64,
    pub offset: i64,
}

/// What is known of one stream.
pub struct TimestampChannelState {
    pub last_original: Option<i64>,
    pub last_fixed: Option<i64>,
    pub last_step: i64,
    pub fallback: i64,
    pub min_step: i64,
    pub max_step: i64,
}

/// An optional value lies within a bound on either side.
pub open spec fn opt_within(v: Option<i64>, bound: int) -> bool {
    match v {
        Some(x) => -bound <= x <= bound,
        None => true,
    }
}

/// An optional raw timestamp is in the range of a tag.
pub open spec fn opt_stamp(v: Option<i64>) -> bool {
    match v {
        Some(x) => 0 <= x <= u32::MAX,
        None => true,
    }
}

impl TimestampChannelState {
    /// The steps are plausible and the last one is among them.
    pub open spec fn wf(self) -> bool {
        &&& 1 <= self.min_step <= self.fallback <= self.max_step <= 1000
        &&& self.min_step <= self.last_step <= self.max_step
        &&& opt_stamp(self.last_original)
        &&& self.last_fixed is Some ==> self.last_original is Some
        &&& self.last_fixed matches Some(f) ==> f >= 0
    }

    /// The step to a tag with the given raw timestamp: the distance to the tag before where
    /// it is plausible, else the fallback.
    pub open spec fn step_to(self, current: int) -> int {
        match self.last_original {
            Some(prev) if self.min_step <= current - prev <= self.max_step => current - prev,
            _ => self.fallback as int,
        }
    }

    /// A stream of which nothing is known.
    pub fn new(fallback: i64, min_step: i64, max_step: i64) -> (r: Self)
        ensures
            r == (TimestampChannelState {
                last_original: None,
                last_fixed: None,
                last_step: fallback,
                fallback,
                min_step,
                max_step,
            }),
    {
        TimestampChannelState {
            last_original: None,
            last_fixed: None,
            last_step: fallback,
            fallback,
            min_step,
            max_step,
        }
    }

    /// Forgets what was seen of the stream.
    pub fn reset(&mut self)
        ensures
            *final(self) == (TimestampChannelState {
                last_original: None,
                last_fixed: None,
                last_step: old(self).fallback,
                ..*old(self)
            }),
    {
        self.last_original = None;
        self.last_fixed = None;
        self.last_step = self.fallback;
    }

    /// Takes note of a raw timestamp and returns the step to it.
    pub fn update_step(&mut self, current: i64) -> (r: i64)
        requires
            old(self).wf(),
            0 <= current <= u32::MAX,
        ensures
            r == old(self).step_to(current as int),
            *final(self) == (TimestampChannelState {
                last_original: Some(current),
                last_step: r,
                ..*old(self)
            }),
            final(self).wf(),
    {
        let step: i64 = match self.last_original {
            Some(prev) => {
                let diff: i64 = current - prev;
                if diff >= self.min_step && diff <= self.max_step {
                    diff
                } else {
                    self.fallback
                }
            },
            None => self.fallback,
        };
        self.last_original = Some(current);
        self.last_step = step;
        step
    }

    /// Takes note of a repaired timestamp.
    pub fn update_fixed(&mut self, fixed: i64)
        ensures
            *final(self) == (TimestampChannelState { last_fixed: Some(fixed), ..*old(self) }),
    {
        self.last_fixed = Some(fixed);
    }

    /// Where the stream continues: one step behind its last repaired timestamp.
    pub open spec fn continuation(self) -> int {
        match self.last_fixed {
            Some(f) => f + self.last_step,
            None => 0,
        }
    }
}

/// The state of the repair.
pub struct TimestampFixer {
    pub enabled: bool,
    pub apply_fix: bool,
    pub last_original: Option<i64>,
    pub last_fixed: Option<i64>,
    pub current_offset: i64,
    pub next_target: i64,
    pub audio: TimestampChannelState,
    pub video: TimestampChannelState,
}

impl TimestampFixer {
    /// The streams are well formed, the time line continues behind both of them, and the
    /// first media tag fixed the offset.
    pub open spec fn wf(self) -> bool {
        &&& self.audio.wf()
        &&& self.video.wf()
        &&& opt_stamp(self.last_original)
        &&& self.next_target >= 0
        &&& self.audio.last_original is Some ==> self.last_original is Some
        &&& self.video.last_original is Some ==> self.last_original is Some
        &&& self.last_fixed is Some ==> self.last_original is Some
        &&& self.last_fixed matches Some(f) ==> f >= 0
        &&& self.next_target >= self.audio.continuation()
        &&& self.next_target >= self.video.continuation()
    }

    /// Every place of the time line lies within a bound.
    pub open spec fn within(self, bound: int) -> bool {
        &&& opt_within(self.last_fixed, bound)
        &&& opt_within(self.audio.last_fixed, bound)
        &&& opt_within(self.video.last_fixed, bound)
        &&& -bound <= self.next_target <= bound
        &&& -bound <= self.current_offset <= bound
    }

    /// The raw timestamp before a tag of the given type, in its own stream.
    pub open spec fn prev_original(self, kind: u8) -> Option<i64> {
        if kind == AUDIO_TAG {
            self.audio.last_original
        } else if kind == VIDEO_TAG {
            self.video.last_original
        } else {
            self.last_original
        }
    }

    /// The repaired timestamp before a tag of the given type, in its own stream.
    pub open spec fn prev_fixed(self, kind: u8) -> Option<i64> {
        if kind == AUDIO_TAG {
            self.audio.last_fixed
        } else if kind == VIDEO_TAG {
            self.video.last_fixed
        } else {
            self.last_fixed
        }
    }

    /// The step to a tag in its own stream, at least one millisecond.
    pub open spec fn step_to(self, kind: u8, original: int) -> int {
        let step = if kind == AUDIO_TAG {
            self.audio.step_to(original)
        } else if kind == VIDEO_TAG {
            self.video.step_to(original)
        } else {
            TIMESTAMP_MIN_STEP_MS as int
        };
        if step < TIMESTAMP_MIN_STEP_MS {
            TIMESTAMP_MIN_STEP_MS as int
        } else {
            step
        }
    }

    /// Tells whether a tag is further from the tag before, in its own stream, than a step.
    pub open spec fn jumps(self, kind: u8, original: int) -> bool {
        match self.prev_original(kind) {
            Some(prev) => original - prev < -TIMESTAMP_JUMP_THRESHOLD_MS || original - prev
                > TIMESTAMP_JUMP_THRESHOLD_MS,
            None => false,
        }
    }

    /// The offset that a tag is repaired with: a jump moves it to the end of the time line,
    /// the first media tag moves it so that the time line begins at zero.
    pub open spec fn offset_for(self, kind: u8, original: int) -> int {
        if self.jumps(kind, original) {
            original - self.next_target
        } else if self.last_original is None {
            original
        } else {
            self.current_offset as int
        }
    }

    /// The repaired timestamp: the raw one less the offset, moved one step behind the tag
    /// before it in its own stream where it would not be later.
    pub open spec fn repaired(self, kind: u8, original: int) -> int {
        let shifted = original - self.offset_for(kind, original);
        match self.prev_fixed(kind) {
            Some(prev) => if shifted <= prev {
                prev + self.step_to(kind, original)
            } else {
                shifted
            },
            None => if shifted < 0 {
                0
            } else {
                shifted
            },
        }
    }

    /// The timestamp that a stream configuration or script tag gets.
    pub open spec fn header_stamp(self, kind: u8) -> int {
        if kind == AUDIO_TAG {
            match self.audio.last_fixed {
                Some(f) => f as int,
                None => 0,
            }
        } else if kind == VIDEO_TAG {
            match self.video.last_fixed {
                Some(f) => f as int,
                None => 0,
            }
        } else {
            self.next_target as int
        }
    }

    /// The state of a stream once a media tag is repaired.
    pub open spec fn channel_after(
        self,
        channel: TimestampChannelState,
        stream: u8,
        kind: u8,
        original: int,
    ) -> TimestampChannelState {
        if kind == stream {
            TimestampChannelState {
                last_original: Some(original as i64),
                last_fixed: Some(self.repaired(kind, original) as i64),
                last_step: channel.step_to(original) as i64,
                ..channel
            }
        } else {
            channel
        }
    }

    /// The state once a media tag is repaired.
    pub open spec fn repaired_state(self, kind: u8, original: int) -> TimestampFixer {
        let audio = self.channel_after(self.audio, AUDIO_TAG, kind, original);
        let video = self.channel_after(self.video, VIDEO_TAG, kind, original);
        TimestampFixer {
            last_original: Some(original as i64),
            last_fixed: Some(self.repaired(kind, original) as i64),
            current_offset: self.offset_for(kind, original) as i64,
            next_target: (if audio.continuation() >= video.continuation() {
                audio.continuation()
            } else {
                video.continuation()
            }) as i64,
            audio,
            video,
            ..self
        }
    }

    /// The state once a tag has passed.
    pub open spec fn after(self, kind: u8, original: int, is_header: bool) -> TimestampFixer {
        if !self.enabled || is_header {
            self
        } else if !self.apply_fix {
            TimestampFixer {
                last_original: Some(original as i64),
                last_fixed: Some(original as i64),
                ..self
            }
        } else {
            self.repaired_state(kind, original)
        }
    }

    /// The bytes of a tag once it has passed.
    pub open spec fn rewritten(self, kind: u8, bytes: Seq<u8>, is_header: bool) -> Seq<u8> {
        if !self.enabled || !self.apply_fix {
            bytes
        } else if is_header {
            with_timestamp(bytes, clamped(self.header_stamp(kind)))
        } else {
            with_timestamp(bytes, clamped(self.repaired(kind, timestamp_of(bytes))))
        }
    }

    /// The jump that is reported for a tag. Without repair the jump is measured against the
    /// tag before in either stream.
    pub open spec fn reported(self, kind: u8, original: int, is_header: bool) -> Option<
        TimestampJumpInfo,
    > {
        if !self.enabled || is_header {
            None
        } else if !self.apply_fix {
            match self.last_original {
                Some(prev) => if original - prev < -TIMESTAMP_JUMP_THRESHOLD_MS || original - prev
                    > TIMESTAMP_JUMP_THRESHOLD_MS {
                    Some(
                        TimestampJumpInfo {
                            diff: (original - prev) as i64,
                            original: original as i64,
                            fixed: original as i64,
                            offset: 0,
                        },
                    )
                } else {
                    None
                },
                None => None,
            }
        } else if self.jumps(kind, original) {
            Some(
                TimestampJumpInfo {
                    diff: (original - self.prev_original(kind)->0) as i64,
                    original: original as i64,
                    fixed: self.repaired(kind, original) as i64,
                    offset: self.offset_for(kind, original) as i64,
                },
            )
        } else {
            None
        }
    }

    /// A repair at the beginning of a session.
    pub open spec fn initial(enabled: bool, apply_fix: bool) -> TimestampFixer {
        TimestampFixer {
            enabled,
            apply_fix,
            last_original: None,
            last_fixed: None,
            current_offset: 0,
            next_target: 0,
            audio: TimestampChannelState {
                last_original: None,
                last_fixed: None,
                last_step: TIMESTAMP_AUDIO_FALLBACK_MS,
                fallback: TIMESTAMP_AUDIO_FALLBACK_MS,
                min_step: TIMESTAMP_AUDIO_MIN_STEP_MS,
                max_step: TIMESTAMP_AUDIO_MAX_STEP_MS,
            },
            video: TimestampChannelState {
                last_original: None,
                last_fixed: None,
                last_step: TIMESTAMP_VIDEO_FALLBACK_MS,
                fallback: TIMESTAMP_VIDEO_FALLBACK_MS,
                min_step: TIMESTAMP_VIDEO_MIN_STEP_MS,
                max_step: TIMESTAMP_VIDEO_MAX_STEP_MS,
            },
        }
    }

    /// A repair at the beginning of a session.
    pub fn new(enabled: bool, apply_fix: bool) -> (r: Self)
        ensures
            r == TimestampFixer::initial(enabled, apply_fix),
            r.wf(),
            r.within(0),
    {
        TimestampFixer {
            enabled,
            apply_fix,
            last_original: None,
            last_fixed: None,
            current_offset: 0,
            next_target: 0,
            audio: TimestampChannelState::new(
                TIMESTAMP_AUDIO_FALLBACK_MS,
                TIMESTAMP_AUDIO_MIN_STEP_MS,
                TIMESTAMP_AUDIO_MAX_STEP_MS,
            ),
            video: TimestampChannelState::new(
                TIMESTAMP_VIDEO_FALLBACK_MS,
                TIMESTAMP_VIDEO_MIN_STEP_MS,
                TIMESTAMP_VIDEO_MAX_STEP_MS,
            ),
        }
    }

    /// Forgets the session.
    pub fn reset(&mut self)
        requires
            old(self).wf(),
        ensures
            final(self).wf(),
            final(self).within(0),
            final(self).enabled == old(self).enabled,
            final(self).apply_fix == old(self).apply_fix,
            final(self).last_original is None,
            final(self).last_fixed is None,
            final(self).current_offset == 0,
            final(self).next_target == 0,
            final(self).audio == (TimestampChannelState {
                last_original: None,
                last_fixed: None,
                last_step: old(self).audio.fallback,
                ..old(self).audio
            }),
            final(self).video == (TimestampChannelState {
                last_original: None,
                last_fixed: None,
                last_step: old(self).video.fallback,
                ..old(self).video
            }),
    {
        self.last_original = None;
        self.last_fixed = None;
        self.current_offset = 0;
        self.next_target = 0;
        self.audio.reset();
        self.video.reset();
    }

    /// Tells whether the time line has room for another tag.
    pub fn has_room(&self) -> (r: bool)
        ensures
            r == self.within(TIMELINE_LIMIT as int),
    {
        in_limit(self.last_fixed) && in_limit(self.audio.last_fixed) && in_limit(
            self.video.last_fixed,
        ) && in_limit(Some(self.next_target)) && in_limit(Some(self.current_offset))
    }

    /// Repairs the timestamp of a tag and reports a jump.
    pub fn fix_tag(&mut self, tag: &mut FlvTag, is_header: bool) -> (r: Option<TimestampJumpInfo>)
        requires
            old(self).wf(),
            old(self).within(TIMELINE_LIMIT as int),
        ensures
            *final(self) == old(self).after(
                old(tag).tag_type,
                timestamp_of(old(tag).bytes@),
                is_header,
            ),
            final(tag).bytes@ == old(self).rewritten(
                old(tag).tag_type,
                old(tag).bytes@,
                is_header,
            ),
            final(tag).tag_type == old(tag).tag_type,
            final(tag).data_offset == old(tag).data_offset,
            final(tag).data_len == old(tag).data_len,
            r == old(self).reported(old(tag).tag_type, timestamp_of(old(tag).bytes@), is_header),
            final(self).wf(),
            forall|bound: int|
                0 <= bound && #[trigger] old(self).within(bound) ==> final(self).within(
                    bound + TAG_REACH,
                ),
    {
        if !self.enabled {
            return None;
        }
        let kind: u8 = tag.tag_type;
        let original: i64 = parse_flv_timestamp(tag) as i64;
        if !self.apply_fix {
            if is_header {
                return None;
            }
            let last_original: Option<i64> = self.last_original;
            self.last_original = Some(original);
            self.last_fixed = Some(original);
            if let Some(prev) = last_original {
                let diff: i64 = original - prev;
                if diff < -TIMESTAMP_JUMP_THRESHOLD_MS || diff > TIMESTAMP_JUMP_THRESHOLD_MS {
                    return Some(
                        TimestampJumpInfo { diff, original, fixed: original, offset: 0 },
                    );
                }
            }
            return None;
        }
        if is_header {
            let stamp: i64 = if kind == SCRIPT_TAG {
                self.next_target
            } else if kind == AUDIO_TAG {
                self.audio.last_fixed.unwrap_or(0)
            } else if kind == VIDEO_TAG {
                self.video.last_fixed.unwrap_or(0)
            } else {
                self.next_target
            };
            write_flv_timestamp(tag, clamp_timestamp(stamp));
            return None;
        }
        let (prev_original, prev_fixed): (Option<i64>, Option<i64>) = if kind == AUDIO_TAG {
            (self.audio.last_original, self.audio.last_fixed)
        } else if kind == VIDEO_TAG {
            (self.video.last_original, self.video.last_fixed)
        } else {
            (self.last_original, self.last_fixed)
        };
        let raw_step: i64 = if kind == AUDIO_TAG {
            self.audio.update_step(original)
        } else if kind == VIDEO_TAG {
            self.video.update_step(original)
        } else {
            TIMESTAMP_MIN_STEP_MS
        };
        let step: i64 = if raw_step < TIMESTAMP_MIN_STEP_MS {
            TIMESTAMP_MIN_STEP_MS
        } else {
            raw_step
        };
        if self.last_original.is_none() {
            self.current_offset = original;
        }
        let stream_diff: Option<i64> = match prev_original {
            Some(prev) => Some(original - prev),
            None => None,
        };
        let is_jump: bool = match stream_diff {
            Some(diff) => diff < -TIMESTAMP_JUMP_THRESHOLD_MS || diff > TIMESTAMP_JUMP_THRESHOLD_MS,
            None => false,
        };
        if is_jump {
            self.current_offset = original - self.next_target;
        }
        let mut fixed: i64 = original - self.current_offset;
        match prev_fixed {
            Some(prev) => {
                if fixed <= prev {
                    fixed = prev + step;
                }
            },
            None => {
                if fixed < 0 {
                    fixed = 0;
                }
            },
        }
        self.last_original = Some(original);
        self.last_fixed = Some(fixed);
        if kind == AUDIO_TAG {
            self.audio.update_fixed(fixed);
        } else if kind == VIDEO_TAG {
            self.video.update_fixed(fixed);
        }
        self.recalculate_next_target();
        write_flv_timestamp(tag, clamp_timestamp(fixed));
        if is_jump {
            Some(
                TimestampJumpInfo {
                    diff: stream_diff.unwrap_or(0),
                    original,
                    fixed,
                    offset: self.current_offset,
                },
            )
        } else {
            None
        }
    }

    /// Moves the end of the time line behind both streams.
    pub fn recalculate_next_target(&mut self)
        requires
            old(self).audio.wf(),
            old(self).video.wf(),
            opt_within(old(self).audio.last_fixed, i64::MAX - 1000),
            opt_within(old(self).video.last_fixed, i64::MAX - 1000),
        ensures
            *final(self) == (TimestampFixer {
                next_target: (if old(self).audio.continuation() >= old(self).video.continuation() {
                    old(self).audio.continuation()
                } else {
                    old(self).video.continuation()
                }) as i64,
                ..*old(self)
            }),
    {
        let audio_next: i64 = match self.audio.last_fixed {
            Some(value) => value + self.audio.last_step,
            None => 0,
        };
        let video_next: i64 = match self.video.last_fixed {
            Some(value) => value + self.video.last_step,
            None => 0,
        };
        self.next_target = if audio_next >= video_next {
            audio_next
        } else {
            video_next
        };
    }
}

fn in_limit(v: Option<i64>) -> (r: bool)
    ensures
        r == opt_within(v, TIMELINE_LIMIT as int),
{
    match v {
        Some(x) => -TIMELINE_LIMIT <= x && x <= TIMELINE_LIMIT,
        None => true,
    }
}

/// Within one stream the repaired timestamps strictly increase, whatever the raw ones do.
pub proof fn law_stream_monotonic(fixer: TimestampFixer, kind: u8, original: u32)
    requires
        fixer.wf(),
    ensures
        fixer.prev_fixed(kind) matches Some(prev) ==> fixer.repaired(kind, original as int) > prev,
        fixer.repaired(kind, original as int) >= 0,
{
}

/// The timestamps written into the tags of one stream strictly increase too, as long as they
/// fit in a tag.
pub proof fn law_written_monotonic(
    fixer: TimestampFixer,
    kind: u8,
    bytes: Seq<u8>,
    previous: Seq<u8>,
)
    requires
        fixer.wf(),
        fixer.enabled,
        fixer.apply_fix,
        bytes.len() >= 8,
        fixer.prev_fixed(kind) is Some,
        timestamp_of(previous) == fixer.prev_fixed(kind)->0,
        fixer.repaired(kind, timestamp_of(bytes)) <= u32::MAX,
    ensures
        timestamp_of(fixer.rewritten(kind, bytes, false)) > timestamp_of(previous),
{
    crate::flv::lemma_timestamp_range(bytes);
    law_stream_monotonic(fixer, kind, timestamp_of(bytes) as u32);
    crate::flv::law_timestamp_round_trip(bytes, fixer.repaired(kind, timestamp_of(bytes)) as u32);
}

/// A gap collapses: a tag of the audio or video stream behind a jump continues the time line
/// where it ended, however far its raw timestamp is away.
pub proof fn law_jump_collapses(fixer: TimestampFixer, kind: u8, original: u32)
    requires
        fixer.wf(),
        kind == AUDIO_TAG || kind == VIDEO_TAG,
        fixer.jumps(kind, original as int),
    ensures
        fixer.repaired(kind, original as int) == fixer.next_target,
{
}

/// There is no stretch: between two tags without a jump the offset stays, so that tags of
/// either stream that are not held up by the floor of their stream keep their raw distance.
pub proof fn law_no_stretch(
    fixer: TimestampFixer,
    kind: u8,
    original: u32,
    next_kind: u8,
    next_original: u32,
)
    requires
        fixer.wf(),
        fixer.enabled,
        fixer.apply_fix,
        fixer.within(TIMELINE_LIMIT as int),
        !fixer.after(kind, original as int, false).jumps(next_kind, next_original as int),
    ensures
        ({
            let next = fixer.after(kind, original as int, false);
            let first = fixer.repaired(kind, original as int);
            let second = next.repaired(next_kind, next_original as int);
            let free = first == original - fixer.offset_for(kind, original as int);
            let next_free = second == next_original - next.current_offset;
            free && next_free ==> second - first == next_original - original
        }),
{
}

/// Without repair no byte of a tag changes.
pub proof fn law_passive_keeps_bytes(
    fixer: TimestampFixer,
    kind: u8,
    bytes: Seq<u8>,
    is_header: bool,
)
    requires
        !fixer.enabled || !fixer.apply_fix,
    ensures
        fixer.rewritten(kind, bytes, is_header) == bytes,
{
}

// ---------------------------------------------------------------------------
// Whole sessions

/// The state once a list of media tags, given by type and raw timestamp, has passed.
pub open spec fn session(fixer: TimestampFixer, tags: Seq<(u8, u32)>) -> TimestampFixer
    decreases tags.len(),
{
    if tags.len() == 0 {
        fixer
    } else {
        session(fixer, tags.drop_last()).after(tags.last().0, tags.last().1 as int, false)
    }
}

/// The repaired timestamp of one tag of the list.
pub open spec fn session_stamp(fixer: TimestampFixer, tags: Seq<(u8, u32)>, i: int) -> int {
    session(fixer, tags.take(i)).repaired(tags[i].0, tags[i].1 as int)
}

/// A tag keeps the state well formed and moves the time line by a bounded distance.
pub proof fn lemma_after_bounded(fixer: TimestampFixer, kind: u8, original: u32, bound: int)
    requires
        fixer.wf(),
        fixer.within(bound),
        0 <= bound <= TIMELINE_LIMIT,
    ensures
        fixer.after(kind, original as int, false).wf(),
        fixer.after(kind, original as int, false).within(bound + TAG_REACH),
        fixer.after(kind, original as int, false).enabled == fixer.enabled,
        fixer.after(kind, original as int, false).apply_fix == fixer.apply_fix,
{
}

/// The state stays well formed through a session, and the time line grows no faster than the
/// number of tags.
pub proof fn law_session_bounded(fixer: TimestampFixer, tags: Seq<(u8, u32)>)
    requires
        fixer.wf(),
        fixer.within(0),
        tags.len() * TAG_REACH <= TIMELINE_LIMIT,
    ensures
        session(fixer, tags).wf(),
        session(fixer, tags).within(tags.len() * TAG_REACH),
        session(fixer, tags).enabled == fixer.enabled,
        session(fixer, tags).apply_fix == fixer.apply_fix,
    decreases tags.len(),
{
    if tags.len() > 0 {
        law_session_bounded(fixer, tags.drop_last());
        lemma_after_bounded(
            session(fixer, tags.drop_last()),
            tags.last().0,
            tags.last().1,
            (tags.len() - 1) * TAG_REACH,
        );
    }
}

proof fn lemma_session_floor(fixer: TimestampFixer, tags: Seq<(u8, u32)>, i: int, k: int, kind: u8)
    requires
        fixer.wf(),
        fixer.within(0),
        fixer.enabled,
        fixer.apply_fix,
        tags.len() * TAG_REACH <= TIMELINE_LIMIT,
        kind == AUDIO_TAG || kind == VIDEO_TAG,
        0 <= i < k <= tags.len(),
        tags[i].0 == kind,
    ensures
        session(fixer, tags.take(k)).prev_fixed(kind) matches Some(prev) && prev >= session_stamp(
            fixer,
            tags,
            i,
        ),
    decreases k,
{
    let before = session(fixer, tags.take(k - 1));
    assert(tags.take(k).drop_last() =~= tags.take(k - 1));
    law_session_bounded(fixer, tags.take(k - 1));
    lemma_after_bounded(before, tags[k - 1].0, tags[k - 1].1, (k - 1) * TAG_REACH);
    if i < k - 1 {
        lemma_session_floor(fixer, tags, i, k - 1, kind);
        law_stream_monotonic(before, kind, tags[k - 1].1);
    }
}

/// Over a whole session the repaired timestamps of the audio stream strictly increase, and so
/// do those of the video stream, for any raw timestamps in any interleaving.
pub proof fn law_session_monotonic(
    fixer: TimestampFixer,
    tags: Seq<(u8, u32)>,
    i: int,
    j: int,
)
    requires
        fixer.wf(),
        fixer.within(0),
        fixer.enabled,
        fixer.apply_fix,
        tags.len() * TAG_REACH <= TIMELINE_LIMIT,
        0 <= i < j < tags.len(),
        tags[i].0 == tags[j].0,
        tags[i].0 == AUDIO_TAG || tags[i].0 == VIDEO_TAG,
    ensures
        session_stamp(fixer, tags, i) < session_stamp(fixer, tags, j),
{
    lemma_session_floor(fixer, tags, i, j, tags[i].0);
    law_session_bounded(fixer, tags.take(j));
    law_stream_monotonic(session(fixer, tags.take(j)), tags[j].0, tags[j].1);
}

/// The raw timestamp of the last tag of a stream.
pub open spec fn last_raw(tags: Seq<(u8, u32)>, kind: u8) -> Option<u32>
    decreases tags.len(),
{
    if tags.len() == 0 {
        None
    } else if tags.last().0 == kind {
        Some(tags.last().1)
    } else {
        last_raw(tags.drop_last(), kind)
    }
}

/// Tells whether a list of audio and video tags runs steadily: none lies before the first one, and
/// within each stream the raw timestamps rise, without a jump.
pub open spec fn steady(tags: Seq<(u8, u32)>) -> bool {
    forall|n: int|
        0 <= n < tags.len() ==> {
            &&& (#[trigger] tags[n]).0 == AUDIO_TAG || tags[n].0 == VIDEO_TAG
            &&& tags[n].1 >= tags[0].1
            &&& last_raw(tags.take(n), tags[n].0) matches Some(prev) ==> 0 < tags[n].1 - prev
                <= TIMESTAMP_JUMP_THRESHOLD_MS
        }
}

/// Tells whether a state has followed a stream at the distance of the first tag.
spec fn follows(fixer: TimestampFixer, tags: Seq<(u8, u32)>, kind: u8) -> bool {
    match last_raw(tags, kind) {
        Some(prev) => fixer.prev_original(kind) == Some(prev as i64) && fixer.prev_fixed(kind)
            == Some((prev - tags[0].1) as i64),
        None => fixer.prev_original(kind) is None && fixer.prev_fixed(kind) is None,
    }
}

proof fn lemma_steady(tags: Seq<(u8, u32)>, n: int)
    requires
        steady(tags),
        0 <= n <= tags.len(),
    ensures
        ({
            let f = session(TimestampFixer::initial(true, true), tags.take(n));
            &&& f.enabled && f.apply_fix
            &&& n == 0 ==> f.last_original is None
            &&& n > 0 ==> f.last_original is Some && f.current_offset == tags[0].1
            &&& follows(f, tags.take(n), AUDIO_TAG)
            &&& follows(f, tags.take(n), VIDEO_TAG)
        }),
    decreases n,
{
    if n > 0 {
        lemma_steady(tags, n - 1);
        let before = tags.take(n - 1);
        let f = session(TimestampFixer::initial(true, true), before);
        assert(tags.take(n).drop_last() =~= before);
        assert(tags.take(n).last() == tags[n - 1]);
        assert(tags.take(n)[0] == tags[0]);
        if n > 1 {
            assert(before[0] == tags[0]);
        } else {
            assert(before =~= Seq::<(u8, u32)>::empty());
        }
        assert(f.repaired(tags[n - 1].0, tags[n - 1].1 as int) == tags[n - 1].1 - tags[0].1);
    }
}

/// A time line is never stretched: over a whole session of audio and video tags that run steadily,
/// in any interleaving, every tag keeps its distance from the first one, which begins at zero.
pub proof fn law_session_no_stretch(tags: Seq<(u8, u32)>, i: int)
    requires
        steady(tags),
        0 <= i < tags.len(),
    ensures
        session_stamp(TimestampFixer::initial(true, true), tags, i) == tags[i].1 - tags[0].1,
{
    lemma_steady(tags, i);
    let before = tags.take(i);
    if i > 0 {
        assert(before[0] == tags[0]);
    }
    assert(tags[i].0 == AUDIO_TAG || tags[i].0 == VIDEO_TAG);
}

// ---------------------------------------------------------------------------
// Sessions with gaps

/// The place of the last tag of a stream among the first ones of a list.
pub open spec fn last_at(tags: Seq<(u8, u32)>, n: int, kind: u8) -> Option<int>
    decreases n,
{
    if n <= 0 {
        None
    } else if tags[n - 1].0 == kind {
        Some(n - 1)
    } else {
        last_at(tags, n - 1, kind)
    }
}

/// Tells whether a tag lies more than half a second from the one before it in its own stream.
pub open spec fn leaps(tags: Seq<(u8, u32)>, i: int) -> bool {
    match last_at(tags, i, tags[i].0) {
        Some(p) => tags[i].1 - tags[p].1 > 500 || tags[p].1 - tags[i].1 > 500,
        None => false,
    }
}

/// The tag that the time line hangs on where a tag comes in: the last one that leapt, else the
/// first of all.
pub open spec fn anchor(tags: Seq<(u8, u32)>, i: int) -> int
    decreases i,
{
    if i <= 0 {
        0
    } else if leaps(tags, i) {
        i
    } else {
        anchor(tags, i - 1)
    }
}

/// The step to a tag in its own stream: its distance from the one before it where that is likely,
/// from 20 to 24 milliseconds of sound and from 15 to 50 of pictures, and else 22 and 33.
pub open spec fn own_step(tags: Seq<(u8, u32)>, i: int) -> int {
    let sound = tags[i].0 == 8;
    let usual = if sound {
        22int
    } else {
        33
    };
    match last_at(tags, i, tags[i].0) {
        Some(p) => {
            let d = tags[i].1 - tags[p].1;
            if (sound && 20 <= d <= 24) || (!sound && 15 <= d <= 50) {
                d
            } else {
                usual
            }
        },
        None => usual,
    }
}

/// The repaired timestamp of a tag, in a session from its beginning.
pub open spec fn stamp(tags: Seq<(u8, u32)>, i: int) -> int {
    session_stamp(TimestampFixer::initial(true, true), tags, i)
}

/// Where a stream goes on behind the first tags of a list: a step behind its last one.
pub open spec fn stream_end(tags: Seq<(u8, u32)>, n: int, kind: u8) -> int {
    match last_at(tags, n, kind) {
        Some(p) => stamp(tags, p) + own_step(tags, p),
        None => 0,
    }
}

/// Where the time line goes on behind the first tags of a list: behind both streams.
pub open spec fn line_end(tags: Seq<(u8, u32)>, n: int) -> int {
    if stream_end(tags, n, 8) >= stream_end(tags, n, 9) {
        stream_end(tags, n, 8)
    } else {
        stream_end(tags, n, 9)
    }
}

/// Tells whether a list holds tags of sound and pictures alone, no more than the time line has room
/// for.
pub open spec fn media(tags: Seq<(u8, u32)>) -> bool {
    &&& tags.len() * TAG_REACH <= TIMELINE_LIMIT
    &&& forall|n: int|
        0 <= n < tags.len() ==> (#[trigger] tags[n]).0 == AUDIO_TAG || tags[n].0 == VIDEO_TAG
}

spec fn knows(
    f: TimestampFixer,
    channel: TimestampChannelState,
    tags: Seq<(u8, u32)>,
    n: int,
    kind: u8,
) -> bool {
    match last_at(tags, n, kind) {
        Some(p) => {
            &&& 0 <= p < n
            &&& channel.last_original == Some(tags[p].1 as i64)
            &&& channel.last_fixed matches Some(fixed) && fixed == stamp(tags, p)
            &&& channel.last_step == own_step(tags, p)
        },
        None => channel.last_original is None && channel.last_fixed is None,
    }
}

proof fn lemma_last_at(tags: Seq<(u8, u32)>, n: int, kind: u8)
    ensures
        last_at(tags, n, kind) matches Some(p) ==> 0 <= p < n && tags[p].0 == kind,
    decreases n,
{
    if n > 0 && tags[n - 1].0 != kind {
        lemma_last_at(tags, n - 1, kind);
    }
}

proof fn lemma_anchor(tags: Seq<(u8, u32)>, i: int)
    requires
        i >= 0,
    ensures
        0 <= anchor(tags, i) <= i,
        anchor(tags, i) > 0 ==> leaps(tags, anchor(tags, i)),
        forall|n: int| anchor(tags, i) < n <= i ==> !#[trigger] leaps(tags, n),
    decreases i,
{
    if i > 0 && !leaps(tags, i) {
        lemma_anchor(tags, i - 1);
    }
}

proof fn lemma_state(tags: Seq<(u8, u32)>, n: int)
    requires
        media(tags),
        0 <= n <= tags.len(),
    ensures
        ({
            let f = session(TimestampFixer::initial(true, true), tags.take(n));
            &&& f.wf() && f.enabled && f.apply_fix
            &&& n == 0 ==> f.last_original is None && f.next_target == 0
            &&& n > 0 ==> f.last_original is Some && f.current_offset == tags[anchor(
                tags,
                n - 1,
            )].1 - stamp(tags, anchor(tags, n - 1))
            &&& knows(f, f.audio, tags, n, AUDIO_TAG)
            &&& knows(f, f.video, tags, n, VIDEO_TAG)
            &&& f.next_target == line_end(tags, n)
            &&& f.audio.fallback == 22 && f.audio.min_step == 20 && f.audio.max_step == 24
            &&& f.video.fallback == 33 && f.video.min_step == 15 && f.video.max_step == 50
        }),
    decreases n,
{
    let start = TimestampFixer::initial(true, true);
    law_session_bounded(start, tags.take(n));
    if n > 0 {
        lemma_state(tags, n - 1);
        let f = session(start, tags.take(n - 1));
        let kind = tags[n - 1].0;
        let raw = tags[n - 1].1;
        assert(tags.take(n).drop_last() =~= tags.take(n - 1));
        assert(tags.take(n).last() == tags[n - 1]);
        law_session_bounded(start, tags.take(n - 1));
        lemma_after_bounded(f, kind, raw, (n - 1) * TAG_REACH);
        let g = session(start, tags.take(n));
        assert(g == f.after(kind, raw as int, false));
        assert(stamp(tags, n - 1) == f.repaired(kind, raw as int));
        lemma_last_at(tags, n - 1, kind);
        lemma_anchor(tags, n - 1);
        assert(kind == AUDIO_TAG || kind == VIDEO_TAG);
        assert(f.jumps(kind, raw as int) == leaps(tags, n - 1));
        assert(f.step_to(kind, raw as int) == own_step(tags, n - 1));
        if n == 1 {
            assert(f.current_offset == 0);
        }
        if leaps(tags, n - 1) {
            assert(f.repaired(kind, raw as int) == f.next_target);
        }
        assert(knows(g, g.audio, tags, n, AUDIO_TAG));
        assert(knows(g, g.video, tags, n, VIDEO_TAG));
    } else {
        assert(tags.take(0) =~= Seq::<(u8, u32)>::empty());
    }
}

/// Every repaired timestamp of a session follows from the raw ones. The first is zero. A tag that
/// leaps goes on where the time line ended. Any other tag keeps its distance from the last one that
/// leapt, or from the first; only where that would not bring its own stream on, it moves by one step
/// of its stream instead.
pub proof fn law_session_stamps(tags: Seq<(u8, u32)>, i: int)
    requires
        media(tags),
        0 <= i < tags.len(),
    ensures
        i == 0 ==> stamp(tags, i) == 0,
        leaps(tags, i) ==> stamp(tags, i) == line_end(tags, i),
        i > 0 && !leaps(tags, i) ==> ({
            let a = anchor(tags, i);
            let kept = stamp(tags, a) + tags[i].1 - tags[a].1;
            match last_at(tags, i, tags[i].0) {
                Some(p) => stamp(tags, i) == (if kept > stamp(tags, p) {
                    kept
                } else {
                    stamp(tags, p) + own_step(tags, i)
                }),
                None => stamp(tags, i) == (if kept > 0 {
                    kept
                } else {
                    0
                }),
            }
        }),
{
    lemma_state(tags, i);
    let f = session(TimestampFixer::initial(true, true), tags.take(i));
    let kind = tags[i].0;
    lemma_last_at(tags, i, kind);
    lemma_anchor(tags, i);
    assert(f.jumps(kind, tags[i].1 as int) == leaps(tags, i));
    assert(f.step_to(kind, tags[i].1 as int) == own_step(tags, i));
}

/// Behind a jump too, tags keep their distance: where a tag of a stream leaps, and no tag behind it
/// does, the later tags of that stream that rise from it are as far from it in the repaired time as
/// they were in the raw one.
pub proof fn law_distance_kept_behind_jump(tags: Seq<(u8, u32)>, j: int, i: int)
    requires
        media(tags),
        0 <= j <= i < tags.len(),
        tags[i].0 == tags[j].0,
        leaps(tags, j),
        forall|n: int| j < n <= i ==> !#[trigger] leaps(tags, n),
        forall|n: int|
            j < n <= i && tags[n].0 == tags[j].0 ==> last_at(tags, n, tags[j].0) is Some
                && (#[trigger] tags[n]).1 > tags[last_at(tags, n, tags[j].0)->0].1,
    ensures
        stamp(tags, i) - stamp(tags, j) == tags[i].1 - tags[j].1,
    decreases i,
{
    if i > j {
        let kind = tags[j].0;
        law_session_stamps(tags, i);
        assert(!leaps(tags, i));
        lemma_anchor_at(tags, j, i);
        lemma_last_at(tags, i, kind);
        lemma_last_behind(tags, i, kind, j);
        let p = last_at(tags, i, kind)->0;
        assert(tags[i].1 > tags[p].1);
        law_distance_kept_behind_jump(tags, j, p);
    }
}

proof fn lemma_anchor_at(tags: Seq<(u8, u32)>, j: int, i: int)
    requires
        0 <= j <= i,
        leaps(tags, j),
        forall|n: int| j < n <= i ==> !#[trigger] leaps(tags, n),
    ensures
        anchor(tags, i) == j,
    decreases i,
{
    if i > j {
        assert(!leaps(tags, i));
        lemma_anchor_at(tags, j, i - 1);
    } else if j == 0 {
        assert(last_at(tags, 0, tags[0].0) is None);
    }
}

proof fn lemma_last_behind(tags: Seq<(u8, u32)>, n: int, kind: u8, j: int)
    requires
        0 <= j < n,
        tags[j].0 == kind,
    ensures
        last_at(tags, n, kind) matches Some(p) && j <= p < n && tags[p].0 == kind,
    decreases n,
{
    if tags[n - 1].0 != kind {
        lemma_last_behind(tags, n - 1, kind, j);
    }
}

/// A gap closes and nothing overlaps: a tag that leaps comes behind every tag before it, at most
/// one step, of a twentieth of a second at most, behind one of them.
pub proof fn law_gap_closes(tags: Seq<(u8, u32)>, i: int, n: int)
    requires
        media(tags),
        0 <= n < i < tags.len(),
        leaps(tags, i),
    ensures
        stamp(tags, i) > stamp(tags, n),
        exists|p: int| 0 <= p < i && 0 < stamp(tags, i) - #[trigger] stamp(tags, p) <= 50,
{
    let start = TimestampFixer::initial(true, true);
    law_session_stamps(tags, i);
    assert(tags[n].0 == AUDIO_TAG || tags[n].0 == VIDEO_TAG);
    lemma_last_behind(tags, i, tags[n].0, n);
    let p = last_at(tags, i, tags[n].0)->0;
    if n < p {
        law_session_monotonic(start, tags, n, p);
    }
    lemma_last_at(tags, i, 8);
    lemma_last_at(tags, i, 9);
    let q = if stream_end(tags, i, 8) >= stream_end(tags, i, 9) {
        last_at(tags, i, 8)
    } else {
        last_at(tags, i, 9)
    };
    if q is Some {
        assert(0 < stamp(tags, i) - stamp(tags, q->0) <= 50);
    } else {
        lemma_state(tags, p);
        law_stream_monotonic(session(start, tags.take(p)), tags[p].0, tags[p].1);
    }
}

/// A jump is reported where a tag leaps and nowhere else: how far it leapt in the raw time, its raw
/// and its repaired timestamp, and how far they lie apart.
pub proof fn law_jump_reported(tags: Seq<(u8, u32)>, i: int)
    requires
        media(tags),
        0 <= i < tags.len(),
    ensures
        ({
            let f = session(TimestampFixer::initial(true, true), tags.take(i));
            match f.reported(tags[i].0, tags[i].1 as int, false) {
                Some(info) => {
                    &&& leaps(tags, i)
                    &&& last_at(tags, i, tags[i].0) matches Some(p) && info.diff == tags[i].1
                        - tags[p].1
                    &&& info.original == tags[i].1
                    &&& info.fixed == stamp(tags, i)
                    &&& info.offset == tags[i].1 - stamp(tags, i)
                },
                None => !leaps(tags, i),
            }
        }),
{
    let start = TimestampFixer::initial(true, true);
    lemma_state(tags, i);
    law_session_stamps(tags, i);
    law_session_bounded(start, tags.take(i));
    let f = session(start, tags.take(i));
    lemma_last_at(tags, i, tags[i].0);
    assert(tags[i].0 == AUDIO_TAG || tags[i].0 == VIDEO_TAG);
    lemma_after_bounded(f, tags[i].0, tags[i].1, i * TAG_REACH);
}

/// A configuration of a stream gets the timestamp of the last tag of its stream, script data that
/// of the end of the time line, and neither moves the time line.
pub proof fn law_header_keeps_its_place(tags: Seq<(u8, u32)>, kind: u8, bytes: Seq<u8>)
    requires
        media(tags),
        bytes.len() >= 8,
        line_end(tags, tags.len() as int) <= u32::MAX,
    ensures
        ({
            let n = tags.len() as int;
            let f = session(TimestampFixer::initial(true, true), tags);
            let written = timestamp_of(f.rewritten(kind, bytes, true));
            &&& f.after(kind, timestamp_of(bytes), true) == f
            &&& kind == 8 || kind == 9 ==> written == (match last_at(tags, n, kind) {
                Some(p) => stamp(tags, p),
                None => 0,
            })
            &&& kind == 18 ==> written == line_end(tags, n)
        }),
{
    let n = tags.len() as int;
    assert(tags.take(n) =~= tags);
    lemma_state(tags, n);
    lemma_last_at(tags, n, kind);
    let f = session(TimestampFixer::initial(true, true), tags);
    crate::flv::law_timestamp_round_trip(bytes, f.header_stamp(kind) as u32);
}

/// The bytes of a media tag hold its repaired timestamp, and nothing else of them changes.
pub proof fn law_stamp_is_written(tags: Seq<(u8, u32)>, i: int, bytes: Seq<u8>, k: int)
    requires
        media(tags),
        0 <= i < tags.len(),
        bytes.len() >= 8,
        timestamp_of(bytes) == tags[i].1,
        stamp(tags, i) <= u32::MAX,
    ensures
        ({
            let f = session(TimestampFixer::initial(true, true), tags.take(i));
            let out = f.rewritten(tags[i].0, bytes, false);
            &&& timestamp_of(out) == stamp(tags, i)
            &&& out.len() == bytes.len()
            &&& 0 <= k < bytes.len() && !(4 <= k < 8) ==> out[k] == bytes[k]
        }),
{
    let f = session(TimestampFixer::initial(true, true), tags.take(i));
    lemma_state(tags, i);
    law_stream_monotonic(f, tags[i].0, tags[i].1);
    crate::flv::law_timestamp_round_trip(bytes, stamp(tags, i) as u32);
}

/// Where jumps are only watched for, one is reported where a tag lies more than half a second from
/// the one before it, in either stream.
pub proof fn law_watched_jump_reported(fixer: TimestampFixer, kind: u8, first: u32, second: u32)
    requires
        fixer.enabled,
        !fixer.apply_fix,
    ensures
        ({
            let next = fixer.after(kind, first as int, false);
            let r = next.reported(kind, second as int, false);
            &&& (r is Some) == (second - first > 500 || first - second > 500)
            &&& r matches Some(info) ==> info.diff == second - first && info.original == second
                && info.fixed == second && info.offset == 0
        }),
{
}

} // verus!
