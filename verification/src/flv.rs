//! The FLV container: tags, header detection, the incremental stream parser and the
//! cache of what every new file has to begin with.

use vstd::prelude::*;

verus! {

/// The tag type of audio data.
pub const AUDIO_TAG: u8 = 8;

/// The tag type of video data.
pub const VIDEO_TAG: u8 = 9;

/// The tag type of script data.
pub const SCRIPT_TAG: u8 = 18;

/// The length of the file header with the size field that follows it.
pub const FLV_HEADER_LEN: usize = 13;

/// The length of the header of a tag.
pub const TAG_HEADER_LEN: usize = 11;

/// One tag as it stands in the stream, with the place of its payload.
pub struct FlvTag {
    pub tag_type: u8,
    pub bytes: Vec<u8>,
    pub data_offset: usize,
    pub data_len: usize,
}

impl FlvTag {
    /// The payload lies within the bytes of the tag.
    pub open spec fn wf(&self) -> bool {
        self.data_offset + self.data_len <= self.bytes@.len()
    }

    /// The payload of the tag.
    pub open spec fn payload(&self) -> Seq<u8> {
        self.bytes@.subrange(self.data_offset as int, self.data_offset + self.data_len)
    }

    /// The payload of the tag.
    pub fn data(&self) -> (r: &[u8])
        requires
            self.wf(),
        ensures
            r@ == self.payload(),
    {
        let len: usize = self.bytes.len();
        assert(self.data_offset + self.data_len <= len);
        vstd::slice::slice_subrange(
            self.bytes.as_slice(),
            self.data_offset,
            self.data_offset + self.data_len,
        )
    }
}

/// The timestamp in milliseconds that the bytes of a tag carry: three low bytes in big
/// endian order, then the high byte. Zero where the bytes end before it.
pub open spec fn timestamp_of(bytes: Seq<u8>) -> int {
    if bytes.len() < 8 {
        0
    } else {
        bytes[7] * 0x100_0000 + bytes[4] * 0x1_0000 + bytes[5] * 0x100 + bytes[6]
    }
}

/// The bytes of a tag with another timestamp; bytes too short to hold one are kept.
pub open spec fn with_timestamp(bytes: Seq<u8>, timestamp: int) -> Seq<u8> {
    if bytes.len() < 8 {
        bytes
    } else {
        bytes.update(4, (timestamp / 0x1_0000 % 0x100) as u8).update(
            5,
            (timestamp / 0x100 % 0x100) as u8,
        ).update(6, (timestamp % 0x100) as u8).update(7, (timestamp / 0x100_0000 % 0x100) as u8)
    }
}

/// A timestamp is in the range of the four bytes that hold it.
pub proof fn lemma_timestamp_range(bytes: Seq<u8>)
    ensures
        0 <= timestamp_of(bytes) <= u32::MAX,
{
}

/// Reading a timestamp gives back the one that was written, and nothing but its four bytes
/// changes.
pub proof fn law_timestamp_round_trip(bytes: Seq<u8>, timestamp: u32)
    requires
        bytes.len() >= 8,
    ensures
        timestamp_of(with_timestamp(bytes, timestamp as int)) == timestamp,
        with_timestamp(bytes, timestamp as int).len() == bytes.len(),
        forall|i: int|
            0 <= i < bytes.len() && !(4 <= i < 8) ==> with_timestamp(bytes, timestamp as int)[i]
                == bytes[i],
{
}

/// Writing the timestamp that a tag already carries changes nothing.
pub proof fn law_timestamp_rewrite(bytes: Seq<u8>)
    requires
        bytes.len() >= 8,
    ensures
        with_timestamp(bytes, timestamp_of(bytes)) == bytes,
{
    let t = timestamp_of(bytes);
    let (b4, b5, b6, b7) = (bytes[4] as int, bytes[5] as int, bytes[6] as int, bytes[7] as int);
    assert(t == (b7 * 0x1_0000 + b4 * 0x100 + b5) * 0x100 + b6);
    assert(t % 0x100 == b6);
    assert(t / 0x100 == b7 * 0x1_0000 + b4 * 0x100 + b5);
    assert(t / 0x1_0000 == b7 * 0x100 + b4);
    assert(t / 0x100_0000 == b7);
    assert(with_timestamp(bytes, t) =~= bytes);
}

/// Reads the timestamp of a tag.
pub fn parse_flv_timestamp(tag: &FlvTag) -> (r: u32)
    ensures
        r == timestamp_of(tag.bytes@),
{
    if tag.bytes.len() < 8 {
        return 0;
    }
    (tag.bytes[7] as u32) * 0x100_0000 + (tag.bytes[4] as u32) * 0x1_0000 + (tag.bytes[5] as u32)
        * 0x100 + (tag.bytes[6] as u32)
}

/// Writes the timestamp of a tag.
pub fn write_flv_timestamp(tag: &mut FlvTag, timestamp: u32)
    ensures
        final(tag).bytes@ == with_timestamp(old(tag).bytes@, timestamp as int),
        final(tag).tag_type == old(tag).tag_type,
        final(tag).data_offset == old(tag).data_offset,
        final(tag).data_len == old(tag).data_len,
{
    if tag.bytes.len() < 8 {
        return ;
    }
    tag.bytes.set(4, (timestamp / 0x1_0000 % 0x100) as u8);
    tag.bytes.set(5, (timestamp / 0x100 % 0x100) as u8);
    tag.bytes.set(6, (timestamp % 0x100) as u8);
    tag.bytes.set(7, (timestamp / 0x100_0000 % 0x100) as u8);
}

/// The nearest value that a timestamp can hold.
pub open spec fn clamped(value: int) -> int {
    if value <= 0 {
        0
    } else if value > u32::MAX {
        u32::MAX as int
    } else {
        value
    }
}

/// The nearest value that a timestamp can hold.
pub fn clamp_timestamp(value: i64) -> (r: u32)
    ensures
        r == clamped(value as int),
{
    if value <= 0 {
        return 0;
    }
    if value > 0xffff_ffff {
        return u32::MAX;
    }
    value as u32
}

/// The timestamp base of a file once a tag with the given bytes is written: the first
/// timestamp seen.
pub open spec fn segment_base(base: Option<i64>, bytes: Seq<u8>) -> Option<i64> {
    if bytes.len() < 8 || base is Some {
        base
    } else {
        Some(timestamp_of(bytes) as i64)
    }
}

/// The bytes of a tag with its timestamp counted from the base of its file.
pub open spec fn rebased(base: Option<i64>, bytes: Seq<u8>) -> Seq<u8> {
    match segment_base(base, bytes) {
        Some(b) => with_timestamp(bytes, clamped(timestamp_of(bytes) - b)),
        None => bytes,
    }
}

/// Counts the timestamp of a tag from the first timestamp of its file.
pub fn rebase_tag_to_segment_start(tag: &mut FlvTag, base: &mut Option<i64>)
    requires
        old(tag).bytes@.len() >= 8 ==> (*old(base) matches Some(b) ==> timestamp_of(
            old(tag).bytes@,
        ) - b <= i64::MAX),
    ensures
        *final(base) == segment_base(*old(base), old(tag).bytes@),
        final(tag).bytes@ == rebased(*old(base), old(tag).bytes@),
        final(tag).tag_type == old(tag).tag_type,
        final(tag).data_offset == old(tag).data_offset,
        final(tag).data_len == old(tag).data_len,
{
    if tag.bytes.len() < 8 {
        return ;
    }
    let ts: i64 = parse_flv_timestamp(tag) as i64;
    let base_ts: i64 = match *base {
        Some(b) => b,
        None => ts,
    };
    *base = Some(base_ts);
    write_flv_timestamp(tag, clamp_timestamp(ts - base_ts));
}

/// A file begins at zero: its first tag gets the timestamp zero, and a later tag the distance
/// of its own timestamp to the first, where it is not earlier.
pub proof fn law_segment_starts_at_zero(first: Seq<u8>, later: Seq<u8>)
    requires
        first.len() >= 8,
        later.len() >= 8,
    ensures
        timestamp_of(rebased(None, first)) == 0,
        timestamp_of(first) <= timestamp_of(later) ==> timestamp_of(
            rebased(segment_base(None, first), later),
        ) == timestamp_of(later) - timestamp_of(first),
        timestamp_of(first) > timestamp_of(later) ==> timestamp_of(
            rebased(segment_base(None, first), later),
        ) == 0,
{
    lemma_timestamp_range(first);
    lemma_timestamp_range(later);
    law_timestamp_round_trip(first, 0);
    law_timestamp_round_trip(later, clamped(timestamp_of(later) - timestamp_of(first)) as u32);
}

// ---------------------------------------------------------------------------
// What a tag holds

/// Tells whether the payload is the configuration of an AAC stream.
pub open spec fn audio_header(data: Seq<u8>) -> bool {
    data.len() >= 2 && data[0] / 16 == 10 && data[1] == 0
}

/// Tells whether the codec in the first payload byte is AVC or HEVC.
pub open spec fn avc_or_hevc(first: u8) -> bool {
    first % 16 == 7 || first % 16 == 12
}

/// Tells whether the payload is the configuration of an AVC or HEVC stream.
pub open spec fn video_header(data: Seq<u8>) -> bool {
    data.len() >= 2 && avc_or_hevc(data[0]) && data[1] == 0
}

/// Tells whether a tag is a video frame from which decoding can start.
pub open spec fn keyframe(tag_type: u8, data: Seq<u8>) -> bool {
    &&& tag_type == VIDEO_TAG
    &&& data.len() >= 1
    &&& data[0] / 16 == 1
    &&& avc_or_hevc(data[0]) ==> data.len() >= 2 && data[1] == 1
}

/// Tells whether the payload is the configuration of an AAC stream.
pub fn is_audio_header_tag(data: &[u8]) -> (r: bool)
    ensures
        r == audio_header(data@),
{
    if data.len() < 2 {
        return false;
    }
    data[0] / 16 == 10 && data[1] == 0
}

/// Tells whether the payload is the configuration of an AVC or HEVC stream.
pub fn is_video_header_tag(data: &[u8]) -> (r: bool)
    ensures
        r == video_header(data@),
{
    if data.len() < 2 {
        return false;
    }
    let codec_id: u8 = data[0] % 16;
    (codec_id == 7 || codec_id == 12) && data[1] == 0
}

/// Tells whether a tag is a video frame from which decoding can start.
pub fn is_video_keyframe(tag: &FlvTag) -> (r: bool)
    requires
        tag.wf(),
    ensures
        r == keyframe(tag.tag_type, tag.payload()),
{
    if tag.tag_type != VIDEO_TAG {
        return false;
    }
    let data = tag.data();
    if data.len() == 0 {
        return false;
    }
    if data[0] / 16 != 1 {
        return false;
    }
    let codec_id: u8 = data[0] % 16;
    if (codec_id == 7 || codec_id == 12) && (data.len() < 2 || data[1] != 1) {
        return false;
    }
    true
}

/// Tells whether a tag carries media, so that a new file may begin with it.
pub open spec fn opens_segment(tag_type: u8, data: Seq<u8>) -> bool {
    &&& tag_type != SCRIPT_TAG
    &&& !(tag_type == AUDIO_TAG && audio_header(data))
    &&& !(tag_type == VIDEO_TAG && video_header(data))
}

/// Tells whether a tag carries media, so that a new file may begin with it.
pub fn should_open_segment_on_tag(tag: &FlvTag) -> (r: bool)
    requires
        tag.wf(),
    ensures
        r == opens_segment(tag.tag_type, tag.payload()),
{
    if tag.tag_type == SCRIPT_TAG {
        return false;
    }
    if tag.tag_type == AUDIO_TAG && is_audio_header_tag(tag.data()) {
        return false;
    }
    if tag.tag_type == VIDEO_TAG && is_video_header_tag(tag.data()) {
        return false;
    }
    true
}

/// A frame from which decoding can start is media, never a stream configuration.
pub proof fn law_keyframe_opens_segment(tag_type: u8, data: Seq<u8>)
    requires
        keyframe(tag_type, data),
    ensures
        opens_segment(tag_type, data),
{
}

/// Tells whether an audio tag is to be kept as the configuration of its stream: for AAC the
/// configuration packet, for any other format the first tag.
pub open spec fn keeps_audio_header(data: Seq<u8>, has_header: bool) -> bool {
    data.len() >= 2 && (if data[0] / 16 == 10 {
        data[1] == 0
    } else {
        !has_header
    })
}

/// Tells whether a video tag is to be kept as the configuration of its stream: for AVC and
/// HEVC the configuration packet, for any other codec the first tag.
pub open spec fn keeps_video_header(data: Seq<u8>, has_header: bool) -> bool {
    data.len() >= 2 && (if avc_or_hevc(data[0]) {
        data[1] == 0
    } else {
        !has_header
    })
}

/// Tells whether an audio tag is to be kept as the configuration of its stream.
pub fn is_audio_header(data: &[u8], has_header: bool) -> (r: bool)
    ensures
        r == keeps_audio_header(data@, has_header),
{
    if data.len() < 2 {
        return false;
    }
    if data[0] / 16 == 10 {
        data[1] == 0
    } else {
        !has_header
    }
}

/// Tells whether a video tag is to be kept as the configuration of its stream.
pub fn is_video_header(data: &[u8], has_header: bool) -> (r: bool)
    ensures
        r == keeps_video_header(data@, has_header),
{
    if data.len() < 2 {
        return false;
    }
    let codec_id: u8 = data[0] % 16;
    if codec_id == 7 || codec_id == 12 {
        data[1] == 0
    } else {
        !has_header
    }
}

/// Tells whether a start code followed by a unit of the given type stands at `i`.
pub open spec fn unit_at(payload: Seq<u8>, i: int, unit: int) -> bool {
    &&& 0 <= i && i + 4 < payload.len()
    &&& payload[i] == 0 && payload[i + 1] == 0 && payload[i + 2] == 0 && payload[i + 3] == 1
    &&& payload[i + 4] % 32 == unit
}

/// Tells whether the payload of a video tag holds a sequence and a picture parameter set
/// behind start codes.
pub open spec fn annexb_signature(data: Seq<u8>) -> bool {
    &&& exists|i: int| unit_at(data.skip(2), i, 7)
    &&& exists|i: int| unit_at(data.skip(2), i, 8)
}

/// Tells whether the payload of a video tag holds a sequence and a picture parameter set
/// behind start codes.
pub fn contains_annexb_signature(data: &[u8]) -> (r: bool)
    ensures
        r == (data@.len() >= 6 && annexb_signature(data@)),
{
    if data.len() < 6 {
        return false;
    }
    let ghost payload = data@.skip(2);
    let mut has_sps: bool = false;
    let mut has_pps: bool = false;
    let mut i: usize = 2;
    while data.len() - i > 4
        invariant
            data@.len() >= 6,
            2 <= i <= data@.len(),
            payload == data@.skip(2),
            !(has_sps && has_pps),
            has_sps <==> exists|k: int| k < i - 2 && unit_at(payload, k, 7),
            has_pps <==> exists|k: int| k < i - 2 && unit_at(payload, k, 8),
        decreases data.len() - i,
    {
        let ghost at = i - 2;
        assert(payload[at] == data@[i as int]);
        assert(payload[at + 1] == data@[i + 1]);
        assert(payload[at + 2] == data@[i + 2]);
        assert(payload[at + 3] == data@[i + 3]);
        assert(payload[at + 4] == data@[i + 4]);
        if data[i] == 0 && data[i + 1] == 0 && data[i + 2] == 0 && data[i + 3] == 1 {
            let unit: u8 = data[i + 4] % 32;
            if unit == 7 {
                assert(unit_at(payload, at, 7));
                has_sps = true;
            } else if unit == 8 {
                assert(unit_at(payload, at, 8));
                has_pps = true;
            }
            if has_sps && has_pps {
                return true;
            }
            assert forall|k: int, u: int| k < at + 4 && unit_at(payload, k, u) implies k <= at by {
                if k > at {
                    assert(payload[at + 3] == 1);
                }
            }
            i += 4;
        } else {
            i += 1;
        }
    }
    false
}

/// A stream configuration tag as it is kept: with the timestamp zero.
pub open spec fn normalized_header(bytes: Seq<u8>) -> Seq<u8> {
    if bytes.len() >= TAG_HEADER_LEN {
        with_timestamp(bytes, 0)
    } else {
        bytes
    }
}

/// Copies a tag and sets its timestamp to zero.
pub fn normalize_header_tag(tag: &[u8]) -> (r: Vec<u8>)
    ensures
        r@ == normalized_header(tag@),
{
    let mut normalized: Vec<u8> = copy_range(tag, 0, tag.len());
    assert(normalized@ =~= tag@);
    if normalized.len() >= TAG_HEADER_LEN {
        normalized.set(4, 0);
        normalized.set(5, 0);
        normalized.set(6, 0);
        normalized.set(7, 0);
    }
    normalized
}

/// A copy of the bytes between two positions.
pub fn copy_range(bytes: &[u8], from: usize, to: usize) -> (r: Vec<u8>)
    requires
        from <= to <= bytes@.len(),
    ensures
        r@ == bytes@.subrange(from as int, to as int),
{
    let mut out: Vec<u8> = Vec::new();
    let mut i: usize = from;
    while i < to
        invariant
            from <= i <= to <= bytes@.len(),
            out@ == bytes@.subrange(from as int, i as int),
        decreases to - i,
    {
        out.push(bytes[i]);
        i += 1;
        assert(bytes@.subrange(from as int, i as int) =~= bytes@.subrange(from as int, i - 1).push(
            bytes@[i - 1],
        ));
    }
    out
}

/// Appends bytes.
pub fn append_bytes(out: &mut Vec<u8>, more: &[u8])
    ensures
        final(out)@ == old(out)@ + more@,
{
    let mut i: usize = 0;
    assert(out@ =~= old(out)@ + more@.take(0));
    while i < more.len()
        invariant
            i <= more@.len(),
            out@ == old(out)@ + more@.take(i as int),
        decreases more.len() - i,
    {
        out.push(more[i]);
        i += 1;
        assert(more@.take(i as int) =~= more@.take(i - 1).push(more@[i - 1]));
        assert(out@ =~= old(out)@ + more@.take(i as int));
    }
    assert(more@.take(i as int) =~= more@);
}

// ---------------------------------------------------------------------------
// The stream parser

/// The number that three bytes spell in big endian order.
pub open spec fn u24(bytes: Seq<u8>, at: int) -> int {
    bytes[at] * 0x1_0000 + bytes[at + 1] * 0x100 + bytes[at + 2]
}

/// Reads the number that the first three bytes spell; zero where there are fewer.
pub fn read_u24_be(slice: &[u8]) -> (r: usize)
    ensures
        slice@.len() < 3 ==> r == 0,
        slice@.len() >= 3 ==> r == u24(slice@, 0),
        r <= 0xff_ffff,
{
    if slice.len() < 3 {
        return 0;
    }
    (slice[0] as usize) * 0x1_0000 + (slice[1] as usize) * 0x100 + (slice[2] as usize)
}

/// The length of the tag that the bytes begin with: its header, its payload and the size
/// field behind it.
pub open spec fn tag_len(bytes: Seq<u8>) -> int {
    TAG_HEADER_LEN + u24(bytes, 1) + 4
}

/// Tells whether the bytes begin with a whole tag.
pub open spec fn has_tag(bytes: Seq<u8>) -> bool {
    bytes.len() >= TAG_HEADER_LEN && bytes.len() >= tag_len(bytes)
}

/// The whole tags that the bytes begin with.
pub open spec fn tags_of(bytes: Seq<u8>) -> Seq<Seq<u8>>
    decreases bytes.len(),
{
    if has_tag(bytes) {
        seq![bytes.take(tag_len(bytes))] + tags_of(bytes.skip(tag_len(bytes)))
    } else {
        Seq::empty()
    }
}

/// What is left behind the whole tags.
pub open spec fn rest_of(bytes: Seq<u8>) -> Seq<u8>
    decreases bytes.len(),
{
    if has_tag(bytes) {
        rest_of(bytes.skip(tag_len(bytes)))
    } else {
        bytes
    }
}

/// The concatenation of byte sequences.
pub open spec fn flatten(parts: Seq<Seq<u8>>) -> Seq<u8>
    decreases parts.len(),
{
    if parts.len() == 0 {
        Seq::empty()
    } else {
        parts[0] + flatten(parts.drop_first())
    }
}

/// An item that the parser hands out.
pub enum FlvParsedItem {
    Header(Vec<u8>),
    Tag(FlvTag),
}

/// What an item holds.
pub ghost enum ItemView {
    Header(Seq<u8>),
    Tag(Seq<u8>),
}

impl FlvParsedItem {
    /// What an item holds.
    pub open spec fn view(&self) -> ItemView {
        match self {
            FlvParsedItem::Header(bytes) => ItemView::Header(bytes@),
            FlvParsedItem::Tag(tag) => ItemView::Tag(tag.bytes@),
        }
    }

    /// The fields of a parsed tag agree with its bytes.
    pub open spec fn wf(&self) -> bool {
        match self {
            FlvParsedItem::Header(bytes) => bytes@.len() == FLV_HEADER_LEN,
            FlvParsedItem::Tag(tag) => parsed_tag(*tag),
        }
    }
}

/// The fields of a tag that the parser made agree with its bytes.
pub open spec fn parsed_tag(tag: FlvTag) -> bool {
    &&& tag.wf()
    &&& tag.bytes@.len() >= TAG_HEADER_LEN + 4
    &&& tag.tag_type == tag.bytes@[0]
    &&& tag.data_offset == TAG_HEADER_LEN
    &&& tag.data_len == tag.bytes@.len() - TAG_HEADER_LEN - 4
}

/// The views of a list of items.
pub open spec fn item_views(items: Seq<FlvParsedItem>) -> Seq<ItemView> {
    Seq::new(items.len(), |i: int| items[i]@)
}

/// The views of a list of tags.
pub open spec fn tag_items(tags: Seq<Seq<u8>>) -> Seq<ItemView> {
    Seq::new(tags.len(), |i: int| ItemView::Tag(tags[i]))
}

/// The state of the parser: the bytes not yet handed out, and whether the file header was.
pub struct FlvStreamParser {
    pub buffer: Vec<u8>,
    pub header_parsed: bool,
}

/// The model of the parser.
pub ghost struct ParserView {
    pub buffer: Seq<u8>,
    pub header_parsed: bool,
}

/// The signature that a file begins with.
pub open spec fn flv_signature(bytes: Seq<u8>) -> bool {
    bytes[0] == 0x46 && bytes[1] == 0x4c && bytes[2] == 0x56
}

impl ParserView {
    /// Tells whether the bytes at hand cannot be the beginning of a file.
    pub open spec fn mismatched(self) -> bool {
        !self.header_parsed && self.buffer.len() >= 3 && !flv_signature(self.buffer)
    }

    /// Tells whether the file header is still incomplete.
    pub open spec fn waiting(self) -> bool {
        !self.header_parsed && self.buffer.len() < FLV_HEADER_LEN
    }

    /// The items that the bytes at hand hold.
    pub open spec fn items(self) -> Seq<ItemView> {
        if self.waiting() {
            Seq::empty()
        } else if self.header_parsed {
            tag_items(tags_of(self.buffer))
        } else {
            seq![ItemView::Header(self.buffer.take(FLV_HEADER_LEN as int))] + tag_items(
                tags_of(self.buffer.skip(FLV_HEADER_LEN as int)),
            )
        }
    }

    /// The state once those items are handed out.
    pub open spec fn rest(self) -> ParserView {
        if self.waiting() {
            self
        } else if self.header_parsed {
            ParserView { buffer: rest_of(self.buffer), header_parsed: true }
        } else {
            ParserView {
                buffer: rest_of(self.buffer.skip(FLV_HEADER_LEN as int)),
                header_parsed: true,
            }
        }
    }

    /// The state with more bytes at hand.
    pub open spec fn fed(self, data: Seq<u8>) -> ParserView {
        ParserView { buffer: self.buffer + data, header_parsed: self.header_parsed }
    }
}

impl FlvStreamParser {
    /// The model of the parser.
    pub open spec fn view(&self) -> ParserView {
        ParserView { buffer: self.buffer@, header_parsed: self.header_parsed }
    }

    /// A parser at the beginning of a stream.
    pub fn new() -> (r: Self)
        ensures
            r@ == (ParserView { buffer: Seq::<u8>::empty(), header_parsed: false }),
    {
        FlvStreamParser { buffer: Vec::new(), header_parsed: false }
    }

    /// Takes more bytes of the stream and hands out the items that are now complete. Fails
    /// where the stream does not begin with the FLV signature; the bytes stay at hand then.
    pub fn push(&mut self, data: &[u8]) -> (r: Result<Vec<FlvParsedItem>, String>)
        ensures
            match r {
                Ok(items) => {
                    &&& !old(self)@.fed(data@).mismatched()
                    &&& item_views(items@) == old(self)@.fed(data@).items()
                    &&& forall|i: int| 0 <= i < items@.len() ==> (#[trigger] items@[i]).wf()
                    &&& final(self)@ == old(self)@.fed(data@).rest()
                },
                Err(message) => {
                    &&& old(self)@.fed(data@).mismatched()
                    &&& message@ == "FLV header mismatch"@
                    &&& final(self)@ == old(self)@.fed(data@)
                },
            },
    {
        append_bytes(&mut self.buffer, data);
        let ghost full = self@;
        let mut items: Vec<FlvParsedItem> = Vec::new();
        let mut offset: usize = 0;
        if !self.header_parsed {
            if self.buffer.len() < 3 {
                assert(item_views(items@) =~= full.items());
                return Ok(items);
            }
            if !(self.buffer[0] == 0x46 && self.buffer[1] == 0x4c && self.buffer[2] == 0x56) {
                return Err("FLV header mismatch".to_owned());
            }
            if self.buffer.len() < FLV_HEADER_LEN {
                assert(item_views(items@) =~= full.items());
                return Ok(items);
            }
            let header = copy_range(self.buffer.as_slice(), 0, FLV_HEADER_LEN);
            assert(header@ =~= full.buffer.take(FLV_HEADER_LEN as int));
            offset = FLV_HEADER_LEN;
            self.header_parsed = true;
            items.push(FlvParsedItem::Header(header));
            assert(item_views(items@) =~= seq![
                ItemView::Header(full.buffer.take(FLV_HEADER_LEN as int)),
            ]);
        }
        assert(full.buffer.skip(0) =~= full.buffer);
        let ghost start = offset as int;
        let ghost head = item_views(items@);
        assert(head + tag_items(tags_of(full.buffer.skip(start))) =~= full.items());
        let len: usize = self.buffer.len();
        while len - offset >= TAG_HEADER_LEN
            invariant
                start <= offset <= len,
                len == self.buffer@.len(),
                self.buffer@ == full.buffer,
                self.header_parsed,
                item_views(items@) + tag_items(tags_of(full.buffer.skip(offset as int))) == head
                    + tag_items(tags_of(full.buffer.skip(start))),
                rest_of(full.buffer.skip(offset as int)) == rest_of(full.buffer.skip(start)),
                forall|i: int| 0 <= i < items@.len() ==> (#[trigger] items@[i]).wf(),
            ensures
                !has_tag(full.buffer.skip(offset as int)),
            decreases len - offset,
        {
            let ghost left = full.buffer.skip(offset as int);
            let size_field = copy_range(self.buffer.as_slice(), offset + 1, offset + 4);
            let data_size: usize = read_u24_be(size_field.as_slice());
            assert(data_size == u24(left, 1));
            let total: usize = TAG_HEADER_LEN + data_size + 4;
            if len - offset < total {
                break ;
            }
            let bytes = copy_range(self.buffer.as_slice(), offset, offset + total);
            assert(bytes@ =~= left.take(tag_len(left)));
            assert(left.skip(total as int) =~= full.buffer.skip(offset + total));
            let tag_type: u8 = bytes[0];
            let ghost before = item_views(items@);
            let tag = FlvTag { tag_type, bytes, data_offset: TAG_HEADER_LEN, data_len: data_size };
            items.push(FlvParsedItem::Tag(tag));
            assert(item_views(items@) =~= before.push(ItemView::Tag(left.take(tag_len(left)))));
            assert(before + tag_items(tags_of(left)) =~= item_views(items@) + tag_items(
                tags_of(full.buffer.skip(offset + total)),
            ));
            offset += total;
        }
        assert(tag_items(tags_of(full.buffer.skip(offset as int))) =~= Seq::<ItemView>::empty());
        assert(item_views(items@) =~= full.items());
        if offset > 0 {
            let tail = copy_range(self.buffer.as_slice(), offset, len);
            assert(tail@ =~= full.buffer.skip(offset as int));
            self.buffer = tail;
        } else {
            assert(full.buffer.skip(0) =~= full.buffer);
        }
        assert(full.buffer.skip(0) =~= full.buffer);
        Ok(items)
    }
}

/// Cutting the tags out of a prefix first changes neither the tags nor what is left.
pub proof fn lemma_tags_append(a: Seq<u8>, b: Seq<u8>)
    ensures
        tags_of(a + b) == tags_of(a) + tags_of(rest_of(a) + b),
        rest_of(a + b) == rest_of(rest_of(a) + b),
    decreases a.len(),
{
    if has_tag(a) {
        let n = tag_len(a);
        assert(tag_len(a + b) == n);
        assert((a + b).take(n) =~= a.take(n));
        assert((a + b).skip(n) =~= a.skip(n) + b);
        lemma_tags_append(a.skip(n), b);
        assert(tags_of(a + b) =~= tags_of(a) + tags_of(rest_of(a) + b));
    } else {
        assert(tags_of(a) + tags_of(a + b) =~= tags_of(a + b));
    }
}

/// The way a stream is cut into chunks does not matter: feeding two chunks one after the
/// other hands out the same items, and leaves the same state, as feeding them at once.
pub proof fn law_parser_chunking(state: ParserView, first: Seq<u8>, second: Seq<u8>)
    requires
        !state.fed(first).mismatched(),
        !state.fed(first).rest().fed(second).mismatched(),
    ensures
        !state.fed(first + second).mismatched(),
        state.fed(first + second).items() == state.fed(first).items() + state.fed(
            first,
        ).rest().fed(second).items(),
        state.fed(first + second).rest() == state.fed(first).rest().fed(second).rest(),
{
    let one = state.fed(first);
    let both = state.fed(first + second);
    assert(both.buffer =~= one.buffer + second);
    let split = one.rest().fed(second);
    if one.waiting() {
        assert(both == split);
        assert(both.items() =~= one.items() + split.items());
    } else {
        let skip = if state.header_parsed {
            0
        } else {
            FLV_HEADER_LEN as int
        };
        let body = one.buffer.skip(skip);
        assert(both.buffer.skip(skip) =~= body + second);
        assert(one.buffer.skip(0) =~= one.buffer);
        assert(both.buffer.skip(0) =~= both.buffer);
        lemma_tags_append(body, second);
        if !state.header_parsed {
            assert(both.buffer.take(skip) =~= one.buffer.take(skip));
            assert(flv_signature(both.buffer) == flv_signature(one.buffer));
        }
        assert(both.items() =~= one.items() + split.items());
    }
}

/// No byte is lost or invented: the tags and what is left spell the bytes that were given.
pub proof fn law_tags_cover_stream(bytes: Seq<u8>)
    ensures
        flatten(tags_of(bytes)) + rest_of(bytes) == bytes,
        !has_tag(rest_of(bytes)),
    decreases bytes.len(),
{
    if has_tag(bytes) {
        let n = tag_len(bytes);
        let tail = bytes.skip(n);
        law_tags_cover_stream(tail);
        assert(tags_of(bytes).drop_first() =~= tags_of(tail));
        assert(flatten(tags_of(bytes)) + rest_of(bytes) =~= bytes.take(n) + (flatten(tags_of(tail))
            + rest_of(tail)));
        assert(bytes.take(n) + tail =~= bytes);
    } else {
        assert(flatten(tags_of(bytes)) + rest_of(bytes) =~= bytes);
    }
}

// ---------------------------------------------------------------------------
// What a new file begins with

/// The file header and the stream configurations seen so far.
pub struct FlvHeaderCache {
    pub header: Option<Vec<u8>>,
    pub script_tag: Option<Vec<u8>>,
    pub audio_header: Option<Vec<u8>>,
    pub video_header: Option<Vec<u8>>,
}

/// The bytes in an optional vector.
pub open spec fn opt_bytes(v: Option<Vec<u8>>) -> Option<Seq<u8>> {
    match v {
        Some(bytes) => Some(bytes@),
        None => None,
    }
}

/// The bytes in an optional sequence, none where it is absent.
pub open spec fn bytes_or_empty(v: Option<Seq<u8>>) -> Seq<u8> {
    match v {
        Some(bytes) => bytes,
        None => Seq::empty(),
    }
}

impl FlvHeaderCache {
    /// An empty cache.
    pub fn new() -> (r: Self)
        ensures
            r.header is None,
            r.script_tag is None,
            r.audio_header is None,
            r.video_header is None,
    {
        FlvHeaderCache { header: None, script_tag: None, audio_header: None, video_header: None }
    }

    /// Keeps the file header.
    pub fn set_header(&mut self, header: Vec<u8>)
        ensures
            final(self).header == Some(header),
            final(self).script_tag == old(self).script_tag,
            final(self).audio_header == old(self).audio_header,
            final(self).video_header == old(self).video_header,
    {
        self.header = Some(header);
    }

    /// Tells whether a file header is kept.
    pub fn has_header(&self) -> (r: bool)
        ensures
            r == (self.header is Some),
    {
        self.header.is_some()
    }

    /// Keeps a tag that later files need: the first script tag, and the newest configuration
    /// of each stream.
    pub fn update_from_tag(&mut self, tag: &FlvTag)
        requires
            tag.wf(),
        ensures
            final(self).header == old(self).header,
            opt_bytes(final(self).script_tag) == (if tag.tag_type == SCRIPT_TAG && old(self).script_tag is None {
                Some(normalized_header(tag.bytes@))
            } else {
                opt_bytes(old(self).script_tag)
            }),
            opt_bytes(final(self).audio_header) == (if tag.tag_type == AUDIO_TAG
                && keeps_audio_header(tag.payload(), old(self).audio_header is Some) {
                Some(normalized_header(tag.bytes@))
            } else {
                opt_bytes(old(self).audio_header)
            }),
            opt_bytes(final(self).video_header) == (if tag.tag_type == VIDEO_TAG
                && keeps_video_header(tag.payload(), old(self).video_header is Some) {
                Some(normalized_header(tag.bytes@))
            } else {
                opt_bytes(old(self).video_header)
            }),
    {
        if tag.tag_type == SCRIPT_TAG {
            if self.script_tag.is_none() {
                self.script_tag = Some(normalize_header_tag(tag.bytes.as_slice()));
            }
        } else if tag.tag_type == AUDIO_TAG {
            if is_audio_header(tag.data(), self.audio_header.is_some()) {
                self.audio_header = Some(normalize_header_tag(tag.bytes.as_slice()));
            }
        } else if tag.tag_type == VIDEO_TAG {
            if is_video_header(tag.data(), self.video_header.is_some()) {
                self.video_header = Some(normalize_header_tag(tag.bytes.as_slice()));
            }
        }
    }

    /// The bytes that a new file begins with: the file header, the script tag, the video
    /// configuration and the audio configuration.
    pub fn preamble(&self) -> (r: Result<Vec<u8>, String>)
        ensures
            match r {
                Ok(bytes) => self.header is Some && bytes@ == self.header->0@ + bytes_or_empty(
                    opt_bytes(self.script_tag),
                ) + bytes_or_empty(opt_bytes(self.video_header)) + bytes_or_empty(
                    opt_bytes(self.audio_header),
                ),
                Err(message) => self.header is None && message@ == "缺少FLV头信息"@,
            },
    {
        let mut out: Vec<u8> = Vec::new();
        match &self.header {
            Some(header) => {
                append_bytes(&mut out, header.as_slice());
                assert(out@ =~= header@);
            },
            None => {
                return Err("缺少FLV头信息".to_owned());
            },
        }
        if let Some(tag) = &self.script_tag {
            append_bytes(&mut out, tag.as_slice());
        }
        assert(out@ =~= self.header->0@ + bytes_or_empty(opt_bytes(self.script_tag)));
        if let Some(tag) = &self.video_header {
            append_bytes(&mut out, tag.as_slice());
        }
        assert(out@ =~= self.header->0@ + bytes_or_empty(opt_bytes(self.script_tag))
            + bytes_or_empty(opt_bytes(self.video_header)));
        if let Some(tag) = &self.audio_header {
            append_bytes(&mut out, tag.as_slice());
        }
        assert(out@ =~= self.header->0@ + bytes_or_empty(opt_bytes(self.script_tag))
            + bytes_or_empty(opt_bytes(self.video_header)) + bytes_or_empty(
            opt_bytes(self.audio_header),
        ));
        Ok(out)
    }
}

// ---------------------------------------------------------------------------
// The format in numbers

/// The timestamp of a tag stands in its fifth to eighth byte: three bytes from the most significant
/// on, and behind them a fourth that counts most of all.
pub proof fn law_timestamp_layout(bytes: Seq<u8>)
    requires
        bytes.len() >= 8,
    ensures
        timestamp_of(bytes) == bytes[7] * 16_777_216 + bytes[4] * 65_536 + bytes[5] * 256
            + bytes[6],
{
}

/// A tag is eleven bytes, its data of the length that its second to fourth byte give, and four bytes
/// more; what follows it is read on.
pub proof fn law_tag_framing(tag: Seq<u8>, rest: Seq<u8>)
    requires
        tag.len() >= 15,
        tag.len() == 15 + tag[1] * 65_536 + tag[2] * 256 + tag[3],
    ensures
        tags_of(tag + rest) == seq![tag] + tags_of(rest),
        rest_of(tag + rest) == rest_of(rest),
{
    let all = tag + rest;
    assert(all[1] == tag[1] && all[2] == tag[2] && all[3] == tag[3]);
    assert(tag_len(all) == tag.len());
    assert(all.take(tag.len() as int) =~= tag);
    assert(all.skip(tag.len() as int) =~= rest);
}

/// Bytes that hold no whole tag wait for more.
pub proof fn law_part_of_a_tag_waits(bytes: Seq<u8>)
    requires
        bytes.len() < 11 || bytes.len() < 15 + bytes[1] * 65_536 + bytes[2] * 256 + bytes[3],
    ensures
        tags_of(bytes).len() == 0,
        rest_of(bytes) == bytes,
{
}

/// A stream begins with thirteen bytes of header that spell its name; any other beginning is
/// refused as soon as three bytes are there.
pub proof fn law_stream_header(buffer: Seq<u8>)
    ensures
        ({
            let state = ParserView { buffer, header_parsed: false };
            let named = buffer.len() >= 3 && buffer[0] == 'F' as u8 && buffer[1] == 'L' as u8
                && buffer[2] == 'V' as u8;
            &&& buffer.len() >= 3 ==> state.mismatched() == !named
            &&& buffer.len() < 3 ==> !state.mismatched()
            &&& buffer.len() < 13 ==> state.items().len() == 0 && state.rest() == state
            &&& buffer.len() >= 13 ==> {
                &&& state.items().len() == 1 + tags_of(buffer.skip(13)).len()
                &&& state.items()[0] == ItemView::Header(buffer.take(13))
                &&& state.rest().header_parsed
                &&& state.rest().buffer == rest_of(buffer.skip(13))
            }
        }),
{
}

/// The tags behind the header are given as they stand, in their order.
pub proof fn law_items_are_tags(buffer: Seq<u8>, i: int)
    requires
        0 <= i < tags_of(buffer).len(),
    ensures
        ({
            let state = ParserView { buffer, header_parsed: true };
            state.items().len() == tags_of(buffer).len() && state.items()[i] == ItemView::Tag(
                tags_of(buffer)[i],
            )
        }),
{
}

/// What a payload is, by its first two bytes: the upper half of the first tells the kind of a frame
/// or of sound, its lower half the codec of a picture, and the second what of a codec it is.
pub proof fn law_payload_kinds(upper: u8, lower: u8, second: u8, rest: Seq<u8>)
    requires
        upper < 16,
        lower < 16,
    ensures
        ({
            let data = seq![(upper * 16 + lower) as u8, second] + rest;
            let coded = lower == 7 || lower == 12;
            &&& audio_header(data) == (upper == 10 && second == 0)
            &&& video_header(data) == (coded && second == 0)
            &&& keyframe(9, data) == (upper == 1 && (coded ==> second == 1))
            &&& !keyframe(8, data) && !keyframe(18, data)
            &&& opens_segment(9, data) == !(coded && second == 0)
            &&& opens_segment(8, data) == !(upper == 10 && second == 0)
            &&& !opens_segment(18, data)
        }),
{
    let data = seq![(upper * 16 + lower) as u8, second] + rest;
    let first = (upper * 16 + lower) as u8;
    assert(data[0] == first && data[1] == second);
    assert(first / 16 == upper && first % 16 == lower) by (nonlinear_arith)
        requires
            upper < 16,
            lower < 16,
            first == (upper * 16 + lower) as u8,
    ;
}

/// A configuration that is kept for later files: a known codec keeps its newest one, any other the
/// first that came.
pub proof fn law_kept_configurations(data: Seq<u8>, has_header: bool)
    requires
        data.len() >= 2,
    ensures
        audio_header(data) ==> keeps_audio_header(data, has_header),
        video_header(data) ==> keeps_video_header(data, has_header),
        data[0] / 16 == 10 && data[1] != 0 ==> !keeps_audio_header(data, has_header),
        data[0] / 16 != 10 ==> keeps_audio_header(data, has_header) == !has_header,
        (data[0] % 16 == 7 || data[0] % 16 == 12) && data[1] != 0 ==> !keeps_video_header(
            data,
            has_header,
        ),
        data[0] % 16 != 7 && data[0] % 16 != 12 ==> keeps_video_header(data, has_header)
            == !has_header,
{
}

/// Parameter sets behind start codes are found wherever they stand behind the first two bytes, and
/// both of them have to be there.
pub proof fn law_parameter_sets_found(data: Seq<u8>, i: int, j: int)
    requires
        2 <= i && i + 4 < data.len(),
        2 <= j && j + 4 < data.len(),
        data.subrange(i, i + 4) == seq![0u8, 0u8, 0u8, 1u8],
        data.subrange(j, j + 4) == seq![0u8, 0u8, 0u8, 1u8],
        data[i + 4] % 32 == 7,
        data[j + 4] % 32 == 8,
    ensures
        annexb_signature(data),
{
    let p = data.skip(2);
    assert(data.subrange(i, i + 4)[0] == data[i] && data.subrange(i, i + 4)[1] == data[i + 1]
        && data.subrange(i, i + 4)[2] == data[i + 2] && data.subrange(i, i + 4)[3] == data[i + 3]);
    assert(data.subrange(j, j + 4)[0] == data[j] && data.subrange(j, j + 4)[1] == data[j + 1]
        && data.subrange(j, j + 4)[2] == data[j + 2] && data.subrange(j, j + 4)[3] == data[j + 3]);
    assert(unit_at(p, i - 2, 7));
    assert(unit_at(p, j - 2, 8));
}

/// A configuration is compared and kept without its timestamp: with zero in its place and all else
/// as it was.
pub proof fn law_header_without_timestamp(bytes: Seq<u8>, k: int)
    requires
        bytes.len() >= 11,
    ensures
        normalized_header(bytes).len() == bytes.len(),
        timestamp_of(normalized_header(bytes)) == 0,
        0 <= k < bytes.len() && !(4 <= k < 8) ==> normalized_header(bytes)[k] == bytes[k],
{
}

/// Within a file every tag keeps its distance from the first one.
pub proof fn law_file_keeps_distances(base: i64, a: Seq<u8>, b: Seq<u8>)
    requires
        a.len() >= 8,
        b.len() >= 8,
        0 <= base <= timestamp_of(a),
        base <= timestamp_of(b),
    ensures
        timestamp_of(rebased(Some(base), b)) - timestamp_of(rebased(Some(base), a)) == timestamp_of(
            b,
        ) - timestamp_of(a),
        segment_base(Some(base), b) == Some(base),
{
    lemma_timestamp_range(a);
    lemma_timestamp_range(b);
    law_timestamp_round_trip(a, (timestamp_of(a) - base) as u32);
    law_timestamp_round_trip(b, (timestamp_of(b) - base) as u32);
}

/// Bytes that are too short to tell a time tell none, and a tag that was read holds its payload
/// between its header and its size.
pub proof fn law_payload_between_header_and_size(bytes: Seq<u8>, tag: FlvTag)
    ensures
        bytes.len() < 8 ==> timestamp_of(bytes) == 0 && with_timestamp(bytes, 1) == bytes,
        parsed_tag(tag) ==> tag.data_offset == 11 && tag.data_len + 15 == tag.bytes@.len()
            && tag.tag_type == tag.bytes@[0],
{
}

/// A unit stands behind three zeros and a one, and its type is in the low five bits of its first
/// byte.
pub proof fn law_unit_behind_start_code(before: Seq<u8>, head: u8, after: Seq<u8>)
    ensures
        unit_at(before + seq![0u8, 0u8, 0u8, 1u8, head] + after, before.len() as int, head as int % 32),
        head % 32 != 7 ==> !unit_at(
            before + seq![0u8, 0u8, 0u8, 1u8, head] + after,
            before.len() as int,
            7,
        ),
        head != 0 ==> !unit_at(
            before + seq![0u8, head, 0u8, 1u8, head] + after,
            before.len() as int,
            head as int % 32,
        ),
{
    let n = before.len() as int;
    let p = before + seq![0u8, 0u8, 0u8, 1u8, head] + after;
    assert(p[n] == 0 && p[n + 1] == 0 && p[n + 2] == 0 && p[n + 3] == 1 && p[n + 4] == head);
    let q = before + seq![0u8, head, 0u8, 1u8, head] + after;
    assert(q[n + 1] == head);
}

} // verus!
