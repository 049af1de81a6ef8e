use bili_clip_flow::flv::{
    clamp_timestamp, contains_annexb_signature, is_audio_header_tag, is_video_header_tag,
    is_video_keyframe, normalize_header_tag, parse_flv_timestamp, read_u24_be,
    rebase_tag_to_segment_start, should_open_segment_on_tag, write_flv_timestamp, FlvHeaderCache,
    FlvParsedItem, FlvStreamParser, FlvTag,
};

fn tag_bytes(tag_type: u8, ts: u32, payload: &[u8]) -> Vec<u8> {
    let len = payload.len() as u32;
    let mut bytes = vec![tag_type, (len >> 16) as u8, (len >> 8) as u8, len as u8];
    bytes.extend([(ts >> 16) as u8, (ts >> 8) as u8, ts as u8, (ts >> 24) as u8]);
    bytes.extend([0, 0, 0]);
    bytes.extend(payload);
    bytes.extend((11 + len).to_be_bytes());
    bytes
}

fn stream_header() -> Vec<u8> {
    vec![b'F', b'L', b'V', 1, 5, 0, 0, 0, 9, 0, 0, 0, 0]
}

fn count(items: &[FlvParsedItem]) -> (usize, usize) {
    let headers = items.iter().filter(|i| matches!(i, FlvParsedItem::Header(_))).count();
    (headers, items.len() - headers)
}

fn as_tag(tag_type: u8, ts: u32, payload: &[u8]) -> FlvTag {
    FlvTag {
        tag_type,
        bytes: tag_bytes(tag_type, ts, payload),
        data_offset: 11,
        data_len: payload.len(),
    }
}

#[test]
fn timestamps_are_written_and_read_back() {
    let mut tag = as_tag(9, 0, &[0x17]);
    for ts in [0u32, 1, 255, 256, 0x00ff_ffff, 0x0100_0000, u32::MAX] {
        write_flv_timestamp(&mut tag, ts);
        assert_eq!(parse_flv_timestamp(&tag), ts);
    }
    assert_eq!(&tag.bytes[4..8], &[0xff, 0xff, 0xff, 0xff]);
    write_flv_timestamp(&mut tag, 0x0102_0304);
    assert_eq!(&tag.bytes[4..8], &[2, 3, 4, 1]);
}

#[test]
fn timestamps_are_clamped() {
    assert_eq!(clamp_timestamp(-5), 0);
    assert_eq!(clamp_timestamp(7), 7);
    assert_eq!(clamp_timestamp(1 << 40), u32::MAX);
}

#[test]
fn a_segment_starts_at_zero() {
    let mut base = None;
    let mut first = as_tag(9, 5_000, &[0x17, 1]);
    rebase_tag_to_segment_start(&mut first, &mut base);
    assert_eq!(base, Some(5_000));
    assert_eq!(parse_flv_timestamp(&first), 0);
    let mut second = as_tag(9, 5_040, &[0x27, 1]);
    rebase_tag_to_segment_start(&mut second, &mut base);
    assert_eq!(parse_flv_timestamp(&second), 40);
}

#[test]
fn chunks_do_not_matter_to_the_parser() {
    let mut stream = stream_header();
    stream.extend(tag_bytes(18, 0, b"meta"));
    stream.extend(tag_bytes(9, 0, &[0x17, 0, 1, 2]));
    stream.extend(tag_bytes(9, 40, &[0x27, 1, 9]));
    let mut whole = FlvStreamParser::new();
    let items = whole.push(&stream).expect("a stream");
    assert_eq!(count(&items), (1, 3));

    let mut piecewise = FlvStreamParser::new();
    let mut seen = Vec::new();
    for byte in &stream {
        for item in piecewise.push(&[*byte]).expect("a stream") {
            seen.push(item);
        }
    }
    assert_eq!(seen.len(), items.len());
    for (a, b) in seen.iter().zip(&items) {
        match (a, b) {
            (FlvParsedItem::Header(x), FlvParsedItem::Header(y)) => assert_eq!(x, y),
            (FlvParsedItem::Tag(x), FlvParsedItem::Tag(y)) => {
                assert_eq!(x.tag_type, y.tag_type);
                assert_eq!(x.bytes, y.bytes);
                assert_eq!(x.data_len, y.data_len);
            }
            _ => panic!("different items"),
        }
    }
    match &items[3] {
        FlvParsedItem::Tag(tag) => {
            assert_eq!(tag.data(), &[0x27, 1, 9]);
            assert_eq!(parse_flv_timestamp(tag), 40);
        }
        _ => panic!("no tag"),
    }
}

#[test]
fn a_stream_of_another_kind_is_refused() {
    let mut parser = FlvStreamParser::new();
    assert!(parser.push(b"<html>not a stream</html>").is_err());
}

#[test]
fn headers_and_keyframes_are_told_apart() {
    assert!(is_audio_header_tag(&[0xaf, 0, 0x12, 0x10]));
    assert!(!is_audio_header_tag(&[0xaf, 1, 0x12, 0x10]));
    assert!(is_video_header_tag(&[0x17, 0, 0, 0, 0]));
    assert!(!is_video_header_tag(&[0x27, 1, 0, 0, 0]));
    assert!(is_video_keyframe(&as_tag(9, 0, &[0x17, 1, 0, 0, 0])));
    assert!(!is_video_keyframe(&as_tag(9, 0, &[0x27, 1, 0, 0, 0])));
    assert!(should_open_segment_on_tag(&as_tag(9, 0, &[0x17, 1, 0, 0, 0])));
    assert!(should_open_segment_on_tag(&as_tag(8, 0, &[0xaf, 1])));
    assert!(!should_open_segment_on_tag(&as_tag(8, 0, &[0xaf, 0, 1, 2])));
    assert!(!should_open_segment_on_tag(&as_tag(18, 0, b"meta")));
}

#[test]
fn annexb_start_codes_are_found() {
    let both = [0x17, 1, 0, 0, 0, 1, 0x67, 9, 0, 0, 0, 1, 0x68, 9];
    assert!(contains_annexb_signature(&both));
    assert!(!contains_annexb_signature(&both[..9]));
    assert!(!contains_annexb_signature(&[0x17, 1, 0, 0, 2, 1, 0x67]));
}

#[test]
fn numbers_of_three_bytes_are_read() {
    assert_eq!(read_u24_be(&[1, 2, 3]), 0x010203);
}

#[test]
fn a_new_file_begins_with_what_was_cached() {
    let mut cache = FlvHeaderCache::new();
    assert!(!cache.has_header());
    assert!(cache.preamble().is_err());
    cache.set_header(stream_header());
    assert!(cache.has_header());
    let script = as_tag(18, 77, b"meta");
    let video = as_tag(9, 77, &[0x17, 0, 1, 2]);
    cache.update_from_tag(&script);
    cache.update_from_tag(&video);
    let preamble = cache.preamble().expect("a preamble");
    assert!(preamble.starts_with(&stream_header()));
    let mut parser = FlvStreamParser::new();
    let items = parser.push(&preamble).expect("a stream");
    assert_eq!(count(&items), (1, 2));
    for item in &items {
        if let FlvParsedItem::Tag(tag) = item {
            assert_eq!(parse_flv_timestamp(tag), 0);
        }
    }
    assert_eq!(&normalize_header_tag(&script.bytes)[4..8], &[0, 0, 0, 0]);
}
