use bili_clip_flow::flv::{parse_flv_timestamp, write_flv_timestamp, FlvTag};
use bili_clip_flow::timestamps::TimestampFixer;

fn make_tag(tag_type: u8, ts: u32) -> FlvTag {
    let mut bytes = vec![0u8; 11];
    bytes[0] = tag_type;
    let mut tag = FlvTag { tag_type, bytes, data_offset: 11, data_len: 0 };
    write_flv_timestamp(&mut tag, ts);
    tag
}

/// An interleaved stream of 60 frames and 46.875 audio packets a second: the type and the new
/// timestamp of each tag, and the last original timestamp.
fn run_interleaved(dur_s: i64) -> (Vec<(u8, i64)>, i64) {
    let nv = (dur_s * 60) as usize;
    let na = (dur_s * 1000 / 1024 * 48000 / 1000) as usize;
    let mut events: Vec<(i64, u8)> = Vec::with_capacity(nv + na);
    for i in 0..nv {
        events.push(((i as i64 * 1000) / 60, 9));
    }
    for j in 0..na {
        events.push(((j as i64 * 1024 * 1000) / 48000, 8));
    }
    events.sort_by(|a, b| a.0.cmp(&b.0).then(b.1.cmp(&a.1)));
    let max_original = events.iter().map(|e| e.0).max().unwrap_or(0);

    let mut fixer = TimestampFixer::new(true, true);
    let mut out = Vec::with_capacity(events.len());
    for (ts, ty) in &events {
        let mut tag = make_tag(*ty, *ts as u32);
        assert!(fixer.has_room());
        fixer.fix_tag(&mut tag, false);
        out.push((*ty, parse_flv_timestamp(&tag) as i64));
    }
    (out, max_original)
}

#[test]
fn no_uniform_stretch_on_interleaved_av() {
    let (out, max_original) = run_interleaved(600);
    let max_fixed = out.iter().map(|(_, t)| *t).max().unwrap();
    let drift = (max_fixed - max_original).abs() as f64 / max_original as f64;
    assert!(
        drift < 0.005,
        "时间轴拉伸过大: max_fixed={max_fixed} max_original={max_original} drift={drift:.4}"
    );
}

#[test]
fn per_stream_monotonic() {
    let (out, _) = run_interleaved(120);
    let mut last_a = i64::MIN;
    let mut last_v = i64::MIN;
    for (ty, t) in out {
        if ty == 8 {
            assert!(t > last_a, "音频时间戳非单调: {t} <= {last_a}");
            last_a = t;
        } else if ty == 9 {
            assert!(t > last_v, "视频时间戳非单调: {t} <= {last_v}");
            last_v = t;
        }
    }
}

#[test]
fn reconnect_jump_collapses_gap() {
    let mut fixer = TimestampFixer::new(true, true);
    let mut last_v = 0i64;
    for i in 0..120 {
        let ts = (i as i64 * 1000) / 60;
        let mut tag = make_tag(9, ts as u32);
        fixer.fix_tag(&mut tag, false);
        last_v = parse_flv_timestamp(&tag) as i64;
    }
    let mut first_after = None;
    for i in 0..120 {
        let ts = 500_000 + (i as i64 * 1000) / 60;
        let mut tag = make_tag(9, ts as u32);
        fixer.fix_tag(&mut tag, false);
        let f = parse_flv_timestamp(&tag) as i64;
        if first_after.is_none() {
            first_after = Some(f);
        }
        assert!(f > last_v, "重连后时间戳应继续单调: {f} <= {last_v}");
        last_v = f;
    }
    let gap = first_after.unwrap() - (120 * 1000 / 60);
    assert!(gap < 1000, "重连缺口未收敛: gap={gap}ms");
}

#[test]
fn a_jump_is_reported_with_its_size() {
    let mut fixer = TimestampFixer::new(true, true);
    let mut first = make_tag(9, 0);
    assert!(fixer.fix_tag(&mut first, false).is_none());
    let mut second = make_tag(9, 33);
    assert!(fixer.fix_tag(&mut second, false).is_none());
    let mut jumped = make_tag(9, 90_033);
    let jump = fixer.fix_tag(&mut jumped, false).expect("a jump");
    assert_eq!(jump.diff, 90_000);
    assert_eq!(jump.original, 90_033);
}

#[test]
fn a_passive_fixer_leaves_the_bytes() {
    let mut fixer = TimestampFixer::new(true, false);
    for ts in [0u32, 40, 80, 600_000, 600_040] {
        let mut tag = make_tag(9, ts);
        let before = tag.bytes.clone();
        fixer.fix_tag(&mut tag, false);
        assert_eq!(tag.bytes, before);
    }
}

#[test]
fn steady_tags_keep_their_distance() {
    let mut fixer = TimestampFixer::new(true, true);
    let tags = [(9, 7000), (8, 7003), (9, 7033), (8, 7026), (9, 7066), (8, 7049), (9, 7500)];
    for (kind, ts) in tags {
        let mut tag = make_tag(kind, ts);
        fixer.fix_tag(&mut tag, false);
        assert_eq!(parse_flv_timestamp(&tag), ts - 7000);
    }
}
