use speedcam::{parse_frame, scan_frame, Direction, FrameError, Radar, ScanResult, TargetData};

const HEADER: [u8; 4] = [0xF4, 0xF3, 0xF2, 0xF1];
const FOOTER: [u8; 4] = [0xF8, 0xF7, 0xF6, 0xF5];

fn frame(payload: &[u8]) -> Vec<u8> {
    let mut f = HEADER.to_vec();
    f.push((payload.len() % 256) as u8);
    f.push((payload.len() / 256) as u8);
    f.extend_from_slice(payload);
    f.extend_from_slice(&FOOTER);
    f
}

fn example_payload() -> Vec<u8> {
    vec![2, 0, 0x80, 10, 1, 7, 50, 0x70, 20, 0, 3, 40]
}

fn example_targets() -> Vec<TargetData> {
    vec![
        TargetData { angle: 0, distance: 10, direction: Direction::Approaching, speed: 7, snr: 50 },
        TargetData { angle: -16, distance: 20, direction: Direction::Receding, speed: 3, snr: 40 },
    ]
}

#[test]
fn two_records_decode() {
    let mut radar = Radar::new();
    let out = radar.read_targets(&frame(&example_payload()));
    assert_eq!(out, example_targets());
}

#[test]
fn parse_frame_example() {
    assert_eq!(parse_frame(&example_payload()), Ok(example_targets()));
}

#[test]
fn angle_extremes() {
    let p = [2, 0, 0x00, 1, 0, 1, 1, 0xFF, 2, 1, 2, 2];
    let t = parse_frame(&p).unwrap();
    assert_eq!(t[0].angle, -128);
    assert_eq!(t[1].angle, 127);
}

#[test]
fn empty_frame_has_no_records() {
    assert_eq!(parse_frame(&[0, 9]), Ok(vec![]));
}

#[test]
fn payload_too_short() {
    assert_eq!(parse_frame(&[]), Err(FrameError::TooShort));
    assert_eq!(parse_frame(&[1]), Err(FrameError::TooShort));
}

#[test]
fn payload_misaligned() {
    assert_eq!(parse_frame(&[1, 0, 0x80, 10, 1, 7]), Err(FrameError::Misaligned));
}

#[test]
fn payload_invalid_direction() {
    assert_eq!(parse_frame(&[1, 0, 0x80, 10, 2, 7, 50]), Err(FrameError::InvalidDirection));
}

#[test]
fn payload_count_mismatch() {
    assert_eq!(parse_frame(&[3, 0, 0x80, 10, 1, 7, 50]), Err(FrameError::CountMismatch));
}

#[test]
fn no_bytes_changes_nothing() {
    let mut radar = Radar::new();
    let f = frame(&example_payload());
    assert!(radar.read_targets(&f[..7]).is_empty());
    assert!(radar.read_targets(&[]).is_empty());
    assert_eq!(radar.read_targets(&f[7..]), example_targets());
}

#[test]
fn empty_input_on_fresh_decoder() {
    let mut radar = Radar::new();
    assert!(radar.read_targets(&[]).is_empty());
}

#[test]
fn round_trip_every_split() {
    let f = frame(&example_payload());
    for cut in 0..=f.len() {
        let mut radar = Radar::new();
        let mut got = radar.read_targets(&f[..cut]);
        got.extend(radar.read_targets(&f[cut..]));
        assert_eq!(got, example_targets(), "split at {}", cut);
    }
}

#[test]
fn round_trip_byte_by_byte() {
    let f = frame(&example_payload());
    let mut radar = Radar::new();
    let mut got = Vec::new();
    for b in f.iter() {
        got.extend(radar.read_targets(&[*b]));
    }
    assert_eq!(got, example_targets());
}

#[test]
fn resync_after_garbage() {
    let mut stream = vec![0x00, 0xF4, 0x11, 0xF3, 0xF2, 0x42, 0x99];
    stream.extend(frame(&example_payload()));
    let mut radar = Radar::new();
    assert_eq!(radar.read_targets(&stream), example_targets());
}

#[test]
fn resync_across_calls() {
    let mut radar = Radar::new();
    let garbage: Vec<u8> = (0..200u32).map(|i| (i % 200) as u8).collect();
    assert!(radar.read_targets(&garbage).is_empty());
    let f = frame(&example_payload());
    let mut part = vec![0x01, 0x02];
    part.extend_from_slice(&f[..3]);
    assert!(radar.read_targets(&part).is_empty());
    assert_eq!(radar.read_targets(&f[3..]), example_targets());
}

#[test]
fn header_split_between_calls() {
    let mut radar = Radar::new();
    let f = frame(&example_payload());
    let mut first = vec![0x55; 30];
    first.extend_from_slice(&f[..2]);
    assert!(radar.read_targets(&first).is_empty());
    assert_eq!(radar.read_targets(&f[2..]), example_targets());
}

#[test]
fn count_mismatch_then_next_frame() {
    let mut radar = Radar::new();
    let mut stream = frame(&[2, 0, 0x80, 10, 1, 7, 50]);
    stream.extend(frame(&example_payload()));
    assert!(radar.read_targets(&stream).is_empty());
    assert_eq!(radar.read_targets(&[0x00]), example_targets());
}

#[test]
fn invalid_direction_frame_is_dropped() {
    let mut radar = Radar::new();
    let bad = frame(&[1, 0, 0x80, 10, 2, 7, 50]);
    let mut stream = bad.clone();
    stream.extend_from_slice(&[0xAA, 0xBB]);
    assert!(radar.read_targets(&stream).is_empty());
    // Only the two trailing bytes remain: completing a frame after them works.
    assert_eq!(radar.read_targets(&frame(&example_payload())), example_targets());
}

#[test]
fn footer_mismatch_is_dropped() {
    let mut bad = frame(&example_payload());
    let n = bad.len();
    bad[n - 1] = 0x00;
    assert_eq!(
        scan_frame(&bad, &HEADER, &FOOTER),
        ScanResult::FooterMismatch { consumed: n }
    );
    let mut radar = Radar::new();
    assert!(radar.read_targets(&bad).is_empty());
    assert_eq!(radar.read_targets(&frame(&example_payload())), example_targets());
}

#[test]
fn scan_reports_offsets() {
    let mut buf = vec![7, 7, 7];
    buf.extend(frame(&example_payload()));
    buf.push(1);
    assert_eq!(
        scan_frame(&buf, &HEADER, &FOOTER),
        ScanResult::Complete { payload_start: 9, payload_end: 21, consumed: 25 }
    );
    assert_eq!(scan_frame(&buf[..8], &HEADER, &FOOTER), ScanResult::Incomplete);
    assert_eq!(scan_frame(&buf[..24], &HEADER, &FOOTER), ScanResult::Incomplete);
    assert_eq!(scan_frame(&buf[..5], &HEADER, &FOOTER), ScanResult::NoHeader);
}

#[test]
fn one_frame_per_call() {
    let mut radar = Radar::new();
    let mut stream = frame(&example_payload());
    stream.extend(frame(&[1, 0, 0x90, 5, 1, 9, 9]));
    assert_eq!(radar.read_targets(&stream), example_targets());
    let second = radar.read_targets(&[0x00]);
    assert_eq!(
        second,
        vec![TargetData { angle: 16, distance: 5, direction: Direction::Approaching, speed: 9, snr: 9 }]
    );
}

#[test]
fn bounded_without_header() {
    let mut radar = Radar::new();
    let chunk = vec![0x12u8; 1000];
    for _ in 0..50 {
        assert!(radar.read_targets(&chunk).is_empty());
    }
    // At most three bytes are kept; a frame right after them still decodes.
    let mut next = vec![0xF4, 0xF3, 0xF2];
    next.extend(frame(&example_payload()));
    assert_eq!(radar.read_targets(&next), example_targets());
}

#[test]
fn flush_drops_partial_frame() {
    let mut radar = Radar::new();
    let f = frame(&example_payload());
    assert!(radar.read_targets(&f[..10]).is_empty());
    radar.flush();
    assert!(radar.read_targets(&f[10..]).is_empty());
    assert_eq!(radar.read_targets(&f), example_targets());
}

#[test]
fn custom_markers() {
    assert!(Radar::with_markers(vec![], vec![1]).is_none());
    let mut radar = Radar::with_markers(vec![0xAA, 0x55], vec![0x0D]).unwrap();
    let payload = example_payload();
    let mut f = vec![0xAA, 0x55, payload.len() as u8, 0];
    f.extend_from_slice(&payload);
    f.push(0x0D);
    assert_eq!(radar.read_targets(&f), example_targets());
}
