use usartscreen::frame::{u8_to_i16, FrameParser};

#[test]
fn u8_to_i16_joins_high_and_low() {
    assert_eq!(u8_to_i16(0x12, 0x34), 0x1234);
    assert_eq!(u8_to_i16(0x00, 0x00), 0);
    assert_eq!(u8_to_i16(0xFF, 0xFF), -1);
    assert_eq!(u8_to_i16(0x80, 0x00), -32768);
    assert_eq!(u8_to_i16(0x7F, 0xFF), 32767);
    assert_eq!(u8_to_i16(0xFE, 0x0C), -500);
}

#[test]
fn u8_to_i16_restores_split_values() {
    for v in [-32768i16, -500, -1, 0, 1, 255, 256, 1234, 32767] {
        let u = v as u16;
        assert_eq!(u8_to_i16((u >> 8) as u8, u as u8), v);
    }
}

fn feed_all(p: &mut FrameParser, bytes: &[u8]) -> Vec<bool> {
    bytes.iter().map(|b| p.feed(*b)).collect()
}

#[test]
fn frame_is_recognised_and_body_read_back() {
    let mut p = FrameParser::new();
    assert_eq!(p.body(), &[] as &[u8]);
    let r = feed_all(&mut p, &[0xAA, 1, 2, 3, 0xBB]);
    assert_eq!(r, vec![false, false, false, false, true]);
    assert_eq!(p.body(), &[1, 2, 3]);
}

#[test]
fn bytes_outside_a_frame_are_ignored() {
    let mut p = FrameParser::new();
    let r = feed_all(&mut p, &[5, 0xBB, 6, 0xAA, 9, 0xBB, 7, 0xBB]);
    assert_eq!(r, vec![false, false, false, false, false, true, false, false]);
    assert_eq!(p.body(), &[9]);
}

#[test]
fn header_restarts_an_unfinished_frame() {
    let mut p = FrameParser::new();
    let r = feed_all(&mut p, &[0xAA, 1, 2, 0xAA, 3, 0xBB]);
    assert_eq!(r[5], true);
    assert_eq!(p.body(), &[3]);
}

#[test]
fn empty_frame_has_empty_body() {
    let mut p = FrameParser::new();
    assert!(!p.feed(0xAA));
    assert!(p.feed(0xBB));
    assert_eq!(p.body(), &[] as &[u8]);
}

#[test]
fn long_body_keeps_its_first_bytes() {
    let mut p = FrameParser::new();
    p.feed(0xAA);
    for i in 0..40u8 {
        assert!(!p.feed(i));
    }
    assert!(p.feed(0xBB));
    let expected: Vec<u8> = (0..27u8).collect();
    assert_eq!(p.body(), &expected[..]);
}
