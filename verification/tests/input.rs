use usartscreen::input::InputBuf;

fn feed_line(ib: &mut InputBuf, bytes: &[u8]) -> Option<String> {
    let mut out = None;
    for b in bytes {
        out = ib.feed(*b).map(|s| s.to_string());
    }
    out
}

#[test]
fn line_is_trimmed() {
    let mut ib = InputBuf::new();
    assert_eq!(feed_line(&mut ib, b"  hello world \r\n"), Some("hello world".to_string()));
    assert_eq!(feed_line(&mut ib, b"next\n"), Some("next".to_string()));
}

#[test]
fn bytes_before_newline_give_nothing() {
    let mut ib = InputBuf::new();
    assert_eq!(ib.feed(b'a'), None);
    assert_eq!(ib.feed(b'b'), None);
    assert_eq!(ib.feed(b'\n'), Some("ab"));
}

#[test]
fn empty_and_blank_lines() {
    let mut ib = InputBuf::new();
    assert_eq!(ib.feed(b'\n'), Some(""));
    assert_eq!(feed_line(&mut ib, b"   \r\n"), Some(String::new()));
}

#[test]
fn only_a_final_carriage_return_is_dropped() {
    let mut ib = InputBuf::new();
    assert_eq!(feed_line(&mut ib, b"a\r \n"), Some("a\r".to_string()));
}

#[test]
fn utf8_line_comes_back() {
    let mut ib = InputBuf::new();
    assert_eq!(feed_line(&mut ib, "第1道题\n".as_bytes()), Some("第1道题".to_string()));
}

#[test]
fn invalid_utf8_gives_nothing_and_starts_over() {
    let mut ib = InputBuf::new();
    assert_eq!(ib.feed(0xFF), None);
    assert_eq!(ib.feed(b'\n'), None);
    assert_eq!(ib.feed(b'x'), None);
    assert_eq!(ib.feed(b'\n'), Some("x"));
}

#[test]
fn full_line_buffer_accepts_bytes_again_after_newline() {
    let mut ib = InputBuf::new();
    for _ in 0..255 {
        assert_eq!(ib.feed(0xFF), None);
    }
    assert_eq!(ib.feed(b'\n'), None);
    for _ in 0..200 {
        assert_eq!(ib.feed(b'a'), None);
    }
    assert_eq!(ib.feed(b'\n').map(|s| s.len()), Some(200));
}
