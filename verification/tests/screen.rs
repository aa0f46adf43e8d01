use usartscreen::screen::{build_cmd, Object};

#[test]
fn object_keeps_what_fits() {
    let o: Object<'_, 4> = Object::new("t0.txt", b"hello");
    assert_eq!(o.name, "t0.txt");
    assert_eq!(o.len, 4);
    assert_eq!(&o.context, b"hell");
    let o: Object<'_, 8> = Object::new("t1.txt", b"hi");
    assert_eq!(o.len, 2);
    assert_eq!(&o.context, b"hi\0\0\0\0\0\0");
}

#[test]
fn set_context_replaces_text() {
    let mut o: Object<'_, 8> = Object::new("t2.txt", b"abcdef");
    o.set_context(b"xy");
    assert_eq!(o.len, 2);
    assert_eq!(&o.context, b"xycdef\0\0");
    o.set_context(b"");
    assert_eq!(o.len, 0);
}

#[test]
fn build_cmd_writes_a_screen_command() {
    let mut buf = [0u8; 32];
    let n = build_cmd("t0.txt", b"hi there", 2, &mut buf);
    assert_eq!(n, 14);
    assert_eq!(&buf[..n], b"t0.txt=\"hi\"\xFF\xFF\xFF");
    assert_eq!(&buf[n..], &[0u8; 18]);
}

#[test]
fn build_cmd_with_empty_text_and_exact_room() {
    let mut buf = [1u8; 9];
    let n = build_cmd("n", b"", 0, &mut buf);
    assert_eq!(n, 7);
    assert_eq!(&buf[..7], b"n=\"\"\xFF\xFF\xFF");
    assert_eq!(&buf[7..], &[1, 1]);
}
