use usartscreen::matcher::{decimal_len, write_u32, Tostr};

#[test]
fn i32_text() {
    let mut buf = [0u8; 16];
    assert_eq!(0i32.to_str(&mut buf), "0");
    assert_eq!(7i32.to_str(&mut buf), "7");
    assert_eq!((-123i32).to_str(&mut buf), "-123");
    assert_eq!(1000i32.to_str(&mut buf), "1000");
    assert_eq!(i32::MAX.to_str(&mut buf), "2147483647");
    assert_eq!(i32::MIN.to_str(&mut buf), "-2147483648");
}

#[test]
fn i32_text_fills_only_its_bytes() {
    let mut buf = [b'z'; 6];
    assert_eq!((-45i32).to_str(&mut buf), "-45");
    assert_eq!(&buf, b"-45zzz");
}

#[test]
fn i32_text_reads_back() {
    let mut buf = [0u8; 16];
    for v in [-99999i32, -1, 0, 42, 65536, 123456789] {
        let s = v.to_str(&mut buf).to_string();
        assert_eq!(s.parse::<i32>().unwrap(), v);
    }
}

#[test]
fn bool_text() {
    let mut buf = [0u8; 8];
    assert_eq!(true.to_str(&mut buf), "true");
    assert_eq!(false.to_str(&mut buf), "false");
    let mut small = [0u8; 4];
    assert_eq!(true.to_str(&mut small), "true");
}

#[test]
fn str_text() {
    let mut buf = [0u8; 16];
    assert_eq!("abc".to_str(&mut buf), "abc");
    assert_eq!("".to_str(&mut buf), "");
    assert_eq!("第1道题".to_str(&mut buf), "第1道题");
}

#[test]
fn write_u32_at_position() {
    let mut buf = [b'.'; 12];
    assert_eq!(write_u32(0, &mut buf, 0), 1);
    assert_eq!(&buf[..2], b"0.");
    assert_eq!(write_u32(4294967295, &mut buf, 2), 12);
    assert_eq!(&buf, b"0.4294967295");
    let mut buf = [b'.'; 5];
    assert_eq!(write_u32(305, &mut buf, 1), 4);
    assert_eq!(&buf, b".305.");
}

#[test]
fn decimal_len_counts_digits() {
    assert_eq!(decimal_len(0), 1);
    assert_eq!(decimal_len(9), 1);
    assert_eq!(decimal_len(10), 2);
    assert_eq!(decimal_len(99999), 5);
    assert_eq!(decimal_len(u32::MAX), 10);
}
