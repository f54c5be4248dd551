use rpyutils::arena::{
    qdb_pystr_buf, qdb_pystr_buf_clear, qdb_pystr_buf_free, qdb_pystr_buf_new,
    qdb_pystr_buf_tell, qdb_pystr_buf_truncate, qdb_pystr_pos, qdb_ucs1_to_utf8,
    qdb_ucs2_to_utf8, qdb_ucs4_to_utf8, Utf8View, MIN_BUF_LEN,
};

fn text(b: &qdb_pystr_buf, v: &Utf8View) -> String {
    std::str::from_utf8(b.view_bytes(v)).unwrap().to_string()
}

fn pos(chain: usize, string: usize) -> qdb_pystr_pos {
    qdb_pystr_pos { chain, string }
}

fn check_empty() {
    let b = qdb_pystr_buf_new();
    assert_eq!(b.chain_len(), 0);
    let p = qdb_pystr_buf_tell(&b);
    assert_eq!(p.chain, 0);
    assert_eq!(p.string, 0);
    qdb_pystr_buf_free(b);
}

fn check_ucs1() {
    let mut b = qdb_pystr_buf_new();
    let s1 = qdb_ucs1_to_utf8(&mut b, b"hello");
    assert_eq!(text(&b, &s1), "hello");
    assert_eq!(b.chain_len(), 1);
    assert_eq!(b.chunk(0).as_ptr(), b.view_bytes(&s1).as_ptr());
    assert_eq!(b.chunk(0), b"hello");
    assert_eq!(qdb_pystr_buf_tell(&b).chain, 1);
    assert_eq!(qdb_pystr_buf_tell(&b).string, 5);
    qdb_pystr_buf_clear(&mut b);
    assert_eq!(b.chain_len(), 1);
    assert_eq!(b.chunk(0), b"");
    let s2 = qdb_ucs1_to_utf8(&mut b, b"");
    assert_eq!(text(&b, &s2), "");
    assert_eq!(qdb_pystr_buf_tell(&b), pos(1, 0));
    assert_eq!(b.view_bytes(&s2).as_ptr(), b.chunk(0).as_ptr());
    let s3 = qdb_ucs1_to_utf8(&mut b, b"10\xb5");
    assert_eq!(text(&b, &s3), "10\u{b5}");
    assert_eq!(s3.len, 4); // 3 bytes in UCS-1, 4 bytes in UTF-8.
    assert_eq!(b.chain_len(), 1);
    assert_eq!(b.view_bytes(&s3).as_ptr(), b.chunk(0).as_ptr().wrapping_add(s2.len));
    assert_eq!(qdb_pystr_buf_tell(&b), pos(1, s2.len + s3.len));
}

fn check_resize_and_truncate() {
    let mut b = qdb_pystr_buf_new();
    let s1 = qdb_ucs1_to_utf8(&mut b, b"abcdefghijklmnopqrstuvwxyz");
    assert_eq!(text(&b, &s1), "abcdefghijklmnopqrstuvwxyz");
    assert_eq!(b.chain_len(), 1);
    let p1 = b.view_bytes(&s1).as_ptr();
    assert_eq!(b.chunk(0).as_ptr(), p1);

    let big_string = "hello world".repeat(1000);
    assert!(big_string.len() > MIN_BUF_LEN);
    let s2 = qdb_ucs1_to_utf8(&mut b, big_string.as_bytes());
    assert_eq!(text(&b, &s2), big_string);
    assert_eq!(b.chain_len(), 2);
    let p2 = b.view_bytes(&s2).as_ptr();
    assert_eq!(b.chunk(0).as_ptr(), p1);
    assert_eq!(b.chunk(1).as_ptr(), p2);
    assert_eq!(qdb_pystr_buf_tell(&b), pos(2, 11000));
    let here = qdb_pystr_buf_tell(&b);
    qdb_pystr_buf_truncate(&mut b, here);
    assert_eq!(qdb_pystr_buf_tell(&b), pos(2, 11000));

    let spare = b.chunk_capacity(1) - b.chunk(1).len();
    assert!(spare > 4);

    let test_string = "ab";
    let s3 = qdb_ucs1_to_utf8(&mut b, test_string.as_bytes());
    assert_eq!(text(&b, &s3), test_string);
    assert_eq!(b.chain_len(), 2);
    assert_eq!(b.chunk(0).as_ptr(), p1);
    assert_eq!(b.chunk(1).as_ptr(), p2);
    assert_eq!(qdb_pystr_buf_tell(&b), pos(2, 11000 + test_string.len()));
}

fn check_ucs2() {
    let mut b = qdb_pystr_buf_new();

    // Code points within the ASCII range.
    let s1 = qdb_ucs2_to_utf8(&mut b, &[0x61, 0x62, 0x63, 0x64, 0x65]).unwrap();
    assert_eq!(text(&b, &s1), "abcde");
    assert_eq!(s1.len, 5);

    // Outside ASCII but within UCS-1: two bytes each in UTF-8.
    let s2 = qdb_ucs2_to_utf8(&mut b, &[0x00f0, 0x00e3, 0x00b5, 0x00b6]).unwrap();
    assert_eq!(text(&b, &s2), "\u{f0}\u{e3}\u{b5}\u{b6}");
    assert_eq!(s2.len, 8);

    // Two bytes in UCS-2 and two in UTF-8.
    let s3 = qdb_ucs2_to_utf8(&mut b, &[0x0100, 0x069c]).unwrap();
    assert_eq!(text(&b, &s3), "\u{100}\u{69c}");
    assert_eq!(s3.len, 4);

    // Two bytes in UCS-2 and three in UTF-8.
    let s4 = qdb_ucs2_to_utf8(&mut b, &[0x569c, 0xa4c2]).unwrap();
    assert_eq!(text(&b, &s4), "\u{569c}\u{a4c2}");
    assert_eq!(s4.len, 6);

    // All written to the same chunk.
    assert_eq!(qdb_pystr_buf_tell(&b), pos(1, [s1, s2, s3, s4].iter().map(|s| s.len).sum()));

    // A lone surrogate is not a scalar value.
    let before_pos = qdb_pystr_buf_tell(&b);
    let s5 = qdb_ucs2_to_utf8(&mut b, &[0x061, 0xd800]);
    assert!(s5.is_err());
    assert_eq!(s5.unwrap_err(), 0xd800_u32);

    // The valid 'a' before it was not kept.
    assert_eq!(qdb_pystr_buf_tell(&b), before_pos);

    // The arena is still usable.
    let s6 = qdb_ucs2_to_utf8(&mut b, &[0x062, 0x063]).unwrap();
    assert_eq!(text(&b, &s6), "bc");
    assert_eq!(qdb_pystr_buf_tell(&b), pos(1, [s1, s2, s3, s4, s6].iter().map(|s| s.len).sum()));
}

fn check_ucs4() {
    let mut b = qdb_pystr_buf_new();

    let s1 = qdb_ucs4_to_utf8(&mut b, &[0x61, 0x62, 0x63, 0x64, 0x65]).unwrap();
    assert_eq!(text(&b, &s1), "abcde");
    assert_eq!(s1.len, 5);

    let s2 = qdb_ucs4_to_utf8(&mut b, &[0x00f0, 0x00e3, 0x00b5, 0x00b6]).unwrap();
    assert_eq!(text(&b, &s2), "\u{f0}\u{e3}\u{b5}\u{b6}");
    assert_eq!(s2.len, 8);

    let s3 = qdb_ucs4_to_utf8(&mut b, &[0x0100, 0x069c]).unwrap();
    assert_eq!(text(&b, &s3), "\u{100}\u{69c}");
    assert_eq!(s3.len, 4);

    let s4 = qdb_ucs4_to_utf8(&mut b, &[0x569c, 0xa4c2]).unwrap();
    assert_eq!(text(&b, &s4), "\u{569c}\u{a4c2}");
    assert_eq!(s4.len, 6);

    // Four bytes in UCS-4 and four in UTF-8.
    let s5 = qdb_ucs4_to_utf8(&mut b, &[0x1f4a9, 0x1f99e]).unwrap();
    assert_eq!(text(&b, &s5), "\u{1f4a9}\u{1f99e}");
    assert_eq!(s5.len, 8);

    assert_eq!(qdb_pystr_buf_tell(&b), pos(1, [s1, s2, s3, s4, s5].iter().map(|s| s.len).sum()));

    let before_pos = qdb_pystr_buf_tell(&b);
    let s6 = qdb_ucs4_to_utf8(&mut b, &[0x061, 0xd800]);
    assert!(s6.is_err());
    assert_eq!(s6.unwrap_err(), 0xd800_u32);
    assert_eq!(qdb_pystr_buf_tell(&b), before_pos);

    // Past the last code point.
    let before_pos = qdb_pystr_buf_tell(&b);
    let s7 = qdb_ucs4_to_utf8(&mut b, &[0x061, 0x110000]);
    assert!(s7.is_err());
    assert_eq!(s7.unwrap_err(), 0x110000);
    assert_eq!(qdb_pystr_buf_tell(&b), before_pos);

    let s8 = qdb_ucs4_to_utf8(&mut b, &[0x062, 0x063]).unwrap();
    assert_eq!(text(&b, &s8), "bc");
    assert_eq!(
        qdb_pystr_buf_tell(&b),
        pos(1, [s1, s2, s3, s4, s5, s8].iter().map(|s| s.len).sum())
    );
}

#[test]
fn tests_test_empty() {
    check_empty();
}

#[test]
fn tests_test_ucs1() {
    check_ucs1();
}

#[test]
fn tests_test_resize_and_truncate() {
    check_resize_and_truncate();
}

#[test]
fn tests_test_ucs2() {
    check_ucs2();
}

#[test]
fn tests_test_ucs4() {
    check_ucs4();
}

#[test]
fn pystr_to_utf8_test_empty() {
    check_empty();
}

#[test]
fn pystr_to_utf8_test_ucs1() {
    check_ucs1();
}

#[test]
fn pystr_to_utf8_test_resize_and_truncate() {
    check_resize_and_truncate();
}

#[test]
fn pystr_to_utf8_test_ucs2() {
    check_ucs2();
}

#[test]
fn pystr_to_utf8_test_ucs4() {
    check_ucs4();
}
