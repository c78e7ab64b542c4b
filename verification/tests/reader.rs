use lib::reader::{find_byte, next_multiple_of_4, FdtNodeReader};

#[test]
fn read_u32_is_big_endian() {
    let bytes = [0x12, 0x34, 0x56, 0x78, 0x9a, 0xbc, 0xde, 0xf0];
    let mut r = FdtNodeReader::new(&bytes);
    assert_eq!(r.read_u32(), 0x1234_5678);
    assert_eq!(r.position(), 4);
    assert_eq!(r.read_u32(), 0x9abc_def0);
    assert_eq!(r.position(), 8);
}

#[test]
fn read_slice_skips_padding() {
    let bytes = [1, 2, 3, 4, 5, 6, 7, 8, 9, 10];
    let mut r = FdtNodeReader::new(&bytes);
    assert_eq!(r.read_slice(5), &[1u8, 2, 3, 4, 5][..]);
    assert_eq!(r.position(), 8);
    assert_eq!(r.read_slice(0), &[] as &[u8]);
    assert_eq!(r.position(), 8);
    assert_eq!(r.read_slice(2), &[9u8, 10][..]);
    assert_eq!(r.position(), 12);
}

#[test]
fn read_cstr_moves_past_nul_and_padding() {
    let bytes = *b"abc\0defgh\0\0\0xy";
    let mut r = FdtNodeReader::new(&bytes);
    assert_eq!(r.read_cstr(), Some(&b"abc"[..]));
    assert_eq!(r.position(), 4);
    assert_eq!(r.read_cstr(), Some(&b"defgh"[..]));
    assert_eq!(r.position(), 12);
    // No nul after the position: nothing is read.
    assert_eq!(r.read_cstr(), None);
    assert_eq!(r.position(), 12);
}

#[test]
fn read_cstr_as_str_checks_utf8() {
    let bytes = [b'o', b'k', 0, 0, 0xff, 0, 0, 0];
    let mut r = FdtNodeReader::new(&bytes);
    assert_eq!(r.read_cstr_as_str(), Some("ok"));
    assert_eq!(r.position(), 4);
    assert_eq!(r.read_cstr_as_str(), None);
    // The position moved past the refused string.
    assert_eq!(r.position(), 8);
}

#[test]
fn read_cstr_of_empty_string_takes_four_bytes() {
    let bytes = [0, 0, 0, 0, 0];
    let mut r = FdtNodeReader::new(&bytes);
    assert_eq!(r.read_cstr(), Some(&b""[..]));
    assert_eq!(r.position(), 4);
}

#[test]
fn rounding_to_multiples_of_four() {
    assert_eq!(next_multiple_of_4(0), 0);
    assert_eq!(next_multiple_of_4(1), 4);
    assert_eq!(next_multiple_of_4(4), 4);
    assert_eq!(next_multiple_of_4(5), 8);
    assert_eq!(next_multiple_of_4(7), 8);
}

#[test]
fn find_byte_from_index() {
    let bytes = [1, 0, 2, 0];
    assert_eq!(find_byte(&bytes, 0, 0), Some(1));
    assert_eq!(find_byte(&bytes, 0, 2), Some(3));
    assert_eq!(find_byte(&bytes, 5, 0), None);
    assert_eq!(find_byte(&bytes, 0, 4), None);
}
