use lib::endian::{read_be_u32, swap_bytes, BigEndianU32};

#[test]
fn swap_bytes_reverses_byte_order() {
    assert_eq!(swap_bytes(0x1234_5678), 0x7856_3412);
    assert_eq!(swap_bytes(0xd00d_feed), 0xedfe_0dd0);
    assert_eq!(swap_bytes(swap_bytes(0xcafe_f00d)), 0xcafe_f00d);
}

#[test]
fn new_then_get_gives_back_the_value() {
    for v in [0u32, 1, 0xd00d_feed, u32::MAX, 0x0102_0304] {
        assert_eq!(BigEndianU32::<true>::new(v).get(), v);
        assert_eq!(BigEndianU32::<false>::new(v).get(), v);
    }
}

#[test]
fn values_are_stored_in_big_endian_order() {
    let x = BigEndianU32::<false>::from_be_bytes(0xd0, 0x0d, 0xfe, 0xed);
    assert_eq!(x.get(), 0xd00d_feed);
    assert_eq!(x, BigEndianU32::<false>::new(0xd00d_feed));
    assert_ne!(x, BigEndianU32::<false>::new(0xedfe_0dd0));
}

#[test]
fn read_be_u32_at_index() {
    let bytes = [0, 0xd0, 0x0d, 0xfe, 0xed];
    assert_eq!(read_be_u32(&bytes, 1), 0xd00d_feed);
    assert_eq!(read_be_u32(&bytes, 0), 0x00d0_0dfe);
}
