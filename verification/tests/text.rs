use lib::endian::BigEndianU32;
use lib::fdt::{FdtError, ParseError};
use lib::text::{push_dec, push_hex, push_prefixed_hex};
use lib::trap::TrapFrame;

#[test]
fn hex_and_decimal_digits() {
    let mut s = String::new();
    push_hex(&mut s, 0);
    assert_eq!(s, "0");
    let mut s = String::new();
    push_hex(&mut s, 0xd00d_feed);
    assert_eq!(s, "d00dfeed");
    let mut s = String::from("x=");
    push_dec(&mut s, 1234567890);
    assert_eq!(s, "x=1234567890");
    let mut s = String::new();
    push_dec(&mut s, u64::MAX);
    assert_eq!(s, u64::MAX.to_string());
}

#[test]
fn prefixed_hex_pads_with_zeros() {
    for v in [0u64, 1, 0xabc, 0x8000_0000_0000_0000, u64::MAX] {
        let mut s = String::new();
        push_prefixed_hex(&mut s, v, 16);
        assert_eq!(s, format!("{:#018x}", v));
        let mut s = String::new();
        push_prefixed_hex(&mut s, v, 0);
        assert_eq!(s, format!("{:#x}", v));
    }
}

#[test]
fn big_endian_values_as_text() {
    assert_eq!(BigEndianU32::<true>::new(0xd00d_feed).to_string(), "d00dfeed");
    assert_eq!(BigEndianU32::<false>::new(4096).to_string(), "4096");
    assert_eq!(BigEndianU32::<false>::new(0).to_string(), "0");
}

#[test]
fn error_messages() {
    assert_eq!(
        FdtError::NullPtr.to_string(),
        "Null pointer was provided for parsing the device tree"
    );
    let e = FdtError::MagicInvalid {
        expected: BigEndianU32::new(0xd00d_feed),
        got: BigEndianU32::new(0xdead_beef),
    };
    assert_eq!(
        e.to_string(),
        "Invalid Magic value was read: expected=0xd00dfeed,got=0xdeadbeef"
    );
    assert_eq!(
        ParseError::NoNullByte.to_string(),
        "A string in the tree has no null terminator"
    );
    assert_eq!(
        ParseError::StringOutOfBounds.to_string(),
        "A string is located out of bounds"
    );
    assert_eq!(
        ParseError::InvalidUtf8.to_string(),
        "Invalid UTF-8 characters when parsing string"
    );
}

#[test]
fn trap_frame_as_text() {
    let mut f = TrapFrame {
        ra: 0, sp: 0, gp: 0, tp: 0, t0: 0, t1: 0, t2: 0, s0: 0, s1: 0, a0: 0, a1: 0, a2: 0,
        a3: 0, a4: 0, a5: 0, a6: 0, a7: 0, s2: 0, s3: 0, s4: 0, s5: 0, s6: 0, s7: 0, s8: 0,
        s9: 0, s10: 0, s11: 0, t3: 0, t4: 0, t5: 0, t6: 0,
    };
    f.ra = 0x8020_0abc;
    f.sp = 0x8040_0000;
    f.a7 = 0x4442_434e;
    f.s11 = usize::MAX;
    f.tp = 1;
    let text = f.to_string();
    let expected = format!(
        "\nt0={:#018x}  a0={:#018x}  s0={:#018x}   s8={:#018x}\n\
         t1={:#018x}  a1={:#018x}  s1={:#018x}   s9={:#018x}\n\
         t2={:#018x}  a2={:#018x}  s2={:#018x}  s10={:#018x}\n\
         t3={:#018x}  a3={:#018x}  s3={:#018x}  s11={:#018x}\n\
         t4={:#018x}  a4={:#018x}  s4={:#018x}   ra={:#018x}\n\
         t5={:#018x}  a5={:#018x}  s5={:#018x}   sp={:#018x}\n\
         t6={:#018x}  a6={:#018x}  s6={:#018x}   gp={:#018x}\n\
         tp={:#018x}  a7={:#018x}  s7={:#018x}\n",
        f.t0, f.a0, f.s0, f.s8, f.t1, f.a1, f.s1, f.s9, f.t2, f.a2, f.s2, f.s10, f.t3, f.a3,
        f.s3, f.s11, f.t4, f.a4, f.s4, f.ra, f.t5, f.a5, f.s5, f.sp, f.t6, f.a6, f.s6, f.gp,
        f.tp, f.a7, f.s7
    );
    assert_eq!(text, expected);
    assert!(text.contains("ra=0x0000000080200abc"));
    assert!(text.contains("s11=0xffffffffffffffff"));
}
