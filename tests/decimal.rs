use decimal_bitstring::{Bitstring, Bitstring32, Bitstring64, Error};

fn bitstr(b: &[u8]) -> String {
    let mut s = String::new();
    for b in b {
        if s.len() > 0 {
            s.push('_');
        }
        s.push_str(&format!("{:>08b}", b));
    }
    s
}

fn parse(s: &str) -> Bitstring {
    Bitstring::try_parse_str(s).expect("failed to parse decimal")
}

#[test]
fn is_sign_negative() {
    for (f, is_negative) in [
        ("0", false),
        ("-0", true),
        ("123", false),
        ("-123", true),
        ("inf", false),
        ("-inf", true),
        ("nan", false),
        ("-nan", true),
        ("snan", false),
        ("-snan", true),
    ] {
        let d = Bitstring::try_parse_str(f).expect("failed to parse decimal");
        assert_eq!(is_negative, d.is_sign_negative(), "{}", f);
    }
}

#[test]
fn is_finite() {
    for (f, is_finite) in [
        ("0", true),
        ("-0", true),
        ("123", true),
        ("-123", true),
        ("inf", false),
        ("-inf", false),
        ("nan", false),
        ("-nan", false),
        ("snan", false),
        ("-snan", false),
    ] {
        let d = Bitstring::try_parse_str(f).expect("failed to parse decimal");
        assert_eq!(is_finite, d.is_finite(), "{}", f);
    }
}

#[test]
fn is_infinite() {
    for (f, is_infinite) in [
        ("123", false),
        ("-123", false),
        ("inf", true),
        ("-inf", true),
        ("nan", false),
        ("snan", false),
    ] {
        let d = Bitstring::try_parse_str(f).expect("failed to parse decimal");
        assert_eq!(is_infinite, d.is_infinite(), "{}", f);
    }
}

#[test]
fn is_nan() {
    for (f, is_nan) in [
        ("123", false),
        ("-123", false),
        ("inf", false),
        ("-inf", false),
        ("nan", true),
        ("-nan", true),
        ("snan", true),
        ("-snan", true),
    ] {
        let d = Bitstring::try_parse_str(f).expect("failed to parse decimal");
        assert_eq!(is_nan, d.is_nan(), "{}", f);
    }
}

#[test]
fn is_quiet_nan() {
    for (f, is_nan) in [
        ("123", false),
        ("-123", false),
        ("inf", false),
        ("-inf", false),
        ("nan", true),
        ("-nan", true),
        ("snan", false),
        ("-snan", false),
    ] {
        let d = Bitstring::try_parse_str(f).expect("failed to parse decimal");
        assert_eq!(is_nan, d.is_quiet_nan(), "{}", f);
    }
}

#[test]
fn is_signaling_nan() {
    for (f, is_nan) in [
        ("123", false),
        ("-123", false),
        ("inf", false),
        ("-inf", false),
        ("nan", false),
        ("-nan", false),
        ("snan", true),
        ("-snan", true),
    ] {
        let d = Bitstring::try_parse_str(f).expect("failed to parse decimal");
        assert_eq!(is_nan, d.is_signaling_nan(), "{}", f);
    }
}

#[test]
fn decimal_roundtrip_i128() {
    for i in [0i128, 42i128, i128::MIN, i128::MAX] {
        let d = Bitstring::from_i128(i);
        let di = d.to_i128().unwrap();
        assert_eq!(i, di);
    }
}

#[test]
fn decimal_roundtrip_u128() {
    for i in [0u128, 42u128, u128::MAX] {
        let d = Bitstring::from_u128(i);
        let di = d.to_u128().unwrap();
        assert_eq!(i, di);
    }
}

#[test]
fn decimal_to_int_with_exponent() {
    for (f, i) in [("17e1", 170i32), ("4e7", 40000000i32), ("170e-1", 17i32)] {
        let d = Bitstring::try_parse_str(f).unwrap();
        assert_eq!(i, d.to_i32().unwrap(), "{}", f);
    }
}

#[test]
fn err_decimal_to_int_exponent_overflow() {
    for f in ["4e618", "17e-1", "1e-1"] {
        let d = Bitstring::try_parse_str(f).unwrap();
        assert!(d.to_i32().is_none(), "{}", f);
    }
}

#[test]
fn decimal_roundtrip_str() {
    for f in [
        "0",
        "-0",
        "0.0",
        "-0.0",
        "435",
        "-435",
        "547473436755",
        "-547473436755",
        "354.55",
        "-354.55",
        "3546.8764256732",
        "-3546.8764256732",
        "0.00012532",
        "-0.00012532",
        "0e1",
        "120e2",
        "-120e2",
        "123e456",
        "-123e456",
        "123e-3",
        "-123e-3",
        "1.2354e-7",
        "-1.2354e-7",
        "1e96",
        "1e-95",
        "1e384",
        "1e-383",
        "1e6144",
        "1e-1643",
        "nan",
        "nan(123)",
        "inf",
        "-inf",
        "snan",
        "snan(123)",
    ] {
        let d = Bitstring::try_parse_str(f).expect("failed to parse decimal");

        assert_eq!(
            bitstr(d.as_le_bytes()),
            bitstr(
                Bitstring::try_from_le_bytes(d.as_le_bytes())
                    .expect("failed to convert bytes to decimal")
                    .as_le_bytes()
            ),
            "{}",
            f
        );

        let s = d.to_string();

        assert_eq!(
            bitstr(d.as_le_bytes()),
            bitstr(
                Bitstring::try_parse_str(&s)
                    .expect("failed to parse decimal")
                    .as_le_bytes()
            ),
            "{} -> {}",
            f,
            s
        );
    }
}

#[test]
fn decimal_size_small_significand_large_exponent() {
    for i in ["1e6100", "1e-6100"] {
        let d = Bitstring::try_parse_str(i).expect("failed to parse decimal");
        assert!(d.as_le_bytes().len() * 8 >= 128, "{}", i);
    }
}

#[test]
fn decimal_size_small_significand() {
    let d = Bitstring::try_parse_str("1").expect("failed to parse decimal");
    assert_eq!(32, d.as_le_bytes().len() * 8);
}

#[test]
fn err_decimal_overflow_exponent() {
    for i in ["1e2147483648", "1e1073741823"] {
        assert!(Bitstring::try_parse_str(i).is_err());
        assert!(Bitstring::try_parse_str(&format!("{}", i)).is_err());
    }
}

#[test]
fn err_decimal_overflow_digits() {
    for i in [
        "123456789012345678901234567890123456789012345678901234567890",
        "1234567890123456789.1234567890123456789012345678901234567890",
    ] {
        assert!(Bitstring::try_parse_str(i).is_err());
        assert!(Bitstring::try_parse_str(&format!("{}", i)).is_err());
    }
}

#[test]
fn err_decimal_from_invalid_byte_count() {
    let err = Bitstring::try_from_le_bytes(&[]).unwrap_err();
    assert_eq!("the value cannot fit into a decimal of `0` bytes; the width needed is `4` bytes; decimals must be a multiple of 32 bits (4 bytes)", &err.to_string());

    let err = Bitstring::try_from_le_bytes(&[0; 3]).unwrap_err();
    assert_eq!("the value cannot fit into a decimal of `3` bytes; the width needed is `4` bytes; decimals must be a multiple of 32 bits (4 bytes)", &err.to_string());

    let err = Bitstring::try_from_le_bytes(&[0; 32]).unwrap_err();
    assert_eq!(
        "the value cannot fit into a decimal of `20` bytes; the width needed is `32` bytes",
        &err.to_string()
    );
}

#[test]
fn encoding_table_32() {
    for (f, b) in [
        ("0", "00000000_00000000_01010000_00100010"),
        ("-0", "00000000_00000000_01010000_10100010"),
        ("0e1", "00000000_00000000_01100000_00100010"),
        ("123", "10100011_00000000_01010000_00100010"),
        ("-123", "10100011_00000000_01010000_10100010"),
        ("123.456", "01010110_10001110_00100010_00100010"),
        ("-123.456", "01010110_10001110_00100010_10100010"),
        ("inf", "00000000_00000000_00000000_01111000"),
        ("-inf", "00000000_00000000_00000000_11111000"),
        ("nan", "00000000_00000000_00000000_01111100"),
        ("snan", "00000000_00000000_00000000_01111110"),
        ("-nan", "00000000_00000000_00000000_11111100"),
        ("-snan", "00000000_00000000_00000000_11111110"),
        ("nan(123)", "10100011_00000000_00000000_01111100"),
        ("snan(123)", "10100011_00000000_00000000_01111110"),
    ] {
        assert_eq!(b, bitstr(parse(f).as_le_bytes()), "{}", f);
    }
}

#[test]
fn scenario_bytes() {
    assert_eq!(parse("0").as_le_bytes(), &[0x22u8, 0x50, 0x00, 0x00][..].iter().rev().copied().collect::<Vec<u8>>()[..]);
    assert_eq!(parse("0").as_le_bytes(), &[0x00u8, 0x00, 0x50, 0x22][..]);
    assert_eq!(parse("-123").as_le_bytes(), &[0xA3u8, 0x00, 0x50, 0xA2][..]);
    assert_eq!(parse("123.456").as_le_bytes(), &[0x56u8, 0x8E, 0x22, 0x22][..]);
    assert_eq!(parse("inf").as_le_bytes(), &[0x00u8, 0x00, 0x00, 0x78][..]);
    assert_eq!(parse("-inf").as_le_bytes(), &[0x00u8, 0x00, 0x00, 0xF8][..]);
    assert_eq!(parse("snan(123)").as_le_bytes(), &[0xA3u8, 0x00, 0x00, 0x7E][..]);
}

#[test]
fn scenario_to_i32() {
    assert_eq!(parse("17e1").to_i32(), Some(170));
    assert_eq!(parse("1e-1").to_i32(), None);
}

#[test]
fn scenario_exponent_overflow_error() {
    assert_eq!(Bitstring::try_parse_str("1e2147483648").err(), Some(Error::ExponentOverflow));
    assert_eq!(Bitstring::try_parse_str("1e1073741823").err(), Some(Error::ExponentOverflow));
}

#[test]
fn digit_overflow_error() {
    let s = "1".repeat(44);
    assert_eq!(Bitstring::try_parse_str(&s).err(), Some(Error::DigitOverflow));
    let s = "1".repeat(43);
    assert_eq!(parse(&s).as_le_bytes().len(), 20);
    assert_eq!(parse(&s).to_string(), s);
}

#[test]
fn parse_errors() {
    for f in ["", "-", "+", "e5", ".", "1e", "1e+", "1x", "nan(", "nan()", "nan(1", "nan(1)x", "infx", "1.2.3", "--1", " 1"] {
        assert_eq!(Bitstring::try_parse_str(f).err(), Some(Error::Parse), "{:?}", f);
    }
}

#[test]
fn parse_forms() {
    for (f, s) in [
        ("+1", "1"),
        ("1.", "1"),
        (".5", "0.5"),
        ("INF", "inf"),
        ("Infinity", "inf"),
        ("NaN", "nan"),
        ("sNaN(007)", "snan(7)"),
        ("1E3", "1e3"),
        ("1e+3", "1e3"),
        ("1.00", "1.00"),
        ("0.000001", "0.000001"),
        ("0.0000001", "1e-7"),
        ("0.00001", "0.00001"),
        ("-0e-3", "-0.000"),
    ] {
        assert_eq!(parse(f).to_string(), s, "{}", f);
    }
}

#[test]
fn non_normalized_values_differ() {
    let a = parse("1");
    let b = parse("1.0");
    let c = parse("1.00");
    assert_ne!(a.as_le_bytes(), b.as_le_bytes());
    assert_ne!(b.as_le_bytes(), c.as_le_bytes());
}

#[test]
fn width_selection() {
    assert_eq!(parse("1234567").as_le_bytes().len(), 4);
    assert_eq!(parse("12345678").as_le_bytes().len(), 8);
    assert_eq!(parse("1e90").as_le_bytes().len(), 4);
    assert_eq!(parse("1e91").as_le_bytes().len(), 8);
    assert_eq!(parse("1e-101").as_le_bytes().len(), 4);
    assert_eq!(parse("1e-102").as_le_bytes().len(), 8);
    assert_eq!(parse("1e1000").as_le_bytes().len(), 12);
    assert_eq!(parse("1e6144").as_le_bytes().len(), 20);
}

#[test]
fn bytes_round_trip() {
    for f in ["0", "-1.5", "1e6144", "nan(42)", "-inf"] {
        let d = parse(f);
        let e = Bitstring::try_from_le_bytes(d.as_le_bytes()).unwrap();
        assert_eq!(d.as_le_bytes(), e.as_le_bytes());
    }
    assert_eq!(
        Bitstring::try_from_le_bytes(&[0; 5]).err(),
        Some(Error::ByteCount { got: 5, want: 8 })
    );
}

#[test]
fn classifier_consistency() {
    for b in 0..=255u8 {
        let d = Bitstring::try_from_le_bytes(&[0, 0, 0, b]).unwrap();
        let n = [d.is_finite(), d.is_infinite(), d.is_nan()].iter().filter(|x| **x).count();
        assert_eq!(n, 1);
        if d.is_signaling_nan() {
            assert!(d.is_nan());
            assert!(!d.is_quiet_nan());
        }
    }
}

#[test]
fn integer_round_trips() {
    for i in [i8::MIN, -1, 0, 1, i8::MAX] {
        assert_eq!(Bitstring::from_i8(i).to_i8(), Some(i));
    }
    for i in [i32::MIN, -7, 0, i32::MAX] {
        assert_eq!(Bitstring::from_i32(i).to_i32(), Some(i));
    }
    for i in [i64::MIN, 0, i64::MAX] {
        assert_eq!(Bitstring::from_i64(i).to_i64(), Some(i));
    }
    for i in [0u16, 9, u16::MAX] {
        assert_eq!(Bitstring::from_u16(i).to_u16(), Some(i));
    }
    for i in [0u64, u64::MAX] {
        assert_eq!(Bitstring::from_u64(i).to_u64(), Some(i));
    }
    assert_eq!(Bitstring::from_i32(-1).to_u32(), None);
    assert_eq!(Bitstring::from_i32(300).to_u8(), None);
    assert_eq!(parse("-0").to_u8(), Some(0));
    assert_eq!(parse("inf").to_i64(), None);
    assert_eq!(parse("nan").to_u64(), None);
    assert_eq!(Bitstring::from_i128(-42).to_string(), "-42");
    assert_eq!(Bitstring::from_u128(u128::MAX).to_string(), "340282366920938463463374607431768211455");
}

#[test]
fn fixed_width_values() {
    assert_eq!(Bitstring32::zero().to_bitstring().to_string(), "0");
    assert_eq!(Bitstring32::max().to_bitstring().to_string(), "9999999e90");
    assert_eq!(Bitstring32::min().to_bitstring().to_string(), "-9999999e90");
    assert_eq!(Bitstring32::min_positive().to_bitstring().to_string(), "1e-101");
    assert_eq!(Bitstring64::zero().to_bitstring().to_string(), "0");
    assert_eq!(Bitstring64::max().to_bitstring().to_string(), "9999999999999999e369");
    assert_eq!(Bitstring64::min().to_bitstring().to_string(), "-9999999999999999e369");
    assert_eq!(Bitstring64::min_positive().to_bitstring().to_string(), "1e-398");
    assert_eq!(parse("9999999e90").as_le_bytes(), &Bitstring32::max().as_le_bytes()[..]);
    assert_eq!(parse("1e-101").as_le_bytes(), &Bitstring32::min_positive().as_le_bytes()[..]);
}

#[test]
fn fixed_width_byte_order() {
    let le = [1u8, 2, 3, 4, 5, 6, 7, 8];
    let d = Bitstring64::from_le_bytes(le);
    assert_eq!(d.as_le_bytes(), le);
    assert_eq!(d.to_be_bytes(), [8u8, 7, 6, 5, 4, 3, 2, 1]);
    assert_eq!(Bitstring64::from_be_bytes([8, 7, 6, 5, 4, 3, 2, 1]).as_le_bytes(), le);
    let d = Bitstring32::from_le_bytes([0, 0, 0x50, 0x22]);
    assert_eq!(d.as_le_bytes(), &[0u8, 0, 0x50, 0x22]);
}

#[test]
fn error_messages() {
    assert_eq!(
        Bitstring::try_from_le_bytes(&[0; 21]).unwrap_err().to_string(),
        "the value cannot fit into a decimal of `20` bytes; the width needed is `21` bytes"
    );
    assert_eq!(
        Bitstring::try_from_le_bytes(&[0; 17]).unwrap_err().to_string(),
        "the value cannot fit into a decimal of `17` bytes; the width needed is `20` bytes; decimals must be a multiple of 32 bits (4 bytes)"
    );
}

#[test]
fn nan_payload_round_trip() {
    for (negative, signaling, payload) in [
        (false, false, 0u128),
        (false, false, 42),
        (true, true, 42),
        (false, true, 0x3F_FFFF),
        (true, false, 0x7_FFFF_FFFF_FFFF),
        (false, false, u128::MAX),
    ] {
        let d = Bitstring::nan_with_payload(negative, signaling, payload);
        assert!(d.is_nan());
        assert_eq!(d.is_signaling_nan(), signaling);
        assert_eq!(d.is_sign_negative(), negative);
        assert_eq!(d.nan_payload(), Some(payload));
    }
    assert_eq!(Bitstring::nan_with_payload(false, false, 123).to_string(), "nan(123)");
    assert_eq!(Bitstring::nan_with_payload(true, true, 0).to_string(), "-snan");
    assert_eq!(parse("nan(0042)").nan_payload(), Some(42));
    assert_eq!(parse("1").nan_payload(), None);
    assert_eq!(parse("inf").nan_payload(), None);
}

#[test]
fn nan_payload_selects_width() {
    assert_eq!(Bitstring::nan_with_payload(false, false, 999999).as_le_bytes().len(), 4);
    assert_eq!(Bitstring::nan_with_payload(false, false, 1000000).as_le_bytes().len(), 8);
    assert_eq!(Bitstring::nan_with_payload(false, false, u128::MAX).as_le_bytes().len(), 20);
}

#[test]
fn integers_with_trailing_zeros() {
    assert_eq!(parse("1.000").to_i32(), Some(1));
    assert_eq!(parse("-4.50e1").to_i32(), Some(-45));
    assert_eq!(parse("1e38").to_u128(), Some(100000000000000000000000000000000000000));
    assert_eq!(parse("1e39").to_u128(), None);
    assert_eq!(parse("-170141183460469231731687303715884105728").to_i128(), Some(i128::MIN));
    assert_eq!(parse("170141183460469231731687303715884105728").to_i128(), None);
    assert_eq!(parse("0e-5").to_i8(), Some(0));
    assert_eq!(parse("128").to_i8(), None);
    assert_eq!(parse("-128").to_i8(), Some(-128));
}

#[test]
fn fixed_width_integers() {
    for i in [i16::MIN, -1, 0, 1, i16::MAX] {
        let b = *Bitstring32::from_i16(i).as_le_bytes();
        assert_eq!(Bitstring32::from_le_bytes(b).to_i16(), Some(i));
    }
    for u in [0u16, 7, u16::MAX] {
        assert_eq!(Bitstring32::from_u16(u).to_u16(), Some(u));
    }
    for i in [i32::MIN, -1, 0, i32::MAX] {
        let b = Bitstring64::from_i32(i).as_le_bytes();
        assert_eq!(Bitstring64::from_le_bytes(b).to_i32(), Some(i));
    }
    for u in [0u32, u32::MAX] {
        assert_eq!(Bitstring64::from_u32(u).to_u32(), Some(u));
    }
    assert_eq!(Bitstring32::from_u8(0).as_le_bytes(), Bitstring32::zero().as_le_bytes());
    assert_eq!(Bitstring64::from_u8(0).as_le_bytes(), Bitstring64::zero().as_le_bytes());
    assert_eq!(Bitstring64::from_i8(-5).to_bitstring().to_string(), "-5");
    assert_eq!(Bitstring32::max().to_i8(), None);
}

#[test]
fn non_normalized_bytes() {
    assert_eq!(parse("1").as_le_bytes(), &[0x01u8, 0x00, 0x50, 0x22][..]);
    assert_eq!(parse("1.0").as_le_bytes(), &[0x10u8, 0x00, 0x40, 0x22][..]);
    assert_eq!(parse("1.00").as_le_bytes(), &[0x80u8, 0x00, 0x30, 0x22][..]);
    assert_eq!(parse("0").as_le_bytes(), &Bitstring32::zero().as_le_bytes()[..]);
}

#[test]
fn fixed_width_big_endian() {
    let d = Bitstring32::from_be_bytes([0x22, 0x50, 0x00, 0x00]);
    assert_eq!(d.as_le_bytes(), Bitstring32::zero().as_le_bytes());
    assert_eq!(d.to_be_bytes(), [0x22u8, 0x50, 0x00, 0x00]);
}
