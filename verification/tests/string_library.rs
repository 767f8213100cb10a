use lib::strformat::format_plan;
use lib::strformat::{
    addlenmod, addquoted, checkformat, format_step, get2digits, getformat, quote_integer, span_of, string_action,
    Conversion, FormatError, FormatPiece, StringAction,
};
use lib::strpack::{
    copywithendian, pack_item, packint, packsize_step, to_signed, to_unsigned, unpack_item, unpackint, PackArg,
    PackError, PackSizeError, UnpackError, Unpacked, K,
};

#[test]
fn two_digits_and_spans() {
    assert_eq!(get2digits(b"123", 0), 2);
    assert_eq!(get2digits(b"1x", 0), 1);
    assert_eq!(get2digits(b"x", 0), 0);
    assert_eq!(span_of(b"--+x", b"-+", 0), 3);
    assert_eq!(span_of(b"abc", b"-", 1), 1);
}

#[test]
fn format_specifications() {
    assert!(checkformat(b"%5d", b"-+0 ", true));
    assert!(checkformat(b"%-10.3f", b"-+#0 ", true));
    assert!(!checkformat(b"%123d", b"-+0 ", true));
    assert!(!checkformat(b"%5.2c", b"-", false));
    assert_eq!(getformat(b"%5.2f", 1), Ok((b"%5.2f".to_vec(), 4)));
    assert_eq!(getformat(b"%d", 1), Ok((b"%d".to_vec(), 1)));
    let long = [b"%".to_vec(), vec![b'1'; 25], b"d".to_vec()].concat();
    assert_eq!(getformat(&long, 1), Err(FormatError::TooLong));
    assert_eq!(addlenmod(b"%5d", b"ll"), b"%5lld".to_vec());
}

#[test]
fn format_steps() {
    assert!(matches!(format_step(b"a%d", 0, true), Ok((FormatPiece::Byte(b'a'), 1))));
    assert!(matches!(format_step(b"%%", 0, false), Ok((FormatPiece::Byte(b'%'), 2))));
    match format_step(b"%5d!", 0, true) {
        Ok((FormatPiece::Directive { conv, form, valid }, next)) => {
            assert_eq!(conv, Conversion::Integer);
            assert_eq!(form, b"%5lld".to_vec());
            assert!(valid);
            assert_eq!(next, 3);
        },
        other => panic!("unexpected {:?}", other),
    }
    match format_step(b"%s", 0, true) {
        Ok((FormatPiece::Directive { conv, form, valid }, next)) => {
            assert_eq!(conv, Conversion::Str);
            assert_eq!(form, b"%s".to_vec());
            assert!(valid);
            assert_eq!(next, 2);
        },
        other => panic!("unexpected {:?}", other),
    }
    assert!(matches!(format_step(b"%d", 0, false), Err(FormatError::NoValue)));
    assert!(matches!(format_step(b"%y", 0, true), Err(FormatError::InvalidConversion)));
    assert!(matches!(format_step(b"%5q", 0, true), Err(FormatError::QuotedModifiers)));
}

#[test]
fn string_conversions() {
    assert_eq!(string_action(b"%s", b"a\0b"), Ok(StringAction::Whole));
    assert_eq!(string_action(b"%5s", b"a\0b"), Err(FormatError::StringContainsZeros));
    assert_eq!(string_action(b"%5s", b"ab"), Ok(StringAction::Formatted));
    assert_eq!(string_action(b"%+5s", b"ab"), Err(FormatError::InvalidSpecification));
    let long = vec![b'x'; 120];
    assert_eq!(string_action(b"%5s", &long), Ok(StringAction::Whole));
    assert_eq!(string_action(b"%.5s", &long), Ok(StringAction::Formatted));
}

#[test]
fn quoted_strings() {
    let mut out = Vec::new();
    addquoted(&mut out, b"a\"b\\c\nd");
    assert_eq!(out, b"\"a\\\"b\\\\c\\\nd\"".to_vec());
    let mut out2 = Vec::new();
    addquoted(&mut out2, b"\x011\x02x\x00");
    assert_eq!(out2, b"\"\\0011\\2x\\0\"".to_vec());
    assert_eq!(quote_integer(-42), b"-42".to_vec());
    assert_eq!(quote_integer(i64::MIN), b"0x8000000000000000".to_vec());
}

#[test]
fn integers_packed() {
    let mut out = Vec::new();
    packint(&mut out, 0x0102, true, 2, false);
    assert_eq!(out, vec![0x02, 0x01]);
    let mut out = Vec::new();
    packint(&mut out, 0x0102, false, 4, false);
    assert_eq!(out, vec![0, 0, 0x01, 0x02]);
    let mut out = Vec::new();
    packint(&mut out, to_unsigned(-2), true, 10, true);
    assert_eq!(out, vec![0xfe, 0xff, 0xff, 0xff, 0xff, 0xff, 0xff, 0xff, 0xff, 0xff]);
    assert_eq!(to_unsigned(-1), u64::MAX);
    assert_eq!(to_signed(u64::MAX), -1);
}

#[test]
fn integers_unpacked() {
    assert_eq!(unpackint(&[0xfe, 0xff], true, 2, true), Some(-2));
    assert_eq!(unpackint(&[0xfe, 0xff], true, 2, false), Some(0xfffe));
    assert_eq!(unpackint(&[0x01, 0x02], false, 2, false), Some(0x0102));
    assert_eq!(unpackint(&[0xff; 10], true, 10, true), Some(-1));
    assert_eq!(unpackint(&[0, 0, 0, 0, 0, 0, 0, 0, 1, 0], true, 10, false), None);
}

#[test]
fn pack_then_unpack_items() {
    for &(n, size) in &[(0i64, 1usize), (-1, 1), (127, 1), (-128, 1), (300, 2), (-70000, 3), (i64::MIN, 8), (i64::MAX, 12)] {
        let mut out = Vec::new();
        assert_eq!(pack_item(&mut out, K::Int, size, 0, &PackArg::Integer(n), true, true), Ok(size));
        let r = unpack_item(&out, 0, K::Int, size, 0, true, true);
        assert!(matches!(r, Ok((Some(Unpacked::Integer(v)), p)) if v == n && p == size));
    }
    let mut out = Vec::new();
    assert_eq!(pack_item(&mut out, K::String, 1, 1, &PackArg::Bytes(b"hi".to_vec()), true, true), Ok(4));
    assert_eq!(out, vec![0, 2, b'h', b'i']);
    let r = unpack_item(&out, 0, K::String, 1, 1, true, true);
    assert!(matches!(r, Ok((Some(Unpacked::Bytes(b)), 4)) if b == b"hi"));
    let mut out = Vec::new();
    assert_eq!(pack_item(&mut out, K::Zstr, 0, 0, &PackArg::Bytes(b"ab".to_vec()), true, true), Ok(3));
    assert_eq!(out, b"ab\0".to_vec());
    let r = unpack_item(&out, 0, K::Zstr, 0, 0, true, true);
    assert!(matches!(r, Ok((Some(Unpacked::Bytes(b)), 3)) if b == b"ab"));
}

#[test]
fn pack_errors() {
    let mut out = Vec::new();
    assert_eq!(pack_item(&mut out, K::Int, 1, 0, &PackArg::Integer(128), true, true), Err(PackError::IntegerOverflow));
    assert_eq!(pack_item(&mut out, K::Uint, 1, 0, &PackArg::Integer(-1), true, true), Err(PackError::UnsignedOverflow));
    assert_eq!(pack_item(&mut out, K::Char, 2, 0, &PackArg::Bytes(b"abc".to_vec()), true, true), Err(PackError::StringTooLong));
    let big = vec![b'x'; 256];
    assert_eq!(pack_item(&mut out, K::String, 1, 0, &PackArg::Bytes(big), true, true), Err(PackError::LengthDoesNotFit));
    assert_eq!(pack_item(&mut out, K::Zstr, 0, 0, &PackArg::Bytes(b"a\0".to_vec()), true, true), Err(PackError::ContainsZeros));
}

#[test]
fn char_and_padding_items() {
    let mut out = Vec::new();
    assert_eq!(pack_item(&mut out, K::Char, 4, 0, &PackArg::Bytes(b"ab".to_vec()), true, true), Ok(4));
    assert_eq!(out, vec![b'a', b'b', 0, 0]);
    let mut out = Vec::new();
    assert_eq!(pack_item(&mut out, K::Padding, 1, 2, &PackArg::Integer(0), true, true), Ok(3));
    assert_eq!(out, vec![0, 0, 0]);
    let mut out = Vec::new();
    assert_eq!(pack_item(&mut out, K::Double, 8, 0, &PackArg::Bytes(vec![1, 2, 3, 4, 5, 6, 7, 8]), false, true), Ok(8));
    assert_eq!(out, vec![8, 7, 6, 5, 4, 3, 2, 1]);
    assert_eq!(copywithendian(&[1, 2, 3], true, false), vec![3, 2, 1]);
    assert_eq!(copywithendian(&[1, 2, 3], true, true), vec![1, 2, 3]);
}

#[test]
fn unpack_errors() {
    assert!(matches!(unpack_item(&[1, 2], 0, K::Int, 4, 0, true, true), Err(UnpackError::DataTooShort)));
    let data = [0u8, 0, 0, 0, 0, 0, 0, 0, 1, 0];
    assert!(matches!(unpack_item(&data, 0, K::Int, 10, 0, true, true), Err(UnpackError::DoesNotFit(10))));
    assert!(matches!(unpack_item(b"abc", 0, K::Zstr, 0, 0, true, true), Err(UnpackError::UnfinishedString)));
    assert!(matches!(unpack_item(&[5, b'a'], 0, K::String, 1, 0, true, true), Err(UnpackError::DataTooShort)));
}

#[test]
fn pack_sizes() {
    assert_eq!(packsize_step(3, K::Int, 4, 1), Ok(8));
    assert_eq!(packsize_step(0, K::String, 4, 0), Err(PackSizeError::VariableLength));
    assert_eq!(packsize_step(0, K::Zstr, 0, 0), Err(PackSizeError::VariableLength));
    assert_eq!(packsize_step(0x7fff_fffe, K::Int, 4, 0), Err(PackSizeError::TooLarge));
}

#[test]
fn format_plans() {
    let plan = format_plan(b"x=%5.2f%%%s", 2).unwrap();
    assert_eq!(plan.len(), 5);
    assert!(matches!(plan[0], FormatPiece::Byte(b'x')));
    assert!(matches!(plan[1], FormatPiece::Byte(b'=')));
    assert!(matches!(&plan[2], FormatPiece::Directive { conv: Conversion::Float, form, valid: true } if form == b"%5.2f"));
    assert!(matches!(plan[3], FormatPiece::Byte(b'%')));
    assert!(matches!(&plan[4], FormatPiece::Directive { conv: Conversion::Str, form, valid: true } if form == b"%s"));
    assert!(matches!(format_plan(b"%d", 0), Err(FormatError::NoValue)));
    assert!(matches!(format_plan(b"%#c", 1), Err(FormatError::InvalidSpecification)));
    assert!(matches!(format_plan(b"%y", 1), Err(FormatError::InvalidConversion)));
    assert!(matches!(&format_plan(b"%d", 1).unwrap()[0], FormatPiece::Directive { conv: Conversion::Integer, form, .. } if form == b"%lld"));
}

#[test]
fn fixed_size_strings_come_back_filled() {
    let mut out = Vec::new();
    assert_eq!(pack_item(&mut out, K::Char, 5, 1, &PackArg::Bytes(b"abc".to_vec()), true, true), Ok(6));
    let r = unpack_item(&out, 0, K::Char, 5, 1, true, true);
    assert!(matches!(r, Ok((Some(Unpacked::Bytes(b)), 6)) if b == b"abc\0\0"));
    let mut out = Vec::new();
    assert_eq!(pack_item(&mut out, K::Char, 3, 0, &PackArg::Bytes(b"xyz".to_vec()), true, true), Ok(3));
    let r = unpack_item(&out, 0, K::Char, 3, 0, true, true);
    assert!(matches!(r, Ok((Some(Unpacked::Bytes(b)), 3)) if b == b"xyz"));
}

#[test]
fn whole_format_round_trip_and_size() {
    // Items of a format with their arguments; items other than fixed-size
    // strings are aligned to their size at the running total.
    let items: Vec<(K, usize, PackArg)> = vec![
        (K::Uint, 1, PackArg::Integer(7)),
        (K::Int, 4, PackArg::Integer(-300)),
        (K::Char, 3, PackArg::Bytes(b"ab".to_vec())),
        (K::Padding, 1, PackArg::Integer(0)),
        (K::Int, 2, PackArg::Integer(1000)),
    ];
    let align = |k: K, total: usize, size: usize| if size > 1 && k != K::Char { (size - total % size) % size } else { 0 };
    let mut out = Vec::new();
    let mut size_total = 0usize;
    for (k, size, arg) in &items {
        let n = align(*k, out.len(), *size);
        pack_item(&mut out, *k, *size, n, arg, true, true).unwrap();
        size_total = packsize_step(size_total, *k, *size, align(*k, size_total, *size)).unwrap();
    }
    assert_eq!(out.len(), size_total);
    assert_eq!(size_total, 14);
    let mut pos = 0usize;
    let mut read = Vec::new();
    for (k, size, _) in &items {
        let n = align(*k, pos, *size);
        let (v, p) = unpack_item(&out, pos, *k, *size, n, true, true).unwrap();
        read.push(v);
        pos = p;
    }
    assert_eq!(pos, out.len());
    assert!(matches!(read[0], Some(Unpacked::Integer(7))));
    assert!(matches!(read[1], Some(Unpacked::Integer(-300))));
    assert!(matches!(&read[2], Some(Unpacked::Bytes(b)) if b == b"ab\0"));
    assert!(read[3].is_none());
    assert!(matches!(read[4], Some(Unpacked::Integer(1000))));
}
