use lib::baselib::{gc_code, gc_option, pushmode, select_count, GcOption, SelectError};
use lib::loads::{GrowError, LoadS};
use lib::lobject::{ceillog2, chunkid, cstr_exec, hexavalue, integer_to_string, l_str2int, push_digits, utf8esc, AbsLineInfo};
use lib::longjump::{LongJump, Status};
use lib::mathlib::{
    int_abs, int_fmod, project_step, random_plan, random_result, rotate_left, ult, FmodError, RandomError, RandomPlan,
    RandomState,
};
use lib::strlib::{lmemfind, nospecials, str_char, str_rep, str_reverse, RepError};
use lib::utf8::{byteoffset, codepoint, u_posrelat, utf8_decode, utf8_len, utfchar, Utf8Error};

#[test]
fn select_counts() {
    assert_eq!(select_count(4, 1), Ok(3));
    assert_eq!(select_count(4, 2), Ok(2));
    assert_eq!(select_count(4, 9), Ok(0));
    assert_eq!(select_count(4, -1), Ok(1));
    assert_eq!(select_count(4, -3), Ok(3));
    assert_eq!(select_count(4, -4), Err(SelectError::IndexOutOfRange));
    assert_eq!(select_count(4, 0), Err(SelectError::IndexOutOfRange));
}

#[test]
fn gc_options_by_name() {
    assert_eq!(gc_option(None), Some(GcOption::Collect));
    assert_eq!(gc_option(Some(b"count")), Some(GcOption::Count));
    assert_eq!(gc_option(Some(b"incremental")), Some(GcOption::Incremental));
    assert_eq!(gc_option(Some(b"setstepmul")), Some(GcOption::SetStepMul));
    assert_eq!(gc_option(Some(b"bogus")), None);
    assert_eq!(gc_option(Some(b"")), None);
    assert_eq!(gc_code(GcOption::Stop), 0);
    assert_eq!(gc_code(GcOption::Step), 5);
    assert_eq!(gc_code(GcOption::IsRunning), 9);
    assert_eq!(gc_code(GcOption::Incremental), 11);
    assert_eq!(pushmode(-1), None);
    assert_eq!(pushmode(11), Some(GcOption::Incremental));
    assert_eq!(pushmode(10), Some(GcOption::Generational));
}

#[test]
fn loads_grows_by_doubling() {
    let mut l = LoadS::new();
    assert_eq!(l.get_length(), 0);
    assert_eq!(l.get_size(), 0);
    assert_eq!(l.grow(0, 100), Ok(()));
    assert_eq!(l.get_size(), 4);
    assert_eq!(l.grow(4, 100), Ok(()));
    assert_eq!(l.get_size(), 8);
    assert_eq!(l.grow(7, 100), Ok(()));
    assert_eq!(l.get_size(), 8);
    assert_eq!(l.grow(8, 100), Ok(()));
    assert_eq!(l.get_size(), 16);
    assert_eq!(l.grow(60, 40), Ok(()));
    assert_eq!(l.get_size(), 32);
    assert_eq!(l.grow(60, 40), Ok(()));
    assert_eq!(l.get_size(), 40);
    assert_eq!(l.grow(60, 40), Err(GrowError::TooMany { limit: 40 }));
    assert_eq!(l.get_size(), 40);
}

#[test]
fn loads_lengths() {
    let mut l = LoadS::new();
    l.add_length(5);
    assert_eq!(l.get_length(), 5);
    l.subtract_length(2);
    assert_eq!(l.get_length(), 3);
    l.set_length(9);
    assert_eq!(l.get_length(), 9);
    l.zero_length();
    assert_eq!(l.get_length(), 0);
}

#[test]
fn longjump_starts_ok() {
    let j = LongJump::new();
    assert!(j.longjump_previous.is_none());
    assert_eq!(j.longjump_status, Status::OK);
    let a = AbsLineInfo { pc: 3, line: 7 };
    assert_eq!(a, AbsLineInfo { pc: 3, line: 7 });
}

#[test]
fn integers_as_text() {
    assert_eq!(integer_to_string(0), b"0".to_vec());
    assert_eq!(integer_to_string(-123), b"-123".to_vec());
    assert_eq!(integer_to_string(i64::MAX), b"9223372036854775807".to_vec());
    assert_eq!(integer_to_string(i64::MIN), b"-9223372036854775808".to_vec());
    let mut out = b"x=".to_vec();
    push_digits(4096, &mut out);
    assert_eq!(out, b"x=4096".to_vec());
}

#[test]
fn utf8_escapes() {
    assert_eq!(utf8esc(0x41), vec![0x41]);
    assert_eq!(utf8esc(0xE9), vec![0xC3, 0xA9]);
    assert_eq!(utf8esc(0x20AC), vec![0xE2, 0x82, 0xAC]);
    assert_eq!(utf8esc(0x10FFFF), vec![0xF4, 0x8F, 0xBF, 0xBF]);
    assert_eq!(utf8esc(0x7FFF_FFFF), vec![0xFD, 0xBF, 0xBF, 0xBF, 0xBF, 0xBF]);
}

#[test]
fn escape_decodes_back() {
    for x in [0u32, 0x7f, 0x80, 0x7ff, 0x800, 0xffff, 0x10000, 0x10ffff] {
        let e = utf8esc(x);
        assert_eq!(utf8_decode(&e, 0, true), Some((x, e.len())));
    }
    for x in [0x110000u32, 0x7fff_ffff] {
        let e = utf8esc(x);
        assert_eq!(utf8_decode(&e, 0, false), Some((x, e.len())));
        assert_eq!(utf8_decode(&e, 0, true), None);
    }
}

#[test]
fn hex_values() {
    assert_eq!(hexavalue(b'7'), 7);
    assert_eq!(hexavalue(b'a'), 10);
    assert_eq!(hexavalue(b'F'), 15);
}

#[test]
fn string_to_integer() {
    assert_eq!(l_str2int(b"42"), Some((42, 2)));
    assert_eq!(l_str2int(b"  -17  "), Some((-17, 7)));
    assert_eq!(l_str2int(b"0x10"), Some((16, 4)));
    assert_eq!(l_str2int(b"0xffffffffffffffff"), Some((-1, 18)));
    assert_eq!(l_str2int(b"-9223372036854775808"), Some((i64::MIN, 20)));
    assert_eq!(l_str2int(b"9223372036854775808"), None);
    assert_eq!(l_str2int(b"12a"), None);
    assert_eq!(l_str2int(b""), None);
    assert_eq!(l_str2int(b"1.5"), None);
}

#[test]
fn ceiling_logarithms() {
    assert_eq!(ceillog2(1), 0);
    assert_eq!(ceillog2(2), 1);
    assert_eq!(ceillog2(3), 2);
    assert_eq!(ceillog2(8), 3);
    assert_eq!(ceillog2(9), 4);
    assert_eq!(ceillog2(0x8000_0000), 31);
}

#[test]
fn chunk_names() {
    assert_eq!(chunkid(b"=stdin"), b"stdin".to_vec());
    assert_eq!(chunkid(b"@main.lua"), b"main.lua".to_vec());
    assert_eq!(chunkid(b"return 1"), b"[string \"return 1\"]".to_vec());
    assert_eq!(chunkid(b"x = 1\ny = 2"), b"[string \"x = 1...\"]".to_vec());
    let long_file = [b"@".to_vec(), vec![b'a'; 70]].concat();
    let expected = [b"...".to_vec(), vec![b'a'; 56]].concat();
    assert_eq!(chunkid(&long_file), expected);
    assert_eq!(cstr_exec(b"ab\0cd"), b"ab".to_vec());
}

#[test]
fn random_generator_steps() {
    let mut s = RandomState::set_seed(1, 2);
    assert_eq!(
        (s.s0, s.s1, s.s2, s.s3),
        (0xef18bce40e78715e, 0xe3aa178e59d84061, 0xba1f972e418f4e3d, 0x71f5a7e986320bd7)
    );
    assert_eq!(s.next_random(), 0x731202e581a88881);
    assert_eq!(s.next_random(), 0x39cbfbf32ca9af88);
    assert_eq!(rotate_left(0x8000_0000_0000_0001, 1), 3);
}

#[test]
fn random_plans_and_projection() {
    assert_eq!(random_plan(0, 0, 0), Ok(RandomPlan::Float));
    assert_eq!(random_plan(1, 0, 0), Ok(RandomPlan::Whole));
    assert_eq!(random_plan(1, 6, 0), Ok(RandomPlan::Range { low: 1, span: 5 }));
    assert_eq!(random_plan(2, -3, 3), Ok(RandomPlan::Range { low: -3, span: 6 }));
    assert_eq!(random_plan(2, i64::MIN, i64::MAX), Ok(RandomPlan::Range { low: i64::MIN, span: u64::MAX }));
    assert_eq!(random_plan(2, 5, 4), Err(RandomError::IntervalEmpty));
    assert_eq!(random_plan(3, 1, 2), Err(RandomError::WrongArguments));
    assert_eq!(project_step(0xff, 7), Some(7));
    assert_eq!(project_step(0b1010, 5), Some(2));
    assert_eq!(project_step(6, 5), None);
    assert_eq!(project_step(0b1100, 5), Some(4));
    assert_eq!(random_result(5, -3), 2);
}

#[test]
fn integer_math() {
    assert_eq!(int_abs(-5), 5);
    assert_eq!(int_abs(i64::MIN), i64::MIN);
    assert!(ult(1, -1));
    assert!(!ult(-1, 1));
    assert_eq!(int_fmod(7, 3), Ok(1));
    assert_eq!(int_fmod(-7, 3), Ok(-1));
    assert_eq!(int_fmod(7, -3), Ok(1));
    assert_eq!(int_fmod(i64::MIN, -1), Ok(0));
    assert_eq!(int_fmod(i64::MIN, 3), Ok(-2));
    assert_eq!(int_fmod(1, 0), Err(FmodError::Zero));
}

#[test]
fn string_basics() {
    assert_eq!(str_reverse(b"abc"), b"cba".to_vec());
    assert_eq!(str_rep(b"ab", 3, b"-"), Ok(b"ab-ab-ab".to_vec()));
    assert_eq!(str_rep(b"ab", 0, b"-"), Ok(Vec::new()));
    assert_eq!(str_rep(b"ab", -2, b""), Ok(Vec::new()));
    assert_eq!(str_rep(b"ab", 0x4000_0000, b""), Err(RepError::TooLarge));
    assert_eq!(str_char(&[72, 105]), Ok(b"Hi".to_vec()));
    assert_eq!(str_char(&[72, 256, -1]), Err(2));
    assert!(nospecials(b"hello world"));
    assert!(!nospecials(b"a.b"));
    assert_eq!(lmemfind(b"hello", b"ll"), Some(2));
    assert_eq!(lmemfind(b"hello", b""), Some(0));
    assert_eq!(lmemfind(b"hello", b"xyz"), None);
    assert_eq!(lmemfind(b"he", b"hello"), None);
}

#[test]
fn utf8_positions() {
    assert_eq!(u_posrelat(3, 5), 3);
    assert_eq!(u_posrelat(-1, 5), 5);
    assert_eq!(u_posrelat(0, 5), 0);
    assert_eq!(u_posrelat(-10, 5), 0);
}

#[test]
fn utf8_decoding() {
    assert_eq!(utf8_decode(b"A", 0, true), Some((0x41, 1)));
    assert_eq!(utf8_decode(&[0xC3, 0xA9], 0, true), Some((0xE9, 2)));
    assert_eq!(utf8_decode(&[0xC0, 0x80], 0, true), None);
    assert_eq!(utf8_decode(&[0xED, 0xA0, 0x80], 0, true), None);
    assert_eq!(utf8_decode(&[0xED, 0xA0, 0x80], 0, false), Some((0xD800, 3)));
    assert_eq!(utf8_decode(&[0x80], 0, false), None);
}

#[test]
fn utf8_counts_and_codes() {
    let s = "h\u{e9}llo".as_bytes();
    assert_eq!(utf8_len(s, 1, -1, false), Ok(Ok(5)));
    assert_eq!(utf8_len(b"a\xffb", 1, -1, false), Ok(Err(2)));
    assert_eq!(utf8_len(s, 10, -1, false), Err(Utf8Error::OutOfBounds(2)));
    assert_eq!(utf8_len(s, 1, 10, false), Err(Utf8Error::FinalOutOfBounds));
    assert_eq!(codepoint(s, 1, 3, false), Ok(vec![0x68, 0xE9]));
    assert_eq!(codepoint(s, 1, 10, false), Err(Utf8Error::OutOfBounds(3)));
    assert_eq!(codepoint(b"\xff", 1, 1, false), Err(Utf8Error::InvalidCode));
    assert_eq!(utfchar(&[0x48, 0x20AC]), Ok(vec![0x48, 0xE2, 0x82, 0xAC]));
    assert_eq!(utfchar(&[0x48, -1]), Err(Utf8Error::ValueOutOfRange(2)));
    assert_eq!(utfchar(&[0x8000_0000]), Err(Utf8Error::ValueOutOfRange(1)));
}

#[test]
fn utf8_offsets() {
    let s = "h\u{e9}llo".as_bytes();
    assert_eq!(byteoffset(s, 3, None), Ok(Some(4)));
    assert_eq!(byteoffset(s, 0, Some(3)), Ok(Some(2)));
    assert_eq!(byteoffset(s, -1, None), Ok(Some(6)));
    assert_eq!(byteoffset(s, 10, None), Ok(None));
    assert_eq!(byteoffset(s, 1, Some(3)), Err(Utf8Error::ContinuationByte));
    assert_eq!(byteoffset(s, 1, Some(9)), Err(Utf8Error::OutOfBounds(3)));
}

#[test]
fn reallocation_bookkeeping() {
    let mut a = LoadS::new();
    a.initialize_size(8);
    a.add_length(5);
    assert_eq!((a.get_length(), a.get_size()), (5, 8));
    a.resize(16);
    assert_eq!((a.get_length(), a.get_size()), (5, 16));
    a.shrink(2);
    assert_eq!((a.get_length(), a.get_size()), (0, 2));
    a.destroy();
    assert_eq!(a.get_size(), 0);
}
