use lib::io::{check_mode, g_read, open_opts_from_mode, ReadArg, ReadValue, read_format, read_line, read_numeral, scan_number, OpenFlags, ReadFormat};
use lib::oslib::{
    checkoption, date_format, date_table_fields, getfield, time_fields, DateFormat, DatePiece, FieldError, FieldValue,
    TimeFields,
};
use lib::pkglib::{croot_name, gsub, not_found_message, open_names, path_value, search_names, search_template};
use lib::sh::{command_line, command_outcome, exit_code, shell_quote, CommandOutcome};

#[test]
fn open_modes() {
    assert!(check_mode(b"r"));
    assert!(check_mode(b"w+"));
    assert!(check_mode(b"ab"));
    assert!(check_mode(b"r+b"));
    assert!(!check_mode(b""));
    assert!(!check_mode(b"x"));
    assert!(!check_mode(b"rw"));
    assert_eq!(
        open_opts_from_mode(b"r"),
        Some(OpenFlags { read: true, write: false, append: false, create: false, truncate: false })
    );
    assert_eq!(
        open_opts_from_mode(b"w+"),
        Some(OpenFlags { read: true, write: true, append: false, create: true, truncate: true })
    );
    assert_eq!(
        open_opts_from_mode(b"a"),
        Some(OpenFlags { read: false, write: false, append: true, create: true, truncate: false })
    );
    assert_eq!(open_opts_from_mode(b"q"), None);
    assert_eq!(open_opts_from_mode(b"rw"), None);
    assert_eq!(open_opts_from_mode(b"r+x"), None);
    assert_eq!(open_opts_from_mode(b""), None);
}

#[test]
fn read_formats() {
    assert_eq!(read_format(b"n"), Some(ReadFormat::Number));
    assert_eq!(read_format(b"*l"), Some(ReadFormat::Line));
    assert_eq!(read_format(b"L"), Some(ReadFormat::LineKeep));
    assert_eq!(read_format(b"a"), Some(ReadFormat::All));
    assert_eq!(read_format(b"*all"), Some(ReadFormat::All));
    assert_eq!(read_format(b"x"), None);
    assert_eq!(read_format(b""), None);
}

#[test]
fn lines() {
    assert_eq!(read_line(b"ab\ncd", false), (b"ab".to_vec(), 3, true));
    assert_eq!(read_line(b"ab\ncd", true), (b"ab\n".to_vec(), 3, true));
    assert_eq!(read_line(b"cd", false), (b"cd".to_vec(), 2, true));
    assert_eq!(read_line(b"", false), (Vec::new(), 0, false));
    assert_eq!(read_line(b"\n", false), (Vec::new(), 1, true));
}

#[test]
fn numerals_scanned() {
    assert_eq!(scan_number(b"  42 rest", b'.'), (b"42".to_vec(), 4));
    assert_eq!(scan_number(b"-0x1fz", b'.'), (b"-0x1f".to_vec(), 5));
    assert_eq!(scan_number(b"3.25e+2;", b'.'), (b"3.25e+2".to_vec(), 7));
    assert_eq!(read_numeral(b"  42 rest", b'.'), (Some(b"42".to_vec()), 4));
    assert_eq!(read_numeral(b"-", b'.'), (Some(b"-".to_vec()), 1));
    assert_eq!(read_numeral(b"0x1p4 ", b'.'), (Some(b"0x1p4".to_vec()), 5));
    assert_eq!(read_numeral(b"", b'.'), (None, 0));
}

#[test]
fn date_conversions() {
    assert_eq!(checkoption(b"Y-%m"), Some(1));
    assert_eq!(checkoption(b"Ec"), Some(2));
    assert_eq!(checkoption(b"Oq"), None);
    assert_eq!(checkoption(b"q"), None);
    assert_eq!(checkoption(b""), None);
}

#[test]
fn date_formats() {
    assert!(matches!(date_format(b"*t"), Ok(DateFormat::Table { utc: false })));
    assert!(matches!(date_format(b"!*t"), Ok(DateFormat::Table { utc: true })));
    match date_format(b"%Y-x") {
        Ok(DateFormat::Text { utc, pieces }) => {
            assert!(!utc);
            assert_eq!(pieces.len(), 3);
            assert!(matches!(&pieces[0], DatePiece::Conversion(c) if c == b"Y"));
            assert!(matches!(pieces[1], DatePiece::Byte(b'-')));
            assert!(matches!(pieces[2], DatePiece::Byte(b'x')));
        },
        _ => panic!("expected a text format"),
    }
    assert!(matches!(date_format(b"ab%q"), Err(3)));
    assert!(matches!(date_format(b"%"), Err(1)));
}

#[test]
fn time_table_fields() {
    assert_eq!(getfield(FieldValue::Integer(2024), -1, 1900), Ok(124));
    assert_eq!(getfield(FieldValue::Missing, 12, 0), Ok(12));
    assert_eq!(getfield(FieldValue::Missing, -1, 0), Err(FieldError::Missing));
    assert_eq!(getfield(FieldValue::NotInteger, 0, 0), Err(FieldError::NotInteger));
    assert_eq!(getfield(FieldValue::Integer(i64::MAX), 0, 0), Err(FieldError::OutOfBound));
    assert_eq!(getfield(FieldValue::Integer(-0x8000_0000), 0, 1), Err(FieldError::OutOfBound));
    assert_eq!(
        time_fields(
            FieldValue::Integer(2000),
            FieldValue::Integer(1),
            FieldValue::Integer(2),
            FieldValue::Missing,
            FieldValue::Missing,
            FieldValue::Missing
        ),
        Ok(TimeFields { year: 100, month: 0, day: 2, hour: 12, min: 0, sec: 0 })
    );
    assert_eq!(
        time_fields(
            FieldValue::Integer(2000),
            FieldValue::Missing,
            FieldValue::Integer(2),
            FieldValue::Missing,
            FieldValue::Missing,
            FieldValue::Missing
        ),
        Err((1, FieldError::Missing))
    );
    assert_eq!(date_table_fields(124, 0, 2, 3, 4, 5, 6, 0), [2024, 1, 2, 3, 4, 5, 7, 1]);
}

#[test]
fn package_paths() {
    assert_eq!(gsub(b"a.b.c", b".", b"/"), b"a/b/c".to_vec());
    assert_eq!(gsub(b"aaa", b"aa", b"b"), b"ba".to_vec());
    assert_eq!(path_value(None, false, b"D"), b"D".to_vec());
    assert_eq!(path_value(Some(b"x;;y"), false, b"D"), b"x;D;y".to_vec());
    assert_eq!(path_value(Some(b";;"), false, b"D"), b"D".to_vec());
    assert_eq!(path_value(Some(b"x"), false, b"D"), b"x".to_vec());
    assert_eq!(path_value(Some(b"x;;y"), true, b"D"), b"D".to_vec());
    assert_eq!(search_template(b"a.b", b"./?.lua;/l/?/init.lua", b".", b"/"), b"./a/b.lua;/l/a/b/init.lua".to_vec());
    assert_eq!(
        search_names(b"m", b"./?.lua;./?.so", b".", b"/"),
        vec![b"./m.lua".to_vec(), b"./m.so".to_vec()]
    );
    assert_eq!(not_found_message(b"./m.lua;./m.so"), b"no file './m.lua'\n\tno file './m.so'".to_vec());
}

#[test]
fn loader_names() {
    assert_eq!(open_names(b"a.b"), (None, b"luaopen_a_b".to_vec()));
    assert_eq!(open_names(b"v2-mod"), (Some(b"luaopen_v2".to_vec()), b"luaopen_mod".to_vec()));
    assert_eq!(croot_name(b"a.b.c"), Some(b"a".to_vec()));
    assert_eq!(croot_name(b"abc"), None);
}

#[test]
fn shell_commands() {
    let mut out = Vec::new();
    shell_quote(b"it's", &mut out);
    assert_eq!(out, b"'it'\\''s'".to_vec());
    assert_eq!(command_line(b"ls", &[b"-l".to_vec(), b"a b".to_vec()]), b"ls '-l' 'a b'".to_vec());
    assert_eq!(command_line(b"true", &[]), b"true".to_vec());
    assert_eq!(exit_code(0), 0);
    assert_eq!(exit_code(0x0300), 3);
    assert_eq!(exit_code(9), 9);
    assert!(matches!(command_outcome(b"hi".to_vec(), 0), CommandOutcome::Output(o) if o == b"hi"));
    match command_outcome(Vec::new(), 0x0200) {
        CommandOutcome::Failed { message, code } => {
            assert_eq!(code, 2);
            assert_eq!(message, b"exited with code 2".to_vec());
        },
        _ => panic!("expected a failure"),
    }
}

fn fmt(f: &str) -> ReadArg {
    ReadArg::Format(f.as_bytes().to_vec())
}

#[test]
fn reads_in_turn() {
    let data = b"12 0x10 1.5e2\nline two\nrest";
    let (v, used) = g_read(data, &[fmt("n"), fmt("*n"), fmt("n"), fmt("l"), fmt("L"), fmt("a")], b'.').unwrap();
    assert_eq!(
        v,
        vec![
            ReadValue::Int(12),
            ReadValue::Int(16),
            ReadValue::Float(b"1.5e2".to_vec()),
            ReadValue::Str(Vec::new()),
            ReadValue::Str(b"line two\n".to_vec()),
            ReadValue::Str(b"rest".to_vec()),
        ]
    );
    assert_eq!(used, data.len());
}

#[test]
fn reads_stop_at_the_first_failure() {
    let (v, used) = g_read(b"abc", &[fmt("n"), fmt("a")], b'.').unwrap();
    assert_eq!(v, vec![ReadValue::Nil]);
    assert_eq!(used, 0);
    let (v, _) = g_read(b"1e+", &[fmt("n"), fmt("l")], b'.').unwrap();
    assert_eq!(v, vec![ReadValue::Nil]);
    let (v, used) = g_read(b"", &[ReadArg::Count(0), ReadArg::Count(3)], b'.').unwrap();
    assert_eq!(v, vec![ReadValue::Nil]);
    assert_eq!(used, 0);
}

#[test]
fn reads_counts_and_default_line() {
    let (v, used) = g_read(b"abcdef", &[ReadArg::Count(0), ReadArg::Count(4), ReadArg::Count(-1)], b'.').unwrap();
    assert_eq!(v, vec![ReadValue::Str(Vec::new()), ReadValue::Str(b"abcd".to_vec()), ReadValue::Str(b"ef".to_vec())]);
    assert_eq!(used, 6);
    let (v, used) = g_read(b"first\nsecond", &[], b'.').unwrap();
    assert_eq!(v, vec![ReadValue::Str(b"first".to_vec())]);
    assert_eq!(used, 6);
    let (v, _) = g_read(b"", &[], b'.').unwrap();
    assert_eq!(v, vec![ReadValue::Nil]);
    assert_eq!(g_read(b"x", &[fmt("l"), fmt("q")], b'.'), Err(1));
}
