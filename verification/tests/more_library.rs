use lib::io::{buffer_mode, seek_plan, BufferMode, OptionError, SeekPlan};
use lib::mathlib::{project_step, random_plan, random_result, RandomPlan};
use lib::midi::{
    aftertouch, clock, control_change, note_off, note_on, parse_packets, pitch_bend, program_change, push_capped,
    receive_packets, send_data, MidiMsg, MIDI_BUF_CAP,
};
use lib::oslib::{exit_status, locale_category, ExitArg};
use lib::strlib::{str_byte, str_find_plain, str_lower, str_sub, str_upper, ByteError};
use lib::strpack::{pack_item, packsize_step, PackArg, K};
use lib::tablib::{table_insert, table_remove};
use lib::urllib::parse_headers;
use lib::utf8::{codepoint, utfchar};

#[test]
fn seek_plans() {
    assert_eq!(seek_plan(None, 5), Ok(SeekPlan::Current(5)));
    assert_eq!(seek_plan(Some(b"set"), 10), Ok(SeekPlan::Start(10)));
    assert_eq!(seek_plan(Some(b"end"), -3), Ok(SeekPlan::End(-3)));
    assert_eq!(seek_plan(Some(b"cur\0x"), 1), Ok(SeekPlan::Current(1)));
    assert_eq!(seek_plan(Some(b"set"), -1), Err(OptionError::OffsetOutOfRange));
    assert_eq!(seek_plan(Some(b"start"), 0), Err(OptionError::InvalidOption));
}

#[test]
fn buffer_modes() {
    assert_eq!(buffer_mode(b"no", None), Ok(BufferMode::No));
    assert_eq!(buffer_mode(b"full", None), Ok(BufferMode::Full(1024)));
    assert_eq!(buffer_mode(b"full", Some(4096)), Ok(BufferMode::Full(4096)));
    assert_eq!(buffer_mode(b"line", Some(7)), Ok(BufferMode::Line));
    assert_eq!(buffer_mode(b"partial", None), Err(OptionError::InvalidOption));
}

#[test]
fn locale_categories_and_exit() {
    assert_eq!(locale_category(None), Some(6));
    assert_eq!(locale_category(Some(b"ctype")), Some(0));
    assert_eq!(locale_category(Some(b"time")), Some(2));
    assert_eq!(locale_category(Some(b"numeric")), Some(1));
    assert_eq!(locale_category(Some(b"bogus")), None);
    assert_eq!(exit_status(ExitArg::Absent), 0);
    assert_eq!(exit_status(ExitArg::Bool(true)), 0);
    assert_eq!(exit_status(ExitArg::Bool(false)), 1);
    assert_eq!(exit_status(ExitArg::Integer(3)), 3);
}

#[test]
fn string_pieces() {
    assert_eq!(str_sub(b"hello", 2, Some(4)), b"ell".to_vec());
    assert_eq!(str_sub(b"hello", -3, None), b"llo".to_vec());
    assert_eq!(str_sub(b"hello", 0, Some(100)), b"hello".to_vec());
    assert_eq!(str_sub(b"hello", 4, Some(2)), Vec::new());
    assert_eq!(str_sub(b"hello", -100, Some(-4)), b"he".to_vec());
    assert_eq!(str_byte(b"ABC", None, None), Ok(vec![65]));
    assert_eq!(str_byte(b"ABC", Some(-1), None), Ok(vec![67]));
    assert_eq!(str_byte(b"ABC", Some(1), Some(-1)), Ok(vec![65, 66, 67]));
    assert_eq!(str_byte(b"ABC", Some(4), None), Ok(vec![]));
    assert_eq!(str_lower(b"HeLLo, World!"), b"hello, world!".to_vec());
    assert_eq!(str_upper(b"HeLLo, World!"), b"HELLO, WORLD!".to_vec());
    assert_eq!(str_upper(&[0xe9, b'a']), vec![0xe9, b'A']);
}

#[test]
fn byte_slices_too_long_are_refused() {
    let s = vec![0u8; 8];
    assert_eq!(str_byte(&s, Some(1), Some(8)), Ok(vec![0; 8]));
    assert!(matches!(str_byte(&s, Some(1), Some(3)), Ok(v) if v.len() == 3));
    let _ = ByteError::SliceTooLong;
}

#[test]
fn plain_find() {
    assert_eq!(str_find_plain(b"hello world", b"o", None), Some((5, 5)));
    assert_eq!(str_find_plain(b"hello world", b"o", Some(6)), Some((8, 8)));
    assert_eq!(str_find_plain(b"hello world", b"o w", Some(-7)), Some((5, 7)));
    assert_eq!(str_find_plain(b"hello", b"", Some(3)), Some((3, 2)));
    assert_eq!(str_find_plain(b"hello", b"", Some(6)), Some((6, 5)));
    assert_eq!(str_find_plain(b"hello", b"", Some(7)), None);
    assert_eq!(str_find_plain(b"hello", b"z", None), None);
}

#[test]
fn midi_messages() {
    assert_eq!(note_on(1, 60, 100), vec![0x90, 60, 100]);
    assert_eq!(note_on(16, 200, 300), vec![0x9F, 72, 44]);
    assert_eq!(note_on(17, 1, 1), vec![0x90, 1, 1]);
    assert_eq!(note_off(2, 60, None), vec![0x81, 60, 64]);
    assert_eq!(note_off(2, 60, Some(10)), vec![0x81, 60, 10]);
    assert_eq!(control_change(1, 7, 127), vec![0xB0, 7, 127]);
    assert_eq!(program_change(10, 5), vec![0xC9, 5]);
    assert_eq!(aftertouch(1, 60, 20), vec![0xA0, 60, 20]);
    assert_eq!(pitch_bend(1, 0), vec![0xE0, 0, 64]);
    assert_eq!(pitch_bend(1, 8191), vec![0xE0, 127, 127]);
    assert_eq!(pitch_bend(1, -100000), vec![0xE0, 0, 0]);
    assert_eq!(clock(), vec![0xF8]);
    assert_eq!(send_data(&[0x90, 0x13C, -1]), vec![0x90, 0x3C, 0xFF]);
}

fn packet(ts: u64, data: &[u8]) -> Vec<u8> {
    let mut p = ts.to_le_bytes().to_vec();
    p.extend_from_slice(&(data.len() as u16).to_le_bytes());
    p.extend_from_slice(data);
    while p.len() % 4 != 0 {
        p.push(0);
    }
    p
}

#[test]
fn midi_packet_lists() {
    let mut list = 2u32.to_le_bytes().to_vec();
    list.extend(packet(7, &[0x90, 60, 100]));
    list.extend(packet(9, &[0xF8]));
    let msgs = parse_packets(&list).unwrap();
    assert_eq!(msgs.len(), 2);
    assert_eq!((msgs[0].timestamp, msgs[0].data.clone()), (7, vec![0x90, 60, 100]));
    assert_eq!((msgs[1].timestamp, msgs[1].data.clone()), (9, vec![0xF8]));
    assert!(parse_packets(&list[..list.len() - 6]).is_none());
    assert!(parse_packets(&[1, 0]).is_none());
    let mut q = Vec::new();
    assert!(receive_packets(&mut q, &list));
    assert_eq!(q.len(), 2);
    assert!(!receive_packets(&mut q, &[5, 0, 0, 0]));
    assert_eq!(q.len(), 2);
}

#[test]
fn midi_queue_is_capped() {
    let mut q: Vec<MidiMsg> = Vec::new();
    for i in 0..(MIDI_BUF_CAP as u64 + 5) {
        push_capped(&mut q, MidiMsg { timestamp: i, data: vec![] });
    }
    assert_eq!(q.len(), MIDI_BUF_CAP);
    assert_eq!(q[0].timestamp, 5);
    assert_eq!(q[MIDI_BUF_CAP - 1].timestamp, MIDI_BUF_CAP as u64 + 4);
}

#[test]
fn insert_then_remove_restores() {
    let mut v = vec![1, 2, 3];
    table_insert(&mut v, Some(2), 9).unwrap();
    assert_eq!(table_remove(&mut v, Some(2)), Ok(Some(9)));
    assert_eq!(v, vec![1, 2, 3]);
    table_insert(&mut v, None, 4).unwrap();
    assert_eq!(table_remove(&mut v, None), Ok(Some(4)));
    assert_eq!(v, vec![1, 2, 3]);
}

#[test]
fn codepoint_reads_back_char() {
    let codes = [0x41i64, 0xE9, 0x20AC, 0x1F600, 0x10FFFF];
    let s = utfchar(&codes).unwrap();
    let back = codepoint(&s, 1, -1, false).unwrap();
    assert_eq!(back, vec![0x41, 0xE9, 0x20AC, 0x1F600, 0x10FFFF]);
    let lax = [0x7FFF_FFFFi64, 0xD800];
    let t = utfchar(&lax).unwrap();
    assert_eq!(codepoint(&t, 1, -1, true).unwrap(), vec![0x7FFF_FFFF, 0xD800]);
}

#[test]
fn header_names_are_unique() {
    let h = parse_headers(b"A: 1\r\na: 2\r\nB: 3\r\nb:4\r\nA:5\r\n");
    assert_eq!(h.len(), 2);
    assert_eq!(h[0], (b"a".to_vec(), b"1, 2, 5".to_vec()));
    assert_eq!(h[1], (b"b".to_vec(), b"3, 4".to_vec()));
}

#[test]
fn packsize_counts_packed_bytes() {
    let mut total = 0usize;
    let mut out = Vec::new();
    let items: [(K, usize, usize, PackArg); 3] = [
        (K::Int, 4, 0, PackArg::Integer(-5)),
        (K::Char, 3, 0, PackArg::Bytes(b"ab".to_vec())),
        (K::Uint, 8, 1, PackArg::Integer(7)),
    ];
    for (k, size, align, arg) in items.iter() {
        let before = out.len();
        let moved = pack_item(&mut out, *k, *size, *align, arg, true, true).unwrap();
        assert_eq!(out.len() - before, moved);
        total = packsize_step(total, *k, *size, *align).unwrap();
    }
    assert_eq!(total, out.len());
}

#[test]
fn random_integers_stay_in_interval() {
    match random_plan(2, -3, 3).unwrap() {
        RandomPlan::Range { low, span } => {
            for ran in [0u64, 1, 6, 7, 0xffff_ffff_ffff_ffff, 0x1234_5678_9abc_def0] {
                if let Some(p) = project_step(ran, span) {
                    let v = random_result(p, low);
                    assert!((-3..=3).contains(&v));
                }
            }
        },
        _ => panic!("expected a range"),
    }
}
