use lib::llex::{lex_error_text, llex, token2str, LexError, LexErrorKind, LexState, Near, Token};

fn lex_all(src: &[u8]) -> Result<Vec<(Token, i32)>, lib::llex::LexError> {
    let mut ls = LexState::set_input();
    let mut out = Vec::new();
    loop {
        ls.next(src)?;
        let t = ls.current.take().unwrap();
        let done = matches!(t, Token::Eos);
        out.push((t, ls.line));
        if done {
            return Ok(out);
        }
    }
}

fn one(src: &[u8]) -> Token {
    let (t, _, _) = llex(src, 0, 1).expect("lexes");
    t
}

fn err(src: &[u8]) -> (LexErrorKind, i32, Near) {
    let mut p = 0;
    let mut line = 1;
    loop {
        match llex(src, p, line) {
            Ok((Token::Eos, _, _)) => panic!("no error in {:?}", src),
            Ok((_, q, l)) => {
                p = q;
                line = l;
            },
            Err(e) => return (e.kind, e.line, e.near),
        }
    }
}

#[test]
fn statement_tokens() {
    let toks = lex_all(b"local x = 10 + 0x1F -- comment\nreturn x").unwrap();
    assert_eq!(toks.len(), 9);
    assert!(matches!(toks[0], (Token::Reserved(12), 1)));
    assert!(matches!(&toks[1], (Token::Name(n), 1) if n == b"x"));
    assert!(matches!(toks[2], (Token::Single(b'='), 1)));
    assert!(matches!(toks[3], (Token::Int(10), 1)));
    assert!(matches!(toks[4], (Token::Single(b'+'), 1)));
    assert!(matches!(toks[5], (Token::Int(31), 1)));
    assert!(matches!(toks[6], (Token::Reserved(17), 2)));
    assert!(matches!(&toks[7], (Token::Name(n), 2) if n == b"x"));
    assert!(matches!(toks[8], (Token::Eos, 2)));
}

#[test]
fn operators() {
    let toks = lex_all(b"a//b ... .. == ~= <= >= << >> :: ~ < > / = : [ .").unwrap();
    let kinds: Vec<String> = toks.iter().map(|(t, _)| String::from_utf8(token2str(t)).unwrap()).collect();
    assert_eq!(
        kinds,
        vec![
            "<name>", "'//'", "<name>", "'...'", "'..'", "'=='", "'~='", "'<='", "'>='", "'<<'", "'>>'", "'::'", "'~'", "'<'",
            "'>'", "'/'", "'='", "':'", "'['", "'.'", "<eof>"
        ]
    );
}

#[test]
fn token_names_in_messages() {
    assert_eq!(token2str(&Token::Single(b'+')), b"'+'".to_vec());
    assert_eq!(token2str(&Token::Single(1)), b"'<\\1>'".to_vec());
    assert_eq!(token2str(&Token::Reserved(0)), b"'and'".to_vec());
    assert_eq!(token2str(&Token::Reserved(21)), b"'while'".to_vec());
    assert_eq!(token2str(&Token::Int(3)), b"<integer>".to_vec());
    assert_eq!(token2str(&Token::Flt(b"1.5".to_vec())), b"<number>".to_vec());
    assert_eq!(token2str(&Token::Str(Vec::new())), b"<string>".to_vec());
}

#[test]
fn short_strings() {
    assert!(matches!(one(b"'a\\tb'"), Token::Str(s) if s == b"a\tb"));
    assert!(matches!(one(b"\"\\65\\x41\\u{48}\""), Token::Str(s) if s == b"AAH"));
    assert!(matches!(one(b"\"a\\z   \n  b\""), Token::Str(s) if s == b"ab"));
    assert!(matches!(one(b"'\\u{20AC}'"), Token::Str(s) if s == "\u{20AC}".as_bytes()));
    assert!(matches!(one(b"'\\u{7FFFFFFF}'"), Token::Str(s) if s == vec![0xFD, 0xBF, 0xBF, 0xBF, 0xBF, 0xBF]));
    assert!(matches!(one(b"'it\\'s'"), Token::Str(s) if s == b"it's"));
    assert!(matches!(one(b"'a\\\nb'"), Token::Str(s) if s == b"a\nb"));
    assert!(matches!(one(b"'\\0'"), Token::Str(s) if s == vec![0]));
}

#[test]
fn long_strings_and_comments() {
    assert!(matches!(one(b"[==[\nline1\r\nline2]]x]==]"), Token::Str(s) if s == b"line1\nline2]]x"));
    assert!(matches!(one(b"[[]]"), Token::Str(s) if s.is_empty()));
    let toks = lex_all(b"--[==[ long\ncomment ]==] x --[ short\ny").unwrap();
    assert_eq!(toks.len(), 3);
    assert!(matches!(&toks[0], (Token::Name(n), 2) if n == b"x"));
    assert!(matches!(&toks[1], (Token::Name(n), 3) if n == b"y"));
}

#[test]
fn numerals() {
    assert!(matches!(one(b"3.14"), Token::Flt(t) if t == b"3.14"));
    assert!(matches!(one(b"1e10"), Token::Flt(t) if t == b"1e10"));
    assert!(matches!(one(b"2E-3"), Token::Flt(t) if t == b"2E-3"));
    assert!(matches!(one(b"0x1p4"), Token::Flt(t) if t == b"0x1p4"));
    assert!(matches!(one(b"0xA.8"), Token::Flt(t) if t == b"0xA.8"));
    assert!(matches!(one(b".5"), Token::Flt(t) if t == b".5"));
    assert!(matches!(one(b"9223372036854775808"), Token::Flt(_)));
    assert!(matches!(one(b"9223372036854775807"), Token::Int(i64::MAX)));
    assert!(matches!(one(b"0xffffffffffffffff"), Token::Int(-1)));
    assert!(matches!(one(b"007"), Token::Int(7)));
}

#[test]
fn line_breaks_count_once_per_pair() {
    let toks = lex_all(b"\r\n\n\r a\n\nb").unwrap();
    assert!(matches!(&toks[0], (Token::Name(n), 3) if n == b"a"));
    assert!(matches!(&toks[1], (Token::Name(n), 5) if n == b"b"));
}

#[test]
fn lexical_errors() {
    assert!(matches!(err(b"3x"), (LexErrorKind::MalformedNumber, 1, Near::Text(t)) if t == b"3x"));
    assert!(matches!(err(b"0x"), (LexErrorKind::MalformedNumber, 1, Near::Text(t)) if t == b"0x"));
    assert!(matches!(err(b"1e+"), (LexErrorKind::MalformedNumber, 1, Near::Text(t)) if t == b"1e+"));
    assert!(matches!(err(b"'abc"), (LexErrorKind::UnfinishedString, 1, Near::Eof)));
    assert!(matches!(err(b"x\n'ab\ncd'"), (LexErrorKind::UnfinishedString, 2, Near::Text(t)) if t == b"'ab"));
    assert!(matches!(err(b"\"\\q\""), (LexErrorKind::InvalidEscape, 1, Near::Text(t)) if t == b"\"\\q"));
    assert!(matches!(err(b"\"\\300\""), (LexErrorKind::DecimalEscapeTooLarge, 1, Near::Text(t)) if t == b"\"\\300\""));
    assert!(matches!(err(b"\"\\xZZ\""), (LexErrorKind::HexDigitExpected, 1, Near::Text(t)) if t == b"\"\\xZ"));
    assert!(matches!(err(b"\"\\x4Z\""), (LexErrorKind::HexDigitExpected, 1, Near::Text(t)) if t == b"\"\\x4Z"));
    assert!(matches!(err(b"'\\u48'"), (LexErrorKind::MissingOpenBrace, 1, Near::Text(t)) if t == b"'\\u4"));
    assert!(matches!(err(b"'\\u{48'"), (LexErrorKind::MissingCloseBrace, 1, Near::Text(t)) if t == b"'\\u{48'"));
    assert!(matches!(err(b"'\\u{80000000}'"), (LexErrorKind::Utf8ValueTooLarge, 1, Near::Text(t)) if t == b"'\\u{80000000"));
    assert!(matches!(err(b"'\\u{}'"), (LexErrorKind::HexDigitExpected, 1, Near::Text(t)) if t == b"'\\u{}"));
    assert!(matches!(err(b"[="), (LexErrorKind::InvalidLongDelimiter, 1, Near::Text(t)) if t == b"[="));
    assert!(matches!(err(b"\n[[abc"), (LexErrorKind::UnfinishedLongString(2), 2, Near::Eof)));
    assert!(matches!(err(b"--[[ x\n"), (LexErrorKind::UnfinishedLongComment(1), 2, Near::Eof)));
    assert!(matches!(err(b"'a\\0b\n"), (LexErrorKind::UnfinishedString, 1, Near::Text(t)) if t == b"'a"));
}

#[test]
fn error_messages() {
    let e = lex_all(b"x\n'ab\ncd'").unwrap_err();
    assert_eq!(e.message(b"input"), b"input:2: unfinished string near ''ab'".to_vec());
    let e = LexError { kind: LexErrorKind::UnfinishedLongComment(3), line: 7, near: Near::Eof };
    assert_eq!(e.message(b"[string \"x\"]"), b"[string \"x\"]:7: unfinished long comment (starting at line 3) near <eof>".to_vec());
    let e = LexError { kind: LexErrorKind::TooManyLines, line: 5, near: Near::Nothing };
    assert_eq!(e.message(b"f"), b"f:5: chunk has too many lines".to_vec());
    assert_eq!(lex_error_text(&LexErrorKind::MissingCloseBrace), b"missing '}'".to_vec());
    assert_eq!(lex_error_text(&LexErrorKind::Utf8ValueTooLarge), b"UTF-8 value too large".to_vec());
}
