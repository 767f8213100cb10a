use lib::toml::{Document, Parser, TomlErrorKind, TomlFloat, TomlValue};
use lib::toml_writer::{
    lua_to_toml, toml_stringify, toml_stringify_value, write_toml_key, write_toml_string, LuaData, LuaKey, LuaTable,
    StringifyError,
};
use lib::urllib::{
    find_bytes, from_hex, header_line, memchr, memrchr, parse_headers, parse_port, parse_url, percent_decode,
    percent_encode, plan_request, split_at_slash, split_off, strip_crlf, to_lower, to_upper, trim_bytes, RequestMethod,
};

#[test]
fn percent_coding() {
    assert_eq!(percent_encode(b"a b/~"), b"a%20b%2F~".to_vec());
    assert_eq!(percent_encode(&[0xff]), b"%FF".to_vec());
    assert_eq!(percent_decode(b"a%20b%2f"), b"a b/".to_vec());
    assert_eq!(percent_decode(b"100%"), b"100%".to_vec());
    assert_eq!(percent_decode(b"%zz+"), b"%zz+".to_vec());
    assert_eq!(from_hex(b'c'), Some(12));
    assert_eq!(from_hex(b'g'), None);
}

#[test]
fn decode_undoes_encode() {
    let samples: [&[u8]; 4] = [b"", b"hello world", b"%41?&=", &[0, 1, 127, 128, 255]];
    for s in samples {
        assert_eq!(percent_decode(&percent_encode(s)), s.to_vec());
    }
}

#[test]
fn byte_searches() {
    assert_eq!(memchr(b"abcabc", b'c'), Some(2));
    assert_eq!(memrchr(b"abcabc", b'c'), Some(5));
    assert_eq!(memchr(b"abc", b'x'), None);
    assert_eq!(find_bytes(b"hello world", b"o w"), Some(4));
    assert_eq!(find_bytes(b"hello", b"xyz"), None);
    assert_eq!(split_off(b"k=v=w", b'='), (&b"k"[..], Some(&b"v=w"[..])));
    assert_eq!(split_off(b"kv", b'='), (&b"kv"[..], None));
    assert_eq!(split_at_slash(b"host/p/q"), (b"host".to_vec(), b"/p/q".to_vec()));
    assert_eq!(split_at_slash(b"host"), (b"host".to_vec(), b"/".to_vec()));
}

#[test]
fn ports() {
    assert_eq!(parse_port(b"8080"), Some(8080));
    assert_eq!(parse_port(b""), Some(0));
    assert_eq!(parse_port(b"65535"), Some(65535));
    assert_eq!(parse_port(b"65536"), None);
    assert_eq!(parse_port(b"80a"), None);
}

#[test]
fn urls() {
    let u = parse_url(b"https://user:pw@example.com:8443/a/b?x=1#top");
    assert_eq!(u.scheme, b"https".to_vec());
    assert_eq!(u.user, b"user".to_vec());
    assert_eq!(u.password, b"pw".to_vec());
    assert_eq!(u.host, b"example.com".to_vec());
    assert_eq!(u.port, Some(8443));
    assert_eq!(u.path, b"/a/b".to_vec());
    assert_eq!(u.query, b"x=1".to_vec());
    assert_eq!(u.fragment, b"top".to_vec());
    let v = parse_url(b"http://[::1]:80");
    assert_eq!(v.host, b"::1".to_vec());
    assert_eq!(v.port, Some(80));
    assert_eq!(v.path, b"/".to_vec());
    let w = parse_url(b"example.org");
    assert_eq!(w.scheme, Vec::<u8>::new());
    assert_eq!(w.host, b"example.org".to_vec());
    assert_eq!(w.port, None);
}

#[test]
fn header_parsing() {
    assert_eq!(strip_crlf(b"abc\r\n"), &b"abc"[..]);
    assert_eq!(trim_bytes(b" \tx y\t "), &b"x y"[..]);
    assert_eq!(to_lower(b"Content-Type"), b"content-type".to_vec());
    assert_eq!(to_upper(b"patch"), b"PATCH".to_vec());
    let h = parse_headers(b"HTTP/1.1 200 OK\r\nContent-Type: text/plain\r\nSet-Cookie: a=1\r\nset-cookie: b=2\r\nbad line\r\n\r\n");
    assert_eq!(
        h,
        vec![
            (b"content-type".to_vec(), b"text/plain".to_vec()),
            (b"set-cookie".to_vec(), b"a=1, b=2".to_vec()),
        ]
    );
    assert_eq!(header_line(b"Accept", b"*/*"), b"Accept: */*".to_vec());
}

#[test]
fn request_plans() {
    let p = plan_request(b"GET", Some(b"ignored"));
    assert!(matches!(p.method, RequestMethod::Get));
    assert!(p.post_fields.is_none());
    let p = plan_request(b"post", None);
    assert!(matches!(p.method, RequestMethod::Post));
    assert_eq!(p.post_fields, Some(Vec::new()));
    let p = plan_request(b"delete", Some(b"x"));
    assert!(matches!(p.method, RequestMethod::Custom(ref m) if m == b"DELETE"));
    assert_eq!(p.post_fields, Some(b"x".to_vec()));
}

fn value_of<'a>(d: &'a [(Vec<u8>, TomlValue)], key: &[u8]) -> &'a TomlValue {
    &d.iter().find(|(k, _)| k == key).expect("key present").1
}

#[test]
fn toml_documents() {
    let src = b"title = \"x\\ty\"\n# note\nn = 1_000\nh = 0xff\nf = 1.5\nok = true\n\n[server]\nport = 8080\nlist = [1, 2]\n[[item]]\nname = 'a'\n[[item]]\nname = 'b'\n";
    let doc = Document::parse(src).expect("parses");
    let root = &doc.root;
    assert!(matches!(value_of(root, b"title"), TomlValue::String(s) if s == b"x\ty"));
    assert!(matches!(value_of(root, b"n"), TomlValue::Integer(1000)));
    assert!(matches!(value_of(root, b"h"), TomlValue::Integer(255)));
    assert!(matches!(value_of(root, b"f"), TomlValue::Float(TomlFloat::Decimal(t)) if t == b"1.5"));
    assert!(matches!(value_of(root, b"ok"), TomlValue::Bool(true)));
    match value_of(root, b"server") {
        TomlValue::Table(pairs) => {
            assert!(matches!(value_of(pairs, b"port"), TomlValue::Integer(8080)));
            assert!(matches!(value_of(pairs, b"list"), TomlValue::Array(a) if a.len() == 2));
        },
        other => panic!("unexpected {:?}", other),
    }
    match value_of(root, b"item") {
        TomlValue::Array(items) => {
            assert_eq!(items.len(), 2);
            assert!(matches!(&items[1], TomlValue::Table(p) if matches!(value_of(p, b"name"), TomlValue::String(s) if s == b"b")));
        },
        other => panic!("unexpected {:?}", other),
    }
}

#[test]
fn toml_errors() {
    let e = Document::parse(b"a = \"open").unwrap_err();
    assert_eq!(e.kind, TomlErrorKind::UnterminatedString);
    let e = Document::parse(b"a = 1\na = 2\n").unwrap_err();
    assert_eq!(e.kind, TomlErrorKind::DuplicateKey);
    let e = Document::parse(b"a = \n").unwrap_err();
    assert!(matches!(e.kind, TomlErrorKind::UnexpectedCharInValue(_) | TomlErrorKind::EofInValue));
    let e = Document::parse(b"a = [1, 2").unwrap_err();
    assert_eq!(e.kind, TomlErrorKind::EofInArray);
}

#[test]
fn toml_parser_steps() {
    let mut p = Parser::new(b"  # c\nx");
    p.skip_whitespace();
    assert_eq!(p.peek(), Some(b'#'));
    p.skip_comment();
    p.skip_whitespace_and_newlines();
    assert_eq!(p.peek(), Some(b'x'));
    assert_eq!(p.advance(), Some(b'x'));
    assert_eq!(p.peek(), None);
}

fn skey(s: &str) -> LuaKey {
    LuaKey::Str(s.as_bytes().to_vec(), None)
}

#[test]
fn toml_writing() {
    let t = LuaTable { entries: vec![(skey("a"), LuaData::Int(1)), (skey("b c"), LuaData::Str(b"x\"y".to_vec()))], border: 0 };
    assert_eq!(toml_stringify(&t), Ok(b"a = 1\n\"b c\" = \"x\\\"y\"\n".to_vec()));
    let inner = LuaTable { entries: vec![(skey("on"), LuaData::Bool(true))], border: 0 };
    let t = LuaTable { entries: vec![(skey("sec"), LuaData::Table(inner))], border: 0 };
    assert_eq!(toml_stringify(&t), Ok(b"\n[sec]\non = true\n".to_vec()));
    let mut out = Vec::new();
    write_toml_key(&mut out, b"plain_key-1");
    assert_eq!(out, b"plain_key-1".to_vec());
    let mut out = Vec::new();
    write_toml_string(&mut out, b"a\nb");
    assert_eq!(out, b"\"a\\nb\"".to_vec());
}

#[test]
fn toml_writing_errors() {
    let t = LuaTable { entries: vec![(LuaKey::Other, LuaData::Int(1))], border: 0 };
    assert_eq!(toml_stringify(&t), Err(b"toml.stringify: table keys must be strings".to_vec()));
}

#[test]
fn toml_section_names_from_raw_bytes() {
    let inner = LuaTable { entries: vec![(skey("x"), LuaData::Int(1))], border: 0 };
    let t = LuaTable { entries: vec![(LuaKey::Str(vec![0xff], None), LuaData::Table(inner))], border: 0 };
    assert_eq!(toml_stringify(&t), Ok(b"\n[\xEF\xBF\xBD]\nx = 1\n".to_vec()));
}

#[test]
fn toml_header_over_a_value_is_refused() {
    let e = Document::parse(b"a = 1\n[a]\n").unwrap_err();
    assert_eq!(e.kind, TomlErrorKind::DuplicateKey);
    let e = Document::parse(b"a = 1\nb.c = 2\na.x = 3\n").unwrap_err();
    assert_eq!(e.kind, TomlErrorKind::DuplicateKey);
    let e = Document::parse(b"a = \"s\"\n[[a.b]]\n").unwrap_err();
    assert_eq!(e.kind, TomlErrorKind::DuplicateKey);
    assert!(Document::parse(b"[a]\nx = 1\n[a.b]\ny = 2\n").is_ok());
}

fn ikey(i: i64) -> LuaKey {
    LuaKey::Int(i)
}

#[test]
fn toml_plain_arrays_are_written_inline() {
    let arr = LuaTable { entries: vec![(ikey(1), LuaData::Int(1)), (ikey(2), LuaData::Int(2))], border: 2 };
    let t = LuaTable { entries: vec![(skey("a"), LuaData::Table(arr))], border: 0 };
    assert_eq!(toml_stringify(&t), Ok(b"a = [1, 2]\n".to_vec()));
    let empty = LuaTable { entries: vec![], border: 0 };
    let inner = LuaTable { entries: vec![(skey("x"), LuaData::Int(1))], border: 0 };
    let t = LuaTable { entries: vec![(skey("s"), LuaData::Table(inner)), (skey("e"), LuaData::Table(empty))], border: 0 };
    assert_eq!(toml_stringify(&t), Ok(b"e = []\n\n[s]\nx = 1\n".to_vec()));
}

#[test]
fn toml_refused_values_write_nothing() {
    let mut out = b"k = ".to_vec();
    assert!(lua_to_toml(&LuaData::Nil, &mut out, b"p", 1).is_err());
    assert_eq!(out, b"k = ".to_vec());
}

#[test]
fn toml_error_messages() {
    let e = Document::parse(b"a = \"open").unwrap_err();
    assert_eq!(e.message(), b"line 1: unterminated string".to_vec());
    let e = Document::parse(b"a = 1\na = 2\n").unwrap_err();
    assert_eq!(e.message(), b"duplicate key 'a'".to_vec());
    let e = Document::parse(b"x = 1\ny = [1, 2").unwrap_err();
    assert_eq!(e.message(), b"line 2: EOF in array".to_vec());
    let e = Document::parse(b"a = 1\n[a]\n").unwrap_err();
    assert_eq!(e.message(), b"duplicate key 'a'".to_vec());
}

#[test]
fn port_values_past_the_limit_are_refused() {
    assert_eq!(parse_port(b"4294967376"), None);
    assert_eq!(parse_port(b"99999999999999999999999"), None);
    assert_eq!(parse_port(b"0065535"), Some(65535));
    assert_eq!(parse_port(b"100000"), None);
}

#[test]
fn stringify_any_value() {
    let msg = b"toml.stringify: expected table argument".to_vec();
    assert_eq!(toml_stringify_value(&LuaData::Int(5)), Err(StringifyError::NotATable));
    assert_eq!(StringifyError::NotATable.message(), msg);
    assert_eq!(toml_stringify_value(&LuaData::Nil), Err(StringifyError::NotATable));
    let key = |s: &str| LuaKey::Str(s.as_bytes().to_vec(), None);
    let inner = LuaTable { entries: vec![(key("c"), LuaData::Int(2))], border: 0 };
    let t = LuaTable { entries: vec![(key("a"), LuaData::Int(1)), (key("b"), LuaData::Table(inner))], border: 0 };
    assert_eq!(toml_stringify_value(&LuaData::Table(t)), Ok(b"a = 1\n\n[b]\nc = 2\n".to_vec()));
    let bad = LuaTable { entries: vec![(LuaKey::Other, LuaData::Int(1))], border: 0 };
    let r = toml_stringify_value(&LuaData::Table(bad));
    let text = b"toml.stringify: table keys must be strings".to_vec();
    assert_eq!(r, Err(StringifyError::Unwritable(text.clone())));
    assert_eq!(r.unwrap_err().message(), text);
}

#[test]
fn written_strings_read_back() {
    for s in [&b"plain"[..], b"", b"q\"b\\s\nn\rr\tt", b"\x01\x1f\x7f", b"\xff\xfe utf-8 \xc3\xa9"] {
        let mut out = b"x = ".to_vec();
        write_toml_string(&mut out, s);
        let end = out.len();
        out.extend_from_slice(b"\n");
        let mut p = Parser::new(&out);
        p.pos = 4;
        assert_eq!(p.parse_basic_string().ok(), Some(s.to_vec()));
        assert_eq!(p.pos, end);
    }
}

#[test]
fn written_keys_read_back() {
    for k in [&b"plain_key-1"[..], b"", b"a b", b"q\"b\\s", b"a.b", b"\x01\xff"] {
        let mut out = b"[".to_vec();
        write_toml_key(&mut out, k);
        let end = out.len();
        out.extend_from_slice(b" = 1\n");
        let mut p = Parser::new(&out);
        p.pos = 1;
        assert_eq!(p.parse_key_segment().ok(), Some(k.to_vec()));
        assert_eq!(p.pos, end);
    }
}
