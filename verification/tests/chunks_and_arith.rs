use lib::loadstate::{chunk_name, load_closure, Constant, LoadErrorKind, LoadState};
use lib::baselib::{tonumber_base, TonumberError};
use lib::midi::{resolve_endpoint, EndpointArg};
use lib::pkglib::{findloader_step, module_not_found, FindAction, SearcherReply};
use lib::lobject::{arith_op, intarith, invalid_option_message, pushvfstring, shift_left, ArithOp, FmtArg, IntArithError};

fn header() -> Vec<u8> {
    let mut v = b"Lua".to_vec();
    v.push(0x54);
    v.push(0);
    v.extend_from_slice(&[0x19, 0x7F, 0x0D, 0x0A, 0x1A, 0x0A]);
    v.extend_from_slice(&0x5678i64.to_le_bytes());
    v.extend_from_slice(&370.5f64.to_bits().to_le_bytes());
    v
}

fn string(v: &mut Vec<u8>, s: &[u8]) {
    v.push(0x80 | (s.len() as u8 + 1));
    v.extend_from_slice(s);
}

/// A main function with two instructions, three constants, one upvalue
/// named `_ENV`, and `nested` nested functions (each with no source, no
/// code and nothing else).
fn chunk(nested: u8) -> Vec<u8> {
    let mut v = header();
    v.push(1); // upvalues of the closure
    string(&mut v, b"=test");
    v.push(0x80); // linedefined
    v.push(0x80); // lastlinedefined
    v.push(0); // numparams
    v.push(1); // is_vararg
    v.push(2); // maxstacksize
    v.push(0x82); // code
    v.extend_from_slice(&0x51u32.to_le_bytes());
    v.extend_from_slice(&0x0100_0046u32.to_le_bytes());
    v.push(0x83); // constants
    v.push(3);
    v.extend_from_slice(&42i64.to_le_bytes());
    v.push(4);
    string(&mut v, b"hi");
    v.push(17);
    v.push(0x81); // upvalues
    v.extend_from_slice(&[1, 0, 0]);
    v.push(0x80 | nested); // nested functions
    for _ in 0..nested {
        v.push(0x80); // no source
        v.push(0x01); // linedefined 200, two bytes
        v.push(0xC8);
        v.push(0x80 | 3);
        v.extend_from_slice(&[1, 0, 3]);
        v.extend_from_slice(&[0x80, 0x80, 0x80, 0x80]); // code, constants, upvalues, nested
        v.extend_from_slice(&[0x80, 0x80, 0x80, 0x80]); // debug
    }
    v.push(0x82); // lineinfo
    v.extend_from_slice(&[1, 0]);
    v.push(0x81); // absolute lines
    v.extend_from_slice(&[0x80, 0x81]);
    v.push(0x81); // local variables
    string(&mut v, b"x");
    v.extend_from_slice(&[0x80, 0x82]);
    v.push(0x81); // upvalue names
    string(&mut v, b"_ENV");
    v
}

#[test]
fn loads_a_main_function() {
    let c = load_closure(chunk(0), b"=test").unwrap();
    assert_eq!(c.nupvalues, 1);
    let f = &c.p;
    assert_eq!(f.source, Some(b"=test".to_vec()));
    assert_eq!(f.linedefined, 0);
    assert_eq!(f.numparams, 0);
    assert!(f.is_vararg);
    assert_eq!(f.maxstacksize, 2);
    assert_eq!(f.code, vec![0x51, 0x0100_0046]);
    assert_eq!(f.constants, vec![Constant::Int(42), Constant::Str(b"hi".to_vec()), Constant::True]);
    assert_eq!(f.upvalues.len(), 1);
    assert_eq!(f.upvalues[0].instack, 1);
    assert_eq!(f.upvalues[0].name, Some(b"_ENV".to_vec()));
    assert_eq!(f.lineinfo, vec![1, 0]);
    assert_eq!(f.abslineinfo.len(), 1);
    assert_eq!(f.abslineinfo[0].pc, 0);
    assert_eq!(f.abslineinfo[0].line, 1);
    assert_eq!(f.locvars.len(), 1);
    assert_eq!(f.locvars[0].varname, Some(b"x".to_vec()));
    assert_eq!(f.locvars[0].endpc, 2);
    assert!(f.protos.is_empty());
}

#[test]
fn nested_functions_take_the_enclosing_source() {
    let c = load_closure(chunk(2), b"@prog.luac").unwrap();
    assert_eq!(c.p.protos.len(), 2);
    for inner in &c.p.protos {
        assert_eq!(inner.source, Some(b"=test".to_vec()));
        assert_eq!(inner.linedefined, 200);
        assert_eq!(inner.lastlinedefined, 3);
        assert_eq!(inner.numparams, 1);
        assert!(!inner.is_vararg);
        assert_eq!(inner.maxstacksize, 3);
    }
}

#[test]
fn refuses_a_foreign_signature() {
    let mut v = chunk(0);
    v[2] = b'x';
    let e = load_closure(v, b"=stdin").unwrap_err();
    assert_eq!(e.kind, LoadErrorKind::NotBinaryChunk);
    assert_eq!(e.name, b"stdin".to_vec());
    assert_eq!(e.kind.why(), "not a binary chunk");
}

#[test]
fn refuses_other_versions_and_formats() {
    let mut v = chunk(0);
    v[3] = 0x53;
    assert_eq!(load_closure(v, b"x").unwrap_err().kind, LoadErrorKind::VersionMismatch);
    let mut v = chunk(0);
    v[4] = 1;
    assert_eq!(load_closure(v, b"x").unwrap_err().kind, LoadErrorKind::FormatMismatch);
    let mut v = chunk(0);
    v[6] = 0x7E;
    assert_eq!(load_closure(v, b"x").unwrap_err().kind, LoadErrorKind::CorruptedChunk);
    let mut v = chunk(0);
    v[11] = 0x79;
    assert_eq!(load_closure(v, b"x").unwrap_err().kind, LoadErrorKind::IntegerFormatMismatch);
    let mut v = chunk(0);
    v[26] = 0;
    assert_eq!(load_closure(v, b"x").unwrap_err().kind, LoadErrorKind::FloatFormatMismatch);
}

#[test]
fn refuses_a_truncated_chunk() {
    let v = chunk(1);
    for cut in [0, 5, 27, 40, v.len() - 1] {
        let e = load_closure(v[..cut].to_vec(), b"\x1bLua").unwrap_err();
        assert_eq!(e.kind, LoadErrorKind::TruncatedChunk);
        assert_eq!(e.name, b"binary string".to_vec());
    }
}

#[test]
fn refuses_a_missing_string_constant() {
    let mut v = header();
    v.push(0);
    v.extend_from_slice(&[0x80, 0x80, 0x80, 0, 0, 2, 0x80]);
    v.push(0x81);
    v.push(4);
    v.push(0x80); // size 0: no string
    assert_eq!(load_closure(v, b"x").unwrap_err().kind, LoadErrorKind::BadStringConstant);
}

#[test]
fn counts_are_bounded() {
    let mut st = LoadState { input: vec![0x7F, 0x7F, 0x7F, 0x7F, 0x7F], pos: 0, name: Vec::new() };
    assert_eq!(st.load_int(), Err(LoadErrorKind::IntegerOverflow));
    let mut st = LoadState { input: vec![0x01, 0x00, 0x80], pos: 0, name: Vec::new() };
    assert_eq!(st.load_int(), Ok(16384));
    assert_eq!(st.pos, 3);
    let mut st = LoadState { input: vec![0x01, 0x00], pos: 0, name: Vec::new() };
    assert_eq!(st.load_size(), Err(LoadErrorKind::TruncatedChunk));
}

#[test]
fn chunk_names_in_messages() {
    assert_eq!(chunk_name(b"@file.lua"), b"file.lua".to_vec());
    assert_eq!(chunk_name(b"=stdin"), b"stdin".to_vec());
    assert_eq!(chunk_name(b"\x1bLua"), b"binary string".to_vec());
    assert_eq!(chunk_name(b"plain"), b"plain".to_vec());
    assert_eq!(chunk_name(b""), Vec::<u8>::new());
}

#[test]
fn integer_arithmetic_wraps() {
    assert_eq!(intarith(ArithOp::Add, i64::MAX, 1), Some(Ok(i64::MIN)));
    assert_eq!(intarith(ArithOp::Sub, i64::MIN, 1), Some(Ok(i64::MAX)));
    assert_eq!(intarith(ArithOp::Mul, 1 << 62, 4), Some(Ok(0)));
    assert_eq!(intarith(ArithOp::Unm, i64::MIN, 0), Some(Ok(i64::MIN)));
    assert_eq!(intarith(ArithOp::BNot, 0, 0), Some(Ok(-1)));
    assert_eq!(intarith(ArithOp::BAnd, 12, 10), Some(Ok(8)));
    assert_eq!(intarith(ArithOp::BOr, 12, 10), Some(Ok(14)));
    assert_eq!(intarith(ArithOp::BXor, 12, 10), Some(Ok(6)));
    assert_eq!(intarith(ArithOp::Pow, 2, 3), None);
    assert_eq!(intarith(ArithOp::Div, 2, 3), None);
}

#[test]
fn integer_division_floors() {
    assert_eq!(intarith(ArithOp::IDiv, 7, 2), Some(Ok(3)));
    assert_eq!(intarith(ArithOp::IDiv, -7, 2), Some(Ok(-4)));
    assert_eq!(intarith(ArithOp::IDiv, 7, -2), Some(Ok(-4)));
    assert_eq!(intarith(ArithOp::IDiv, -7, -2), Some(Ok(3)));
    assert_eq!(intarith(ArithOp::IDiv, i64::MIN, -1), Some(Ok(i64::MIN)));
    assert_eq!(intarith(ArithOp::IDiv, i64::MIN, 1), Some(Ok(i64::MIN)));
    assert_eq!(intarith(ArithOp::Mod, -7, 3), Some(Ok(2)));
    assert_eq!(intarith(ArithOp::Mod, 7, -3), Some(Ok(-2)));
    assert_eq!(intarith(ArithOp::Mod, -6, 3), Some(Ok(0)));
    assert_eq!(intarith(ArithOp::Mod, i64::MIN, -1), Some(Ok(0)));
    assert_eq!(intarith(ArithOp::IDiv, 1, 0), Some(Err(IntArithError::DivideByZero)));
    assert_eq!(intarith(ArithOp::Mod, 1, 0), Some(Err(IntArithError::ModuloByZero)));
    assert_eq!(IntArithError::DivideByZero.message(), "attempt to perform 'n//0'");
    assert_eq!(IntArithError::ModuloByZero.message(), "attempt to perform 'n%0'");
}

#[test]
fn division_and_modulo_go_together() {
    for &m in &[-17i64, -1, 0, 5, 23, i64::MAX, i64::MIN + 1] {
        for &n in &[-5i64, -2, 1, 3, 7, i64::MAX] {
            let q = intarith(ArithOp::IDiv, m, n).unwrap().unwrap();
            let r = intarith(ArithOp::Mod, m, n).unwrap().unwrap();
            assert_eq!(q.wrapping_mul(n).wrapping_add(r), m);
            if n > 0 {
                assert!(0 <= r && r < n);
            } else {
                assert!(n < r && r <= 0);
            }
        }
    }
}

#[test]
fn shifts_are_logical() {
    assert_eq!(shift_left(1, 63), i64::MIN);
    assert_eq!(shift_left(1, 64), 0);
    assert_eq!(shift_left(-1, -1), i64::MAX);
    assert_eq!(shift_left(-1, -64), 0);
    assert_eq!(intarith(ArithOp::Shr, -1, 60), Some(Ok(15)));
    assert_eq!(intarith(ArithOp::Shl, 3, -1), Some(Ok(1)));
    assert_eq!(intarith(ArithOp::Shr, 1, i64::MIN), Some(Ok(0)));
}

#[test]
fn operator_codes() {
    assert_eq!(arith_op(0), Some(ArithOp::Add));
    assert_eq!(arith_op(6), Some(ArithOp::IDiv));
    assert_eq!(arith_op(13), Some(ArithOp::BNot));
    assert_eq!(arith_op(14), None);
    assert_eq!(arith_op(-1), None);
}

#[test]
fn formats_messages() {
    let args = [FmtArg::Str(Some(b"x".to_vec())), FmtArg::Str(Some(b"truncated chunk".to_vec()))];
    assert_eq!(pushvfstring(b"%s: bad binary format (%s)", &args), Ok(b"x: bad binary format (truncated chunk)".to_vec()));
    let args = [FmtArg::Int(-12), FmtArg::Integer(i64::MIN), FmtArg::Char(65), FmtArg::Code(0x20AC)];
    assert_eq!(pushvfstring(b"%d%%-%I %c|%U", &args), Ok(b"-12%--9223372036854775808 A|\xE2\x82\xAC".to_vec()));
    let args = [FmtArg::Str(None), FmtArg::Str(Some(b"ab\0cd".to_vec())), FmtArg::Number(b"1.5".to_vec()), FmtArg::Pointer(b"0x1234".to_vec())];
    assert_eq!(pushvfstring(b"%s %s %f %p", &args), Ok(b"(null) ab 1.5 0x1234".to_vec()));
    assert_eq!(pushvfstring(b"ab\0%x", &[]), Ok(b"ab".to_vec()));
}

#[test]
fn refuses_unknown_directives() {
    assert_eq!(pushvfstring(b"100%x", &[]), Err(b'x'));
    assert_eq!(pushvfstring(b"50%", &[]), Err(0));
    assert_eq!(invalid_option_message(b'x'), b"invalid option '%x' to 'lua_pushfstring'".to_vec());
}

#[test]
fn gathers_why_no_loader_was_found() {
    let mut why = Vec::new();
    assert_eq!(findloader_step(&mut why, &SearcherReply::Message(b"no field package.preload['m']".to_vec())), FindAction::AskNext);
    assert_eq!(findloader_step(&mut why, &SearcherReply::Other), FindAction::AskNext);
    assert_eq!(findloader_step(&mut why, &SearcherReply::Message(b"no file 'm.lua'".to_vec())), FindAction::AskNext);
    assert_eq!(why, b"\n\tno field package.preload['m']\n\tno file 'm.lua'".to_vec());
    assert_eq!(findloader_step(&mut why, &SearcherReply::Loader), FindAction::Found);
    assert_eq!(
        module_not_found(b"m", &why),
        b"module 'm' not found:\n\tno field package.preload['m']\n\tno file 'm.lua'".to_vec()
    );
}

#[test]
fn tonumber_in_a_base() {
    assert_eq!(tonumber_base(b"ff", 16), Ok(Some(255)));
    assert_eq!(tonumber_base(b"  -FF  ", 16), Ok(Some(-255)));
    assert_eq!(tonumber_base(b"zz", 36), Ok(Some(1295)));
    assert_eq!(tonumber_base(b"+7", 10), Ok(Some(7)));
    assert_eq!(tonumber_base(b"ffffffffffffffff", 16), Ok(Some(-1)));
    assert_eq!(tonumber_base(b"10000000000000000", 16), Ok(Some(0)));
    assert_eq!(tonumber_base(b"8", 8), Ok(None));
    assert_eq!(tonumber_base(b"", 10), Ok(None));
    assert_eq!(tonumber_base(b"-", 10), Ok(None));
    assert_eq!(tonumber_base(b"1 2", 10), Ok(None));
    assert_eq!(tonumber_base(b"1\0", 10), Ok(None));
    assert_eq!(tonumber_base(b"10", 1), Err(TonumberError::BaseOutOfRange));
    assert_eq!(tonumber_base(b"10", 37), Err(TonumberError::BaseOutOfRange));
}

#[test]
fn picks_endpoints_by_position_or_name() {
    let names = vec![b"IAC Bus 1".to_vec(), b"Synth".to_vec(), b"Synth".to_vec()];
    assert_eq!(resolve_endpoint(&names, &EndpointArg::Index(1)), Some(0));
    assert_eq!(resolve_endpoint(&names, &EndpointArg::Index(3)), Some(2));
    assert_eq!(resolve_endpoint(&names, &EndpointArg::Index(4)), None);
    assert_eq!(resolve_endpoint(&names, &EndpointArg::Index(0)), None);
    assert_eq!(resolve_endpoint(&names, &EndpointArg::Name(b"Synth".to_vec())), Some(1));
    assert_eq!(resolve_endpoint(&names, &EndpointArg::Name(b"Piano".to_vec())), None);
    assert_eq!(resolve_endpoint(&names, &EndpointArg::Other), None);
}
