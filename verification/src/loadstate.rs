use vstd::prelude::*;
use crate::lobject::AbsLineInfo;
use crate::midi::le_at;
use crate::strpack::as_i64;

verus! {

// ─── What a binary chunk holds ───────────────────────────────────────────────

/// Why a binary chunk was refused.
#[derive(Debug, Clone, Copy, PartialEq, Eq, Structural)]
pub enum LoadErrorKind {
    TruncatedChunk,
    IntegerOverflow,
    BadStringConstant,
    NotBinaryChunk,
    VersionMismatch,
    FormatMismatch,
    CorruptedChunk,
    IntegerFormatMismatch,
    FloatFormatMismatch,
}

impl LoadErrorKind {
    /// The reason as it appears in the message.
    pub fn why(&self) -> (r: &'static str)
        ensures
            *self == LoadErrorKind::TruncatedChunk ==> r@ == "truncated chunk"@,
            *self == LoadErrorKind::IntegerOverflow ==> r@ == "integer overflow"@,
            *self == LoadErrorKind::BadStringConstant ==> r@ == "bad format for code_constant string"@,
            *self == LoadErrorKind::NotBinaryChunk ==> r@ == "not a binary chunk"@,
            *self == LoadErrorKind::VersionMismatch ==> r@ == "version mismatch"@,
            *self == LoadErrorKind::FormatMismatch ==> r@ == "format mismatch"@,
            *self == LoadErrorKind::CorruptedChunk ==> r@ == "corrupted chunk"@,
            *self == LoadErrorKind::IntegerFormatMismatch ==> r@ == "integer format mismatch"@,
            *self == LoadErrorKind::FloatFormatMismatch ==> r@ == "float format mismatch"@,
    {
        match self {
            LoadErrorKind::TruncatedChunk => "truncated chunk",
            LoadErrorKind::IntegerOverflow => "integer overflow",
            LoadErrorKind::BadStringConstant => "bad format for code_constant string",
            LoadErrorKind::NotBinaryChunk => "not a binary chunk",
            LoadErrorKind::VersionMismatch => "version mismatch",
            LoadErrorKind::FormatMismatch => "format mismatch",
            LoadErrorKind::CorruptedChunk => "corrupted chunk",
            LoadErrorKind::IntegerFormatMismatch => "integer format mismatch",
            LoadErrorKind::FloatFormatMismatch => "float format mismatch",
        }
    }
}

/// A constant of a function: floats are kept as their bits.
#[derive(Debug, Clone, PartialEq, Eq)]
pub enum Constant {
    Nil,
    False,
    True,
    Float(u64),
    Int(i64),
    Str(Vec<u8>),
}

pub enum ConstantModel {
    Nil,
    False,
    True,
    Float(u64),
    Int(i64),
    Str(Seq<u8>),
}

impl Constant {
    pub open spec fn model(&self) -> ConstantModel {
        match self {
            Constant::Nil => ConstantModel::Nil,
            Constant::False => ConstantModel::False,
            Constant::True => ConstantModel::True,
            Constant::Float(x) => ConstantModel::Float(*x),
            Constant::Int(i) => ConstantModel::Int(*i),
            Constant::Str(b) => ConstantModel::Str(b@),
        }
    }
}

pub open spec fn opt_bytes(o: Option<Vec<u8>>) -> Option<Seq<u8>> {
    match o {
        Some(v) => Some(v@),
        None => None,
    }
}

/// How a function reaches one of its upvalues: in the enclosing function's
/// stack (`instack`) or among its upvalues, at index `index`.
#[derive(Debug, Clone, PartialEq, Eq)]
pub struct Upvaldesc {
    pub instack: u8,
    pub index: u8,
    pub kind: u8,
    pub name: Option<Vec<u8>>,
}

pub struct UpvalueModel {
    pub instack: u8,
    pub index: u8,
    pub kind: u8,
    pub name: Option<Seq<u8>>,
}

impl Upvaldesc {
    pub open spec fn model(&self) -> UpvalueModel {
        UpvalueModel { instack: self.instack, index: self.index, kind: self.kind, name: opt_bytes(self.name) }
    }
}

/// A local variable's name and the instructions over which it is live.
#[derive(Debug, Clone, PartialEq, Eq)]
pub struct LocVar {
    pub varname: Option<Vec<u8>>,
    pub startpc: i32,
    pub endpc: i32,
}

pub struct LocalVarModel {
    pub varname: Option<Seq<u8>>,
    pub startpc: i32,
    pub endpc: i32,
}

impl LocVar {
    pub open spec fn model(&self) -> LocalVarModel {
        LocalVarModel { varname: opt_bytes(self.varname), startpc: self.startpc, endpc: self.endpc }
    }
}

/// A function prototype as a binary chunk stores it.
#[derive(Debug)]
pub struct Proto {
    pub source: Option<Vec<u8>>,
    pub linedefined: i32,
    pub lastlinedefined: i32,
    pub numparams: u8,
    pub is_vararg: bool,
    pub maxstacksize: u8,
    pub code: Vec<u32>,
    pub constants: Vec<Constant>,
    pub upvalues: Vec<Upvaldesc>,
    pub protos: Vec<Proto>,
    pub lineinfo: Vec<u8>,
    pub abslineinfo: Vec<AbsLineInfo>,
    pub locvars: Vec<LocVar>,
}

pub struct ProtoModel {
    pub source: Option<Seq<u8>>,
    pub linedefined: i32,
    pub lastlinedefined: i32,
    pub numparams: u8,
    pub is_vararg: bool,
    pub maxstacksize: u8,
    pub code: Seq<u32>,
    pub constants: Seq<ConstantModel>,
    pub upvalues: Seq<UpvalueModel>,
    pub protos: Seq<ProtoModel>,
    pub lineinfo: Seq<u8>,
    pub abslineinfo: Seq<AbsLineInfo>,
    pub locvars: Seq<LocalVarModel>,
}

impl Proto {
    pub open spec fn model(&self) -> ProtoModel
        decreases self,
    {
        ProtoModel {
            source: opt_bytes(self.source),
            linedefined: self.linedefined,
            lastlinedefined: self.lastlinedefined,
            numparams: self.numparams,
            is_vararg: self.is_vararg,
            maxstacksize: self.maxstacksize,
            code: self.code@,
            constants: constants_model(self.constants@),
            upvalues: upvalues_model(self.upvalues@),
            protos: Seq::new(
                self.protos.len() as nat,
                |i: int| if 0 <= i < self.protos.len() { self.protos@[i].model() } else { arbitrary() },
            ),
            lineinfo: self.lineinfo@,
            abslineinfo: self.abslineinfo@,
            locvars: locvars_model(self.locvars@),
        }
    }
}


// ─── Reading the chunk, as functions of the bytes and a position ─────────────

/// A reader: from the bytes and a position, a value and the position after
/// it, or the reason the chunk is refused.
pub type Reader<T> = spec_fn(Seq<u8>, int) -> Result<(T, int), LoadErrorKind>;

pub open spec fn spec_load_byte(s: Seq<u8>, p: int) -> Result<(u8, int), LoadErrorKind> {
    if 0 <= p < s.len() {
        Ok((s[p], p + 1))
    } else {
        Err(LoadErrorKind::TruncatedChunk)
    }
}

/// An unsigned number written seven bits to a byte, most significant group
/// first, the last byte marked by its high bit; `acc` is what was read so
/// far, and the number is refused once it reaches `lim` before another
/// group is added.
pub open spec fn spec_varint(s: Seq<u8>, p: int, acc: nat, lim: nat) -> Result<(nat, int), LoadErrorKind>
    decreases s.len() - p,
{
    if p < 0 || p >= s.len() {
        Err(LoadErrorKind::TruncatedChunk)
    } else if acc >= lim {
        Err(LoadErrorKind::IntegerOverflow)
    } else {
        let next = (acc * 128 + s[p] % 128) as nat;
        if s[p] >= 128 {
            Ok((next, p + 1))
        } else {
            spec_varint(s, p + 1, next, lim)
        }
    }
}

/// An unsigned number below `limit`.
pub open spec fn spec_load_unsigned(s: Seq<u8>, p: int, limit: nat) -> Result<(nat, int), LoadErrorKind> {
    spec_varint(s, p, 0, limit / 128)
}

pub open spec fn spec_load_size(s: Seq<u8>, p: int) -> Result<(nat, int), LoadErrorKind> {
    spec_load_unsigned(s, p, usize::MAX as nat)
}

pub open spec fn spec_load_int(s: Seq<u8>, p: int) -> Result<(i32, int), LoadErrorKind> {
    match spec_load_unsigned(s, p, 0x7FFFFFFF) {
        Ok((v, q)) => Ok((v as i32, q)),
        Err(e) => Err(e),
    }
}

/// `n` bytes.
pub open spec fn spec_load_block(s: Seq<u8>, p: int, n: nat) -> Result<(Seq<u8>, int), LoadErrorKind> {
    if 0 <= p && p + n <= s.len() {
        Ok((s.subrange(p, p + n), p + n))
    } else {
        Err(LoadErrorKind::TruncatedChunk)
    }
}

/// An integer: eight bytes, least significant first, in two's complement.
pub open spec fn spec_load_integer(s: Seq<u8>, p: int) -> Result<(i64, int), LoadErrorKind> {
    if 0 <= p && p + 8 <= s.len() {
        Ok((as_i64(le_at(s, p, 8)) as i64, p + 8))
    } else {
        Err(LoadErrorKind::TruncatedChunk)
    }
}

/// A float, as its eight bytes, least significant first.
pub open spec fn spec_load_number(s: Seq<u8>, p: int) -> Result<(u64, int), LoadErrorKind> {
    if 0 <= p && p + 8 <= s.len() {
        Ok((le_at(s, p, 8) as u64, p + 8))
    } else {
        Err(LoadErrorKind::TruncatedChunk)
    }
}

/// A string: its size plus one, then its bytes; a size of 0 stands for no
/// string.
pub open spec fn spec_load_string_n(s: Seq<u8>, p: int) -> Result<(Option<Seq<u8>>, int), LoadErrorKind> {
    match spec_load_size(s, p) {
        Ok((size, q)) => if size == 0 {
            Ok((None, q))
        } else {
            match spec_load_block(s, q, (size - 1) as nat) {
                Ok((b, r)) => Ok((Some(b), r)),
                Err(e) => Err(e),
            }
        },
        Err(e) => Err(e),
    }
}

/// A string that must be there.
pub open spec fn spec_load_string(s: Seq<u8>, p: int) -> Result<(Seq<u8>, int), LoadErrorKind> {
    match spec_load_string_n(s, p) {
        Ok((Some(b), q)) => Ok((b, q)),
        Ok((None, _)) => Err(LoadErrorKind::BadStringConstant),
        Err(e) => Err(e),
    }
}

/// `n` values read one after the other by `item`.
pub open spec fn spec_items<T>(s: Seq<u8>, p: int, n: nat, item: Reader<T>) -> Result<(Seq<T>, int), LoadErrorKind>
    decreases n,
{
    if n == 0 {
        Ok((Seq::empty(), p))
    } else {
        match spec_items(s, p, (n - 1) as nat, item) {
            Ok((xs, q)) => match item(s, q) {
                Ok((x, r)) => Ok((xs.push(x), r)),
                Err(e) => Err(e),
            },
            Err(e) => Err(e),
        }
    }
}

/// A count, then that many values read by `item`.
pub open spec fn spec_counted<T>(s: Seq<u8>, p: int, item: Reader<T>) -> Result<(Seq<T>, int), LoadErrorKind> {
    match spec_load_int(s, p) {
        Ok((n, q)) => spec_items(s, q, n as nat, item),
        Err(e) => Err(e),
    }
}

/// The code: a count, then that many four-byte instructions.
pub open spec fn spec_load_code(s: Seq<u8>, p: int) -> Result<(Seq<u32>, int), LoadErrorKind> {
    match spec_load_int(s, p) {
        Ok((n, q)) => if q + 4 * n <= s.len() {
            Ok((Seq::new(n as nat, |i: int| le_at(s, q + 4 * i, 4) as u32), q + 4 * n))
        } else {
            Err(LoadErrorKind::TruncatedChunk)
        },
        Err(e) => Err(e),
    }
}

/// A constant: its type tag (0 nil, 1 false, 17 true, 19 float, 3 integer,
/// 4 and 20 string), then its value; any other tag gives nil.
pub open spec fn spec_constant(s: Seq<u8>, p: int) -> Result<(ConstantModel, int), LoadErrorKind> {
    match spec_load_byte(s, p) {
        Ok((t, q)) => if t == 0 {
            Ok((ConstantModel::Nil, q))
        } else if t == 1 {
            Ok((ConstantModel::False, q))
        } else if t == 17 {
            Ok((ConstantModel::True, q))
        } else if t == 19 {
            match spec_load_number(s, q) {
                Ok((x, r)) => Ok((ConstantModel::Float(x), r)),
                Err(e) => Err(e),
            }
        } else if t == 3 {
            match spec_load_integer(s, q) {
                Ok((x, r)) => Ok((ConstantModel::Int(x), r)),
                Err(e) => Err(e),
            }
        } else if t == 4 || t == 20 {
            match spec_load_string(s, q) {
                Ok((b, r)) => Ok((ConstantModel::Str(b), r)),
                Err(e) => Err(e),
            }
        } else {
            Ok((ConstantModel::Nil, q))
        },
        Err(e) => Err(e),
    }
}

pub open spec fn constant_reader() -> Reader<ConstantModel> {
    |s: Seq<u8>, p: int| spec_constant(s, p)
}

/// An upvalue: three bytes, `instack`, `index` and `kind`; its name comes
/// later, with the debug information.
pub open spec fn spec_upvalue(s: Seq<u8>, p: int) -> Result<(UpvalueModel, int), LoadErrorKind> {
    if 0 <= p && p + 3 <= s.len() {
        Ok((UpvalueModel { instack: s[p], index: s[p + 1], kind: s[p + 2], name: None }, p + 3))
    } else {
        Err(LoadErrorKind::TruncatedChunk)
    }
}

pub open spec fn upvalue_reader() -> Reader<UpvalueModel> {
    |s: Seq<u8>, p: int| spec_upvalue(s, p)
}

/// An absolute line: the instruction and the line, two numbers.
pub open spec fn spec_absline(s: Seq<u8>, p: int) -> Result<(AbsLineInfo, int), LoadErrorKind> {
    match spec_load_int(s, p) {
        Ok((pc, q)) => match spec_load_int(s, q) {
            Ok((line, r)) => Ok((AbsLineInfo { pc, line }, r)),
            Err(e) => Err(e),
        },
        Err(e) => Err(e),
    }
}

pub open spec fn absline_reader() -> Reader<AbsLineInfo> {
    |s: Seq<u8>, p: int| spec_absline(s, p)
}

/// A local variable: its name (maybe none), its first and last instruction.
pub open spec fn spec_locvar(s: Seq<u8>, p: int) -> Result<(LocalVarModel, int), LoadErrorKind> {
    match spec_load_string_n(s, p) {
        Ok((name, q)) => match spec_load_int(s, q) {
            Ok((startpc, r)) => match spec_load_int(s, r) {
                Ok((endpc, t)) => Ok((LocalVarModel { varname: name, startpc, endpc }, t)),
                Err(e) => Err(e),
            },
            Err(e) => Err(e),
        },
        Err(e) => Err(e),
    }
}

pub open spec fn locvar_reader() -> Reader<LocalVarModel> {
    |s: Seq<u8>, p: int| spec_locvar(s, p)
}

pub open spec fn name_reader() -> Reader<Option<Seq<u8>>> {
    |s: Seq<u8>, p: int| spec_load_string_n(s, p)
}

/// The upvalues with the first names given to them.
pub open spec fn named(ups: Seq<UpvalueModel>, names: Seq<Option<Seq<u8>>>) -> Seq<UpvalueModel> {
    Seq::new(
        ups.len(),
        |i: int| if i < names.len() {
            UpvalueModel { name: names[i], ..ups[i] }
        } else {
            ups[i]
        },
    )
}

/// The debug information of a function whose upvalues are `ups`: the
/// relative line of each instruction (one byte each), the absolute lines,
/// the local variables and, unless their count is 0, one name for each
/// upvalue.
pub open spec fn spec_load_debug(s: Seq<u8>, p: int, ups: Seq<UpvalueModel>)
    -> Result<((Seq<u8>, Seq<AbsLineInfo>, Seq<LocalVarModel>, Seq<UpvalueModel>), int), LoadErrorKind>
{
    match spec_load_int(s, p) {
        Ok((n, q)) => match spec_load_block(s, q, n as nat) {
            Ok((lineinfo, q2)) => match spec_counted(s, q2, absline_reader()) {
                Ok((abs, q3)) => match spec_counted(s, q3, locvar_reader()) {
                    Ok((locs, q4)) => match spec_load_int(s, q4) {
                        Ok((k, q5)) => if k == 0 {
                            Ok(((lineinfo, abs, locs, ups), q5))
                        } else {
                            match spec_items(s, q5, ups.len(), name_reader()) {
                                Ok((names, q6)) => Ok(((lineinfo, abs, locs, named(ups, names)), q6)),
                                Err(e) => Err(e),
                            }
                        },
                        Err(e) => Err(e),
                    },
                    Err(e) => Err(e),
                },
                Err(e) => Err(e),
            },
            Err(e) => Err(e),
        },
        Err(e) => Err(e),
    }
}


/// The fields that open a function.
pub struct ProtoHead {
    pub source: Option<Seq<u8>>,
    pub linedefined: i32,
    pub lastlinedefined: i32,
    pub numparams: u8,
    pub is_vararg: bool,
    pub maxstacksize: u8,
}

/// The source (the enclosing function's, `psource`, when the chunk gives
/// none), the lines where the function starts and ends, its number of
/// fixed parameters, whether it takes varargs, its stack size.
pub open spec fn spec_head(s: Seq<u8>, p: int, psource: Option<Seq<u8>>) -> Result<(ProtoHead, int), LoadErrorKind> {
    match spec_load_string_n(s, p) {
        Ok((src, p1)) => match spec_load_int(s, p1) {
            Ok((ld, p2)) => match spec_load_int(s, p2) {
                Ok((lld, p3)) => match spec_load_byte(s, p3) {
                    Ok((np, p4)) => match spec_load_byte(s, p4) {
                        Ok((va, p5)) => match spec_load_byte(s, p5) {
                            Ok((ms, p6)) => Ok((
                                ProtoHead {
                                    source: if src is None { psource } else { src },
                                    linedefined: ld,
                                    lastlinedefined: lld,
                                    numparams: np,
                                    is_vararg: va != 0,
                                    maxstacksize: ms,
                                },
                                p6,
                            )),
                            Err(e) => Err(e),
                        },
                        Err(e) => Err(e),
                    },
                    Err(e) => Err(e),
                },
                Err(e) => Err(e),
            },
            Err(e) => Err(e),
        },
        Err(e) => Err(e),
    }
}

/// The code, the constants and the upvalues of a function.
pub open spec fn spec_body(s: Seq<u8>, p: int) -> Result<((Seq<u32>, Seq<ConstantModel>, Seq<UpvalueModel>), int), LoadErrorKind> {
    match spec_load_code(s, p) {
        Ok((code, p1)) => match spec_counted(s, p1, constant_reader()) {
            Ok((ks, p2)) => match spec_counted(s, p2, upvalue_reader()) {
                Ok((ups, p3)) => Ok(((code, ks, ups), p3)),
                Err(e) => Err(e),
            },
            Err(e) => Err(e),
        },
        Err(e) => Err(e),
    }
}

/// A function: its head, its body, the functions nested in it (which take
/// its source as theirs when they give none) and its debug information.
pub open spec fn spec_load_function(s: Seq<u8>, p: int, psource: Option<Seq<u8>>) -> Result<(ProtoModel, int), LoadErrorKind>
    decreases s.len() - p, 0int,
{
    match spec_head(s, p, psource) {
        Ok((h, p1)) => match spec_body(s, p1) {
            Ok(((code, ks, ups), p2)) => match spec_load_int(s, p2) {
                Ok((n, p3)) => if !(p < p3 <= s.len()) {
                    Err(LoadErrorKind::TruncatedChunk)
                } else {
                    match spec_load_protos(s, p3, n as nat, h.source) {
                        Ok((ps, p4)) => match spec_load_debug(s, p4, ups) {
                            Ok(((lineinfo, abs, locs, named_ups), p5)) => Ok((
                                ProtoModel {
                                    source: h.source,
                                    linedefined: h.linedefined,
                                    lastlinedefined: h.lastlinedefined,
                                    numparams: h.numparams,
                                    is_vararg: h.is_vararg,
                                    maxstacksize: h.maxstacksize,
                                    code,
                                    constants: ks,
                                    upvalues: named_ups,
                                    protos: ps,
                                    lineinfo,
                                    abslineinfo: abs,
                                    locvars: locs,
                                },
                                p5,
                            )),
                            Err(e) => Err(e),
                        },
                        Err(e) => Err(e),
                    }
                },
                Err(e) => Err(e),
            },
            Err(e) => Err(e),
        },
        Err(e) => Err(e),
    }
}

/// `n` nested functions, one after the other.
pub open spec fn spec_load_protos(s: Seq<u8>, p: int, n: nat, psource: Option<Seq<u8>>) -> Result<(Seq<ProtoModel>, int), LoadErrorKind>
    decreases s.len() - p, n,
{
    if n == 0 {
        Ok((Seq::empty(), p))
    } else {
        match spec_load_function(s, p, psource) {
            Ok((f, q)) => if !(p < q <= s.len()) {
                Err(LoadErrorKind::TruncatedChunk)
            } else {
                match spec_load_protos(s, q, (n - 1) as nat, psource) {
                    Ok((fs, r)) => Ok((seq![f] + fs, r)),
                    Err(e) => Err(e),
                }
            },
            Err(e) => Err(e),
        }
    }
}

/// Reads `lit.len()` bytes, which must be `lit`, else the chunk is refused
/// with `err`.
pub open spec fn spec_check_literal(s: Seq<u8>, p: int, lit: Seq<u8>, err: LoadErrorKind) -> Result<int, LoadErrorKind> {
    match spec_load_block(s, p, lit.len()) {
        Ok((b, q)) => if b == lit {
            Ok(q)
        } else {
            Err(err)
        },
        Err(e) => Err(e),
    }
}

/// The signature after its escape byte.
pub open spec fn signature_tail() -> Seq<u8> {
    seq![76u8, 117u8, 97u8]
}

/// The bytes that catch a chunk mangled by a text-mode transfer.
pub open spec fn conversion_check() -> Seq<u8> {
    seq![0x19u8, 0x7Fu8, 0x0Du8, 0x0Au8, 0x1Au8, 0x0Au8]
}

/// The bits of the float 370.5.
pub open spec fn check_number_bits() -> u64 {
    0x4077280000000000u64
}

/// The header: the signature, the version (5.4, as 0x54), the format (0),
/// the conversion check, the integer 0x5678 and the float 370.5.
pub open spec fn spec_check_header(s: Seq<u8>, p: int) -> Result<int, LoadErrorKind> {
    match spec_check_literal(s, p, signature_tail(), LoadErrorKind::NotBinaryChunk) {
        Ok(p1) => match spec_load_byte(s, p1) {
            Ok((v, p2)) => if v != 0x54 {
                Err(LoadErrorKind::VersionMismatch)
            } else {
                match spec_load_byte(s, p2) {
                    Ok((f, p3)) => if f != 0 {
                        Err(LoadErrorKind::FormatMismatch)
                    } else {
                        match spec_check_literal(s, p3, conversion_check(), LoadErrorKind::CorruptedChunk) {
                            Ok(p4) => match spec_load_integer(s, p4) {
                                Ok((i, p5)) => if i != 0x5678 {
                                    Err(LoadErrorKind::IntegerFormatMismatch)
                                } else {
                                    match spec_load_number(s, p5) {
                                        Ok((x, p6)) => if x != check_number_bits() {
                                            Err(LoadErrorKind::FloatFormatMismatch)
                                        } else {
                                            Ok(p6)
                                        },
                                        Err(e) => Err(e),
                                    }
                                },
                                Err(e) => Err(e),
                            },
                            Err(e) => Err(e),
                        }
                    },
                    Err(e) => Err(e),
                }
            },
            Err(e) => Err(e),
        },
        Err(e) => Err(e),
    }
}

/// A whole chunk after its escape byte: the header, the number of upvalues
/// of the main function, the main function.
pub open spec fn spec_load_chunk(s: Seq<u8>) -> Result<(u8, ProtoModel), LoadErrorKind> {
    match spec_check_header(s, 0) {
        Ok(p1) => match spec_load_byte(s, p1) {
            Ok((nup, p2)) => match spec_load_function(s, p2, None) {
                Ok((f, _)) => Ok((nup, f)),
                Err(e) => Err(e),
            },
            Err(e) => Err(e),
        },
        Err(e) => Err(e),
    }
}

/// How a chunk is named in messages: without its leading `@` or `=`, and
/// as "binary string" when it starts with the escape byte.
pub open spec fn spec_chunk_name(name: Seq<u8>) -> Seq<u8> {
    if name.len() > 0 && (name[0] == 64 || name[0] == 61) {
        name.drop_first()
    } else if name.len() > 0 && name[0] == 27 {
        seq![98u8, 105u8, 110u8, 97u8, 114u8, 121u8, 32u8, 115u8, 116u8, 114u8, 105u8, 110u8, 103u8]
    } else {
        name
    }
}


// ─── Reading moves forward and stays within the bytes ────────────────────────

/// A successful read ends between `p` and the end of the bytes.
pub open spec fn moves<T>(r: Result<(T, int), LoadErrorKind>, p: int, len: int) -> bool {
    match r {
        Ok((_, q)) => p <= q <= len,
        Err(_) => true,
    }
}

/// A successful read ends after `p` and within the bytes.
pub open spec fn moves_on<T>(r: Result<(T, int), LoadErrorKind>, p: int, len: int) -> bool {
    match r {
        Ok((_, q)) => p < q <= len,
        Err(_) => true,
    }
}

proof fn lemma_varint(s: Seq<u8>, p: int, acc: nat, lim: nat)
    ensures
        moves_on(spec_varint(s, p, acc, lim), p, s.len() as int),
        spec_varint(s, p, acc, lim) matches Ok((v, _)) ==> v < lim * 128,
    decreases s.len() - p,
{
    if 0 <= p < s.len() && acc < lim {
        let next = (acc * 128 + s[p] % 128) as nat;
        assert(acc * 128 + 127 < lim * 128) by (nonlinear_arith)
            requires acc < lim;
        if s[p] < 128 {
            lemma_varint(s, p + 1, next, lim);
        }
    }
}

proof fn lemma_string_n(s: Seq<u8>, p: int)
    ensures
        moves_on(spec_load_string_n(s, p), p, s.len() as int),
{
    lemma_varint(s, p, 0, usize::MAX as nat / 128);
}

proof fn lemma_int(s: Seq<u8>, p: int)
    ensures
        moves_on(spec_load_int(s, p), p, s.len() as int),
        spec_load_unsigned(s, p, 0x7FFFFFFF) matches Ok((v, _)) ==> v < 0x7FFFFFFF,
{
    lemma_varint(s, p, 0, 0x7FFFFFFFnat / 128);
}

proof fn lemma_items<T>(s: Seq<u8>, p: int, n: nat, item: Reader<T>)
    requires
        0 <= p <= s.len(),
        forall|q: int| 0 <= q <= s.len() ==> moves(#[trigger] item(s, q), q, s.len() as int),
    ensures
        moves(spec_items(s, p, n, item), p, s.len() as int),
    decreases n,
{
    if n > 0 {
        lemma_items(s, p, (n - 1) as nat, item);
    }
}

proof fn lemma_counted<T>(s: Seq<u8>, p: int, item: Reader<T>)
    requires
        forall|q: int| 0 <= q <= s.len() ==> moves(#[trigger] item(s, q), q, s.len() as int),
    ensures
        moves_on(spec_counted(s, p, item), p, s.len() as int),
{
    lemma_int(s, p);
    if let Ok((n, q)) = spec_load_int(s, p) {
        lemma_items(s, q, n as nat, item);
    }
}

proof fn lemma_constant(s: Seq<u8>, p: int)
    ensures
        moves_on(spec_constant(s, p), p, s.len() as int),
{
    if 0 <= p < s.len() {
        lemma_string_n(s, p + 1);
    }
}

proof fn lemma_absline(s: Seq<u8>, p: int)
    ensures
        moves_on(spec_absline(s, p), p, s.len() as int),
{
    lemma_int(s, p);
    if let Ok((_, q)) = spec_load_int(s, p) {
        lemma_int(s, q);
    }
}

proof fn lemma_locvar(s: Seq<u8>, p: int)
    ensures
        moves_on(spec_locvar(s, p), p, s.len() as int),
{
    lemma_string_n(s, p);
    if let Ok((_, q)) = spec_load_string_n(s, p) {
        lemma_int(s, q);
        if let Ok((_, r)) = spec_load_int(s, q) {
            lemma_int(s, r);
        }
    }
}

proof fn lemma_readers(s: Seq<u8>)
    ensures
        forall|q: int| 0 <= q <= s.len() ==> moves(#[trigger] constant_reader()(s, q), q, s.len() as int),
        forall|q: int| 0 <= q <= s.len() ==> moves(#[trigger] upvalue_reader()(s, q), q, s.len() as int),
        forall|q: int| 0 <= q <= s.len() ==> moves(#[trigger] absline_reader()(s, q), q, s.len() as int),
        forall|q: int| 0 <= q <= s.len() ==> moves(#[trigger] locvar_reader()(s, q), q, s.len() as int),
        forall|q: int| 0 <= q <= s.len() ==> moves(#[trigger] name_reader()(s, q), q, s.len() as int),
{
    assert forall|q: int| 0 <= q <= s.len() implies moves(#[trigger] constant_reader()(s, q), q, s.len() as int) by {
        lemma_constant(s, q);
    }
    assert forall|q: int| 0 <= q <= s.len() implies moves(#[trigger] absline_reader()(s, q), q, s.len() as int) by {
        lemma_absline(s, q);
    }
    assert forall|q: int| 0 <= q <= s.len() implies moves(#[trigger] locvar_reader()(s, q), q, s.len() as int) by {
        lemma_locvar(s, q);
    }
    assert forall|q: int| 0 <= q <= s.len() implies moves(#[trigger] name_reader()(s, q), q, s.len() as int) by {
        lemma_string_n(s, q);
    }
}

proof fn lemma_head(s: Seq<u8>, p: int, psource: Option<Seq<u8>>)
    ensures
        moves_on(spec_head(s, p, psource), p, s.len() as int),
{
    lemma_string_n(s, p);
    if let Ok((_, p1)) = spec_load_string_n(s, p) {
        lemma_int(s, p1);
        if let Ok((_, p2)) = spec_load_int(s, p1) {
            lemma_int(s, p2);
        }
    }
}

proof fn lemma_body(s: Seq<u8>, p: int)
    ensures
        moves(spec_body(s, p), p, s.len() as int),
{
    lemma_readers(s);
    lemma_int(s, p);
    if let Ok((code, p1)) = spec_load_code(s, p) {
        lemma_counted(s, p1, constant_reader());
        if let Ok((_, p2)) = spec_counted(s, p1, constant_reader()) {
            lemma_counted(s, p2, upvalue_reader());
        }
    }
}

proof fn lemma_debug(s: Seq<u8>, p: int, ups: Seq<UpvalueModel>)
    ensures
        moves(spec_load_debug(s, p, ups), p, s.len() as int),
{
    lemma_readers(s);
    lemma_int(s, p);
    if let Ok((n, q)) = spec_load_int(s, p) {
        if let Ok((_, q2)) = spec_load_block(s, q, n as nat) {
            lemma_counted(s, q2, absline_reader());
            if let Ok((_, q3)) = spec_counted(s, q2, absline_reader()) {
                lemma_counted(s, q3, locvar_reader());
                if let Ok((_, q4)) = spec_counted(s, q3, locvar_reader()) {
                    lemma_int(s, q4);
                    if let Ok((_, q5)) = spec_load_int(s, q4) {
                        lemma_items(s, q5, ups.len(), name_reader());
                    }
                }
            }
        }
    }
}

proof fn lemma_function(s: Seq<u8>, p: int, psource: Option<Seq<u8>>)
    ensures
        moves_on(spec_load_function(s, p, psource), p, s.len() as int),
    decreases s.len() - p, 0int,
{
    lemma_head(s, p, psource);
    if let Ok((h, p1)) = spec_head(s, p, psource) {
        lemma_body(s, p1);
        if let Ok(((_, _, ups), p2)) = spec_body(s, p1) {
            lemma_int(s, p2);
            if let Ok((n, p3)) = spec_load_int(s, p2) {
                if p < p3 <= s.len() {
                    lemma_protos(s, p3, n as nat, h.source);
                    if let Ok((_, p4)) = spec_load_protos(s, p3, n as nat, h.source) {
                        lemma_debug(s, p4, ups);
                    }
                }
            }
        }
    }
}

proof fn lemma_protos(s: Seq<u8>, p: int, n: nat, psource: Option<Seq<u8>>)
    requires
        0 <= p <= s.len(),
    ensures
        moves(spec_load_protos(s, p, n, psource), p, s.len() as int),
    decreases s.len() - p, n,
{
    if n > 0 {
        lemma_function(s, p, psource);
        if let Ok((_, q)) = spec_load_function(s, p, psource) {
            lemma_protos(s, q, (n - 1) as nat, psource);
        }
    }
}


// ─── The loader ──────────────────────────────────────────────────────────────

/// A refused chunk: its name, as messages give it, and why.
#[derive(Debug, Clone, PartialEq, Eq)]
pub struct LoadError {
    pub name: Vec<u8>,
    pub kind: LoadErrorKind,
}

/// Relates a result to its model: the value (seen through `f`) and the
/// position after it on success, the same reason on failure.
pub open spec fn outcome<T, M>(
    r: Result<T, LoadErrorKind>,
    m: Result<(M, int), LoadErrorKind>,
    pos: int,
    f: spec_fn(T) -> M,
) -> bool {
    match (r, m) {
        (Ok(x), Ok((v, q))) => f(x) == v && pos == q,
        (Err(a), Err(b)) => a == b,
        _ => false,
    }
}

pub open spec fn constants_model(v: Seq<Constant>) -> Seq<ConstantModel> {
    v.map_values(|c: Constant| c.model())
}

pub open spec fn upvalues_model(v: Seq<Upvaldesc>) -> Seq<UpvalueModel> {
    v.map_values(|u: Upvaldesc| u.model())
}

pub open spec fn locvars_model(v: Seq<LocVar>) -> Seq<LocalVarModel> {
    v.map_values(|l: LocVar| l.model())
}

pub open spec fn protos_model(v: Seq<Proto>) -> Seq<ProtoModel> {
    v.map_values(|p: Proto| p.model())
}

fn copy_bytes(b: &[u8]) -> (r: Vec<u8>)
    ensures
        r@ == b@,
{
    let mut v: Vec<u8> = Vec::new();
    v.extend_from_slice(b);
    v
}

/// A chunk being read: its bytes, how far they were read, and its name
/// for messages.
pub struct LoadState {
    pub input: Vec<u8>,
    pub pos: usize,
    pub name: Vec<u8>,
}

impl LoadState {
    /// The position lies within the bytes.
    pub open spec fn wf(&self) -> bool {
        self.pos <= self.input.len()
    }

    /// Still reading the same bytes under the same name, within them.
    pub open spec fn keeps(&self, before: LoadState) -> bool {
        &&& self.input@ == before.input@
        &&& self.name@ == before.name@
        &&& self.pos <= self.input.len()
    }

    /// The error that refuses this chunk for `why`.
    pub fn error(&self, why: LoadErrorKind) -> (r: LoadError)
        ensures
            r.name@ == self.name@,
            r.kind == why,
    {
        LoadError { name: copy_bytes(self.name.as_slice()), kind: why }
    }

    pub fn load_byte(&mut self) -> (r: Result<u8, LoadErrorKind>)
        requires
            old(self).wf(),
        ensures
            final(self).keeps(*old(self)),
            outcome(r, spec_load_byte(old(self).input@, old(self).pos as int), final(self).pos as int, |x: u8| x),
    {
        if self.pos < self.input.len() {
            let b = self.input[self.pos];
            self.pos = self.pos + 1;
            Ok(b)
        } else {
            Err(LoadErrorKind::TruncatedChunk)
        }
    }

    /// `n` bytes.
    pub fn load_block(&mut self, n: usize) -> (r: Result<Vec<u8>, LoadErrorKind>)
        requires
            old(self).wf(),
        ensures
            final(self).keeps(*old(self)),
            outcome(r, spec_load_block(old(self).input@, old(self).pos as int, n as nat), final(self).pos as int, |v: Vec<u8>| v@),
    {
        if n > self.input.len() - self.pos {
            return Err(LoadErrorKind::TruncatedChunk);
        }
        let start = self.pos;
        let mut v: Vec<u8> = Vec::new();
        let mut i: usize = 0;
        while i < n
            invariant
                start + n <= self.input.len(),
                i <= n,
                v@ == self.input@.subrange(start as int, start + i),
            decreases n - i,
        {
            v.push(self.input[start + i]);
            i = i + 1;
            proof {
                assert(v@ =~= self.input@.subrange(start as int, start + i));
            }
        }
        self.pos = start + n;
        Ok(v)
    }

    /// An unsigned number below `limit`, seven bits to a byte.
    pub fn load_unsigned(&mut self, limit: usize) -> (r: Result<usize, LoadErrorKind>)
        requires
            old(self).wf(),
        ensures
            final(self).keeps(*old(self)),
            outcome(r, spec_load_unsigned(old(self).input@, old(self).pos as int, limit as nat), final(self).pos as int, |x: usize| x as nat),
    {
        let lim: usize = limit / 128;
        let mut ret: usize = 0;
        let ghost s = self.input@;
        let ghost p0 = self.pos as int;
        loop
            invariant
                self.input@ == s,
                self.name@ == old(self).name@,
                s == old(self).input@,
                p0 == old(self).pos as int,
                self.pos <= self.input.len(),
                lim == limit as nat / 128,
                ret <= lim * 128,
                spec_varint(s, p0, 0, lim as nat) == spec_varint(s, self.pos as int, ret as nat, lim as nat),
            decreases self.input.len() - self.pos,
        {
            let b = match self.load_byte() {
                Ok(b) => b,
                Err(e) => return Err(e),
            };
            if ret >= lim {
                return Err(LoadErrorKind::IntegerOverflow);
            }
            assert(ret * 128 + 127 < lim * 128) by (nonlinear_arith)
                requires ret < lim;
            assert(lim * 128 <= limit) by (nonlinear_arith)
                requires lim == limit as nat / 128;
            ret = ret * 128 + (b % 128) as usize;
            if b >= 128 {
                return Ok(ret);
            }
        }
    }

    /// A size.
    pub fn load_size(&mut self) -> (r: Result<usize, LoadErrorKind>)
        requires
            old(self).wf(),
        ensures
            final(self).keeps(*old(self)),
            outcome(r, spec_load_size(old(self).input@, old(self).pos as int), final(self).pos as int, |x: usize| x as nat),
    {
        self.load_unsigned(usize::MAX)
    }

    /// A count or a line number, below 2^31 - 1.
    pub fn load_int(&mut self) -> (r: Result<i32, LoadErrorKind>)
        requires
            old(self).wf(),
        ensures
            final(self).keeps(*old(self)),
            outcome(r, spec_load_int(old(self).input@, old(self).pos as int), final(self).pos as int, |x: i32| x),
            r matches Ok(n) ==> n >= 0,
    {
        proof {
            lemma_int(self.input@, self.pos as int);
        }
        match self.load_unsigned(0x7FFFFFFF) {
            Ok(v) => Ok(v as i32),
            Err(e) => Err(e),
        }
    }

    /// An integer, eight bytes, least significant first.
    pub fn load_integer(&mut self) -> (r: Result<i64, LoadErrorKind>)
        requires
            old(self).wf(),
        ensures
            final(self).keeps(*old(self)),
            outcome(r, spec_load_integer(old(self).input@, old(self).pos as int), final(self).pos as int, |x: i64| x),
    {
        if 8 > self.input.len() - self.pos {
            return Err(LoadErrorKind::TruncatedChunk);
        }
        let u = crate::midi::read_le(self.input.as_slice(), self.pos, 8);
        let v = crate::strpack::to_signed(u);
        self.pos = self.pos + 8;
        Ok(v)
    }

    /// A float, as its eight bytes, least significant first.
    pub fn load_number(&mut self) -> (r: Result<u64, LoadErrorKind>)
        requires
            old(self).wf(),
        ensures
            final(self).keeps(*old(self)),
            outcome(r, spec_load_number(old(self).input@, old(self).pos as int), final(self).pos as int, |x: u64| x),
    {
        if 8 > self.input.len() - self.pos {
            return Err(LoadErrorKind::TruncatedChunk);
        }
        let u = crate::midi::read_le(self.input.as_slice(), self.pos, 8);
        self.pos = self.pos + 8;
        Ok(u)
    }

    /// A string, or none for a size of 0.
    pub fn load_string_n(&mut self) -> (r: Result<Option<Vec<u8>>, LoadErrorKind>)
        requires
            old(self).wf(),
        ensures
            final(self).keeps(*old(self)),
            outcome(r, spec_load_string_n(old(self).input@, old(self).pos as int), final(self).pos as int, |o: Option<Vec<u8>>| opt_bytes(o)),
    {
        let size = match self.load_size() {
            Ok(n) => n,
            Err(e) => return Err(e),
        };
        if size == 0 {
            return Ok(None);
        }
        match self.load_block(size - 1) {
            Ok(b) => Ok(Some(b)),
            Err(e) => Err(e),
        }
    }

    /// A string that must be there.
    pub fn load_string(&mut self) -> (r: Result<Vec<u8>, LoadErrorKind>)
        requires
            old(self).wf(),
        ensures
            final(self).keeps(*old(self)),
            outcome(r, spec_load_string(old(self).input@, old(self).pos as int), final(self).pos as int, |v: Vec<u8>| v@),
    {
        match self.load_string_n() {
            Ok(Some(b)) => Ok(b),
            Ok(None) => Err(LoadErrorKind::BadStringConstant),
            Err(e) => Err(e),
        }
    }
}


proof fn lemma_items_fail<T>(s: Seq<u8>, p: int, i: nat, n: nat, item: Reader<T>)
    requires
        i <= n,
        spec_items(s, p, i, item) is Err,
    ensures
        spec_items(s, p, n, item) == spec_items(s, p, i, item),
    decreases n,
{
    if n > i {
        lemma_items_fail(s, p, i, (n - 1) as nat, item);
    }
}

impl LoadState {
    /// The code: a count, then that many four-byte instructions.
    pub fn load_code(&mut self) -> (r: Result<Vec<u32>, LoadErrorKind>)
        requires
            old(self).wf(),
        ensures
            final(self).keeps(*old(self)),
            outcome(r, spec_load_code(old(self).input@, old(self).pos as int), final(self).pos as int, |v: Vec<u32>| v@),
    {
        let n = match self.load_int() {
            Ok(n) => n,
            Err(e) => return Err(e),
        };
        let avail = self.input.len() - self.pos;
        if (n as u64) * 4 > avail as u64 {
            return Err(LoadErrorKind::TruncatedChunk);
        }
        let ghost s = self.input@;
        let start = self.pos;
        let count = n as usize;
        let mut v: Vec<u32> = Vec::new();
        let mut i: usize = 0;
        while i < count
            invariant
                self.input@ == s,
                s.len() == self.input.len(),
                start + 4 * count <= s.len(),
                i <= count,
                v@ == Seq::new(i as nat, |j: int| le_at(s, start + 4 * j, 4) as u32),
            decreases count - i,
        {
            assert(start + 4 * i + 4 <= s.len());
            let w = crate::midi::read_le(self.input.as_slice(), start + 4 * i, 4);
            v.push(#[verifier::truncate] (w as u32));
            i = i + 1;
            proof {
                assert(v@ =~= Seq::new(i as nat, |j: int| le_at(s, start + 4 * j, 4) as u32));
            }
        }
        self.pos = start + 4 * count;
        Ok(v)
    }

    /// A constant: its type tag, then its value.
    pub fn load_constant(&mut self) -> (r: Result<Constant, LoadErrorKind>)
        requires
            old(self).wf(),
        ensures
            final(self).keeps(*old(self)),
            outcome(r, spec_constant(old(self).input@, old(self).pos as int), final(self).pos as int, |c: Constant| c.model()),
    {
        let t = match self.load_byte() {
            Ok(t) => t,
            Err(e) => return Err(e),
        };
        if t == 0 {
            Ok(Constant::Nil)
        } else if t == 1 {
            Ok(Constant::False)
        } else if t == 17 {
            Ok(Constant::True)
        } else if t == 19 {
            match self.load_number() {
                Ok(x) => Ok(Constant::Float(x)),
                Err(e) => Err(e),
            }
        } else if t == 3 {
            match self.load_integer() {
                Ok(x) => Ok(Constant::Int(x)),
                Err(e) => Err(e),
            }
        } else if t == 4 || t == 20 {
            match self.load_string() {
                Ok(b) => Ok(Constant::Str(b)),
                Err(e) => Err(e),
            }
        } else {
            Ok(Constant::Nil)
        }
    }

    /// The constants: a count, then that many constants.
    pub fn load_constants(&mut self) -> (r: Result<Vec<Constant>, LoadErrorKind>)
        requires
            old(self).wf(),
        ensures
            final(self).keeps(*old(self)),
            outcome(r, spec_counted(old(self).input@, old(self).pos as int, constant_reader()), final(self).pos as int,
                |v: Vec<Constant>| constants_model(v@)),
    {
        let n = match self.load_int() {
            Ok(n) => n,
            Err(e) => return Err(e),
        };
        let ghost s = self.input@;
        let ghost q0 = self.pos as int;
        let mut v: Vec<Constant> = Vec::new();
        let mut i: i32 = 0;
        proof {
            assert(constants_model(v@) =~= Seq::<ConstantModel>::empty());
        }
        while i < n
            invariant
                self.input@ == s,
                s == old(self).input@,
                self.name@ == old(self).name@,
                self.pos <= self.input.len(),
                spec_load_int(s, old(self).pos as int) == Ok::<(i32, int), LoadErrorKind>((n, q0)),
                0 <= i <= n,
                spec_items(s, q0, i as nat, constant_reader())
                    == Ok::<(Seq<ConstantModel>, int), LoadErrorKind>((constants_model(v@), self.pos as int)),
            decreases n - i,
        {
            let ghost before = constants_model(v@);
            let c = match self.load_constant() {
                Ok(c) => c,
                Err(e) => {
                    proof {
                        assert(spec_items(s, q0, (i + 1) as nat, constant_reader()) == Err::<(Seq<ConstantModel>, int), LoadErrorKind>(e));
                        lemma_items_fail(s, q0, (i + 1) as nat, n as nat, constant_reader());
                    }
                    return Err(e);
                },
            };
            v.push(c);
            i = i + 1;
            proof {
                assert(constants_model(v@) =~= before.push(c.model()));
            }
        }
        Ok(v)
    }

    /// An upvalue: `instack`, `index` and `kind`, a byte each.
    pub fn load_upvalue(&mut self) -> (r: Result<Upvaldesc, LoadErrorKind>)
        requires
            old(self).wf(),
        ensures
            final(self).keeps(*old(self)),
            outcome(r, spec_upvalue(old(self).input@, old(self).pos as int), final(self).pos as int, |u: Upvaldesc| u.model()),
    {
        if 3 > self.input.len() - self.pos {
            return Err(LoadErrorKind::TruncatedChunk);
        }
        let p = self.pos;
        let u = Upvaldesc { instack: self.input[p], index: self.input[p + 1], kind: self.input[p + 2], name: None };
        self.pos = p + 3;
        Ok(u)
    }

    /// The upvalues: a count, then that many upvalues.
    pub fn load_upvalues(&mut self) -> (r: Result<Vec<Upvaldesc>, LoadErrorKind>)
        requires
            old(self).wf(),
        ensures
            final(self).keeps(*old(self)),
            outcome(r, spec_counted(old(self).input@, old(self).pos as int, upvalue_reader()), final(self).pos as int,
                |v: Vec<Upvaldesc>| upvalues_model(v@)),
    {
        let n = match self.load_int() {
            Ok(n) => n,
            Err(e) => return Err(e),
        };
        let ghost s = self.input@;
        let ghost q0 = self.pos as int;
        let mut v: Vec<Upvaldesc> = Vec::new();
        let mut i: i32 = 0;
        proof {
            assert(upvalues_model(v@) =~= Seq::<UpvalueModel>::empty());
        }
        while i < n
            invariant
                self.input@ == s,
                s == old(self).input@,
                self.name@ == old(self).name@,
                self.pos <= self.input.len(),
                spec_load_int(s, old(self).pos as int) == Ok::<(i32, int), LoadErrorKind>((n, q0)),
                0 <= i <= n,
                spec_items(s, q0, i as nat, upvalue_reader())
                    == Ok::<(Seq<UpvalueModel>, int), LoadErrorKind>((upvalues_model(v@), self.pos as int)),
            decreases n - i,
        {
            let ghost before = upvalues_model(v@);
            let u = match self.load_upvalue() {
                Ok(u) => u,
                Err(e) => {
                    proof {
                        assert(spec_items(s, q0, (i + 1) as nat, upvalue_reader()) == Err::<(Seq<UpvalueModel>, int), LoadErrorKind>(e));
                        lemma_items_fail(s, q0, (i + 1) as nat, n as nat, upvalue_reader());
                    }
                    return Err(e);
                },
            };
            v.push(u);
            i = i + 1;
            proof {
                assert(upvalues_model(v@) =~= before.push(u.model()));
            }
        }
        Ok(v)
    }

    /// An absolute line: the instruction and the line.
    pub fn load_absline(&mut self) -> (r: Result<AbsLineInfo, LoadErrorKind>)
        requires
            old(self).wf(),
        ensures
            final(self).keeps(*old(self)),
            outcome(r, spec_absline(old(self).input@, old(self).pos as int), final(self).pos as int, |a: AbsLineInfo| a),
    {
        let pc = match self.load_int() {
            Ok(n) => n,
            Err(e) => return Err(e),
        };
        match self.load_int() {
            Ok(line) => Ok(AbsLineInfo { pc, line }),
            Err(e) => Err(e),
        }
    }

    /// The absolute lines: a count, then that many.
    pub fn load_abslines(&mut self) -> (r: Result<Vec<AbsLineInfo>, LoadErrorKind>)
        requires
            old(self).wf(),
        ensures
            final(self).keeps(*old(self)),
            outcome(r, spec_counted(old(self).input@, old(self).pos as int, absline_reader()), final(self).pos as int,
                |v: Vec<AbsLineInfo>| v@),
    {
        let n = match self.load_int() {
            Ok(n) => n,
            Err(e) => return Err(e),
        };
        let ghost s = self.input@;
        let ghost q0 = self.pos as int;
        let mut v: Vec<AbsLineInfo> = Vec::new();
        let mut i: i32 = 0;
        while i < n
            invariant
                self.input@ == s,
                s == old(self).input@,
                self.name@ == old(self).name@,
                self.pos <= self.input.len(),
                spec_load_int(s, old(self).pos as int) == Ok::<(i32, int), LoadErrorKind>((n, q0)),
                0 <= i <= n,
                spec_items(s, q0, i as nat, absline_reader())
                    == Ok::<(Seq<AbsLineInfo>, int), LoadErrorKind>((v@, self.pos as int)),
            decreases n - i,
        {
            let a = match self.load_absline() {
                Ok(a) => a,
                Err(e) => {
                    proof {
                        assert(spec_items(s, q0, (i + 1) as nat, absline_reader()) == Err::<(Seq<AbsLineInfo>, int), LoadErrorKind>(e));
                        lemma_items_fail(s, q0, (i + 1) as nat, n as nat, absline_reader());
                    }
                    return Err(e);
                },
            };
            v.push(a);
            i = i + 1;
        }
        Ok(v)
    }

    /// A local variable: its name, its first and last instruction.
    pub fn load_locvar(&mut self) -> (r: Result<LocVar, LoadErrorKind>)
        requires
            old(self).wf(),
        ensures
            final(self).keeps(*old(self)),
            outcome(r, spec_locvar(old(self).input@, old(self).pos as int), final(self).pos as int, |l: LocVar| l.model()),
    {
        let name = match self.load_string_n() {
            Ok(n) => n,
            Err(e) => return Err(e),
        };
        let startpc = match self.load_int() {
            Ok(n) => n,
            Err(e) => return Err(e),
        };
        match self.load_int() {
            Ok(endpc) => Ok(LocVar { varname: name, startpc, endpc }),
            Err(e) => Err(e),
        }
    }

    /// The local variables: a count, then that many.
    pub fn load_locvars(&mut self) -> (r: Result<Vec<LocVar>, LoadErrorKind>)
        requires
            old(self).wf(),
        ensures
            final(self).keeps(*old(self)),
            outcome(r, spec_counted(old(self).input@, old(self).pos as int, locvar_reader()), final(self).pos as int,
                |v: Vec<LocVar>| locvars_model(v@)),
    {
        let n = match self.load_int() {
            Ok(n) => n,
            Err(e) => return Err(e),
        };
        let ghost s = self.input@;
        let ghost q0 = self.pos as int;
        let mut v: Vec<LocVar> = Vec::new();
        let mut i: i32 = 0;
        proof {
            assert(locvars_model(v@) =~= Seq::<LocalVarModel>::empty());
        }
        while i < n
            invariant
                self.input@ == s,
                s == old(self).input@,
                self.name@ == old(self).name@,
                self.pos <= self.input.len(),
                spec_load_int(s, old(self).pos as int) == Ok::<(i32, int), LoadErrorKind>((n, q0)),
                0 <= i <= n,
                spec_items(s, q0, i as nat, locvar_reader())
                    == Ok::<(Seq<LocalVarModel>, int), LoadErrorKind>((locvars_model(v@), self.pos as int)),
            decreases n - i,
        {
            let ghost before = locvars_model(v@);
            let l = match self.load_locvar() {
                Ok(l) => l,
                Err(e) => {
                    proof {
                        assert(spec_items(s, q0, (i + 1) as nat, locvar_reader()) == Err::<(Seq<LocalVarModel>, int), LoadErrorKind>(e));
                        lemma_items_fail(s, q0, (i + 1) as nat, n as nat, locvar_reader());
                    }
                    return Err(e);
                },
            };
            v.push(l);
            i = i + 1;
            proof {
                assert(locvars_model(v@) =~= before.push(l.model()));
            }
        }
        Ok(v)
    }
}


/// The debug information of a function, and its upvalues with their names.
pub struct DebugInfo {
    pub lineinfo: Vec<u8>,
    pub abslineinfo: Vec<AbsLineInfo>,
    pub locvars: Vec<LocVar>,
    pub upvalues: Vec<Upvaldesc>,
}

impl DebugInfo {
    pub open spec fn model(&self) -> (Seq<u8>, Seq<AbsLineInfo>, Seq<LocalVarModel>, Seq<UpvalueModel>) {
        (self.lineinfo@, self.abslineinfo@, locvars_model(self.locvars@), upvalues_model(self.upvalues@))
    }
}

/// A main function as loaded from a chunk, with the number of upvalues its
/// closure has.
#[derive(Debug)]
pub struct LClosure {
    pub nupvalues: u8,
    pub p: Proto,
}

/// The upvalues named, one name each, when the names are all read.
pub open spec fn spec_upvalue_names(s: Seq<u8>, p: int, ups: Seq<UpvalueModel>) -> Result<(Seq<UpvalueModel>, int), LoadErrorKind> {
    match spec_items(s, p, ups.len(), name_reader()) {
        Ok((names, q)) => Ok((named(ups, names), q)),
        Err(e) => Err(e),
    }
}

impl LoadState {
    /// One name for each upvalue.
    fn load_upvalue_names(&mut self, ups: &Vec<Upvaldesc>) -> (r: Result<Vec<Upvaldesc>, LoadErrorKind>)
        requires
            old(self).wf(),
        ensures
            final(self).keeps(*old(self)),
            outcome(r, spec_upvalue_names(old(self).input@, old(self).pos as int, upvalues_model(ups@)), final(self).pos as int,
                |v: Vec<Upvaldesc>| upvalues_model(v@)),
    {
        let ghost s = self.input@;
        let ghost q0 = self.pos as int;
        let ghost um = upvalues_model(ups@);
        let ghost mut names: Seq<Option<Seq<u8>>> = Seq::empty();
        let mut out: Vec<Upvaldesc> = Vec::new();
        let mut i: usize = 0;
        while i < ups.len()
            invariant
                self.input@ == s,
                s == old(self).input@,
                self.name@ == old(self).name@,
                q0 == old(self).pos as int,
                um == upvalues_model(ups@),
                self.pos <= self.input.len(),
                i <= ups.len(),
                out.len() == i,
                names.len() == i,
                spec_items(s, q0, i as nat, name_reader()) == Ok::<(Seq<Option<Seq<u8>>>, int), LoadErrorKind>((names, self.pos as int)),
                forall|j: int| 0 <= j < i ==> #[trigger] out@[j].model() == (UpvalueModel { name: names[j], ..um[j] }),
            decreases ups.len() - i,
        {
            let name = match self.load_string_n() {
                Ok(x) => x,
                Err(e) => {
                    proof {
                        assert(spec_items(s, q0, (i + 1) as nat, name_reader())
                            == Err::<(Seq<Option<Seq<u8>>>, int), LoadErrorKind>(e));
                        lemma_items_fail(s, q0, (i + 1) as nat, ups.len() as nat, name_reader());
                    }
                    return Err(e);
                },
            };
            proof {
                names = names.push(opt_bytes(name));
            }
            out.push(Upvaldesc { instack: ups[i].instack, index: ups[i].index, kind: ups[i].kind, name });
            i = i + 1;
        }
        proof {
            assert(upvalues_model(out@) =~= named(um, names));
        }
        Ok(out)
    }

    /// The debug information of a function whose upvalues are `ups`.
    pub fn load_debug(&mut self, ups: Vec<Upvaldesc>) -> (r: Result<DebugInfo, LoadErrorKind>)
        requires
            old(self).wf(),
        ensures
            final(self).keeps(*old(self)),
            outcome(r, spec_load_debug(old(self).input@, old(self).pos as int, upvalues_model(ups@)), final(self).pos as int,
                |d: DebugInfo| d.model()),
    {
        let n = match self.load_int() {
            Ok(n) => n,
            Err(e) => return Err(e),
        };
        let lineinfo = match self.load_block(n as usize) {
            Ok(b) => b,
            Err(e) => return Err(e),
        };
        let abslineinfo = match self.load_abslines() {
            Ok(v) => v,
            Err(e) => return Err(e),
        };
        let locvars = match self.load_locvars() {
            Ok(v) => v,
            Err(e) => return Err(e),
        };
        let k = match self.load_int() {
            Ok(k) => k,
            Err(e) => return Err(e),
        };
        if k == 0 {
            return Ok(DebugInfo { lineinfo, abslineinfo, locvars, upvalues: ups });
        }
        match self.load_upvalue_names(&ups) {
            Ok(upvalues) => Ok(DebugInfo { lineinfo, abslineinfo, locvars, upvalues }),
            Err(e) => Err(e),
        }
    }
}


impl LoadState {
    /// A function: its head, its body, the functions nested in it and its
    /// debug information. `psource` is the enclosing function's source.
    pub fn load_function(&mut self, psource: &Option<Vec<u8>>) -> (r: Result<Proto, LoadErrorKind>)
        requires
            old(self).wf(),
        ensures
            final(self).keeps(*old(self)),
            outcome(r, spec_load_function(old(self).input@, old(self).pos as int, opt_bytes(*psource)), final(self).pos as int,
                |f: Proto| f.model()),
        decreases old(self).input@.len() - old(self).pos, 0int,
    {
        let ghost s = self.input@;
        let ghost p = self.pos as int;
        proof {
            lemma_head(s, p, opt_bytes(*psource));
        }
        let src = match self.load_string_n() {
            Ok(x) => x,
            Err(e) => return Err(e),
        };
        let source = match src {
            Some(b) => Some(b),
            None => match psource {
                Some(b) => Some(copy_bytes(b.as_slice())),
                None => None,
            },
        };
        let linedefined = match self.load_int() {
            Ok(x) => x,
            Err(e) => return Err(e),
        };
        let lastlinedefined = match self.load_int() {
            Ok(x) => x,
            Err(e) => return Err(e),
        };
        let numparams = match self.load_byte() {
            Ok(x) => x,
            Err(e) => return Err(e),
        };
        let vararg = match self.load_byte() {
            Ok(x) => x,
            Err(e) => return Err(e),
        };
        let maxstacksize = match self.load_byte() {
            Ok(x) => x,
            Err(e) => return Err(e),
        };
        let ghost p1 = self.pos as int;
        proof {
            lemma_body(s, p1);
        }
        let code = match self.load_code() {
            Ok(x) => x,
            Err(e) => return Err(e),
        };
        let constants = match self.load_constants() {
            Ok(x) => x,
            Err(e) => return Err(e),
        };
        let ups = match self.load_upvalues() {
            Ok(x) => x,
            Err(e) => return Err(e),
        };
        let ghost p2 = self.pos as int;
        proof {
            lemma_int(s, p2);
        }
        let n = match self.load_int() {
            Ok(x) => x,
            Err(e) => return Err(e),
        };
        let protos = match self.load_protos(n, &source) {
            Ok(x) => x,
            Err(e) => return Err(e),
        };
        let dbg = match self.load_debug(ups) {
            Ok(x) => x,
            Err(e) => return Err(e),
        };
        let f = Proto {
            source,
            linedefined,
            lastlinedefined,
            numparams,
            is_vararg: vararg != 0,
            maxstacksize,
            code,
            constants,
            upvalues: dbg.upvalues,
            protos,
            lineinfo: dbg.lineinfo,
            abslineinfo: dbg.abslineinfo,
            locvars: dbg.locvars,
        };
        proof {
            assert(f.model().protos =~= protos_model(f.protos@));
        }
        Ok(f)
    }

    /// `n` nested functions.
    pub fn load_protos(&mut self, n: i32, psource: &Option<Vec<u8>>) -> (r: Result<Vec<Proto>, LoadErrorKind>)
        requires
            old(self).wf(),
            n >= 0,
        ensures
            final(self).keeps(*old(self)),
            outcome(r, spec_load_protos(old(self).input@, old(self).pos as int, n as nat, opt_bytes(*psource)), final(self).pos as int,
                |v: Vec<Proto>| protos_model(v@)),
        decreases old(self).input@.len() - old(self).pos, 1int,
    {
        let ghost s = self.input@;
        let ghost p0 = self.pos as int;
        let ghost src = opt_bytes(*psource);
        let mut v: Vec<Proto> = Vec::new();
        let mut i: i32 = 0;
        proof {
            assert(protos_model(v@) + Seq::<ProtoModel>::empty() =~= Seq::<ProtoModel>::empty());
            assert(protos_model(v@) =~= Seq::<ProtoModel>::empty());
        }
        while i < n
            invariant
                self.input@ == s,
                s == old(self).input@,
                self.name@ == old(self).name@,
                p0 == old(self).pos as int,
                src == opt_bytes(*psource),
                p0 <= self.pos <= self.input.len(),
                0 <= i <= n,
                v.len() == i,
                spec_load_protos(s, p0, n as nat, src) == match spec_load_protos(s, self.pos as int, (n - i) as nat, src) {
                    Ok((fs, q)) => Ok((protos_model(v@) + fs, q)),
                    Err(e) => Err(e),
                },
            decreases n - i,
        {
            let ghost cur = self.pos as int;
            let ghost before = protos_model(v@);
            proof {
                lemma_function(s, cur, src);
            }
            let f = match self.load_function(psource) {
                Ok(f) => f,
                Err(e) => return Err(e),
            };
            let ghost fm = f.model();
            proof {
                let q = self.pos as int;
                match spec_load_protos(s, q, (n - i - 1) as nat, src) {
                    Ok((fs, r)) => {
                        assert(before.push(fm) + fs =~= before + (seq![fm] + fs));
                    },
                    Err(_) => {},
                }
            }
            v.push(f);
            i = i + 1;
            proof {
                assert(protos_model(v@) =~= before.push(fm));
            }
        }
        proof {
            assert(protos_model(v@) + Seq::<ProtoModel>::empty() =~= protos_model(v@));
        }
        Ok(v)
    }

    /// Reads `lit.len()` bytes, which must be `lit`, else refuses the chunk
    /// with `err`.
    pub fn check_literal(&mut self, lit: &[u8], err: LoadErrorKind) -> (r: Result<(), LoadErrorKind>)
        requires
            old(self).wf(),
        ensures
            final(self).keeps(*old(self)),
            match spec_check_literal(old(self).input@, old(self).pos as int, lit@, err) {
                Ok(q) => r is Ok && final(self).pos == q,
                Err(e) => r == Err::<(), LoadErrorKind>(e),
            },
    {
        let b = match self.load_block(lit.len()) {
            Ok(b) => b,
            Err(e) => return Err(e),
        };
        if crate::toml::bytes_eq(b.as_slice(), lit) {
            Ok(())
        } else {
            Err(err)
        }
    }

    /// The header of a binary chunk (see `spec_check_header`).
    pub fn check_header(&mut self) -> (r: Result<(), LoadErrorKind>)
        requires
            old(self).wf(),
        ensures
            final(self).keeps(*old(self)),
            match spec_check_header(old(self).input@, old(self).pos as int) {
                Ok(q) => r is Ok && final(self).pos == q,
                Err(e) => r == Err::<(), LoadErrorKind>(e),
            },
    {
        let sig: Vec<u8> = vec![76u8, 117u8, 97u8];
        proof {
            assert(sig@ =~= signature_tail());
        }
        match self.check_literal(sig.as_slice(), LoadErrorKind::NotBinaryChunk) {
            Ok(()) => {},
            Err(e) => return Err(e),
        }
        let v = match self.load_byte() {
            Ok(x) => x,
            Err(e) => return Err(e),
        };
        if v != 0x54 {
            return Err(LoadErrorKind::VersionMismatch);
        }
        let f = match self.load_byte() {
            Ok(x) => x,
            Err(e) => return Err(e),
        };
        if f != 0 {
            return Err(LoadErrorKind::FormatMismatch);
        }
        let data: Vec<u8> = vec![0x19u8, 0x7Fu8, 0x0Du8, 0x0Au8, 0x1Au8, 0x0Au8];
        proof {
            assert(data@ =~= conversion_check());
        }
        match self.check_literal(data.as_slice(), LoadErrorKind::CorruptedChunk) {
            Ok(()) => {},
            Err(e) => return Err(e),
        }
        let i = match self.load_integer() {
            Ok(x) => x,
            Err(e) => return Err(e),
        };
        if i != 0x5678 {
            return Err(LoadErrorKind::IntegerFormatMismatch);
        }
        let x = match self.load_number() {
            Ok(x) => x,
            Err(e) => return Err(e),
        };
        if x != 0x4077280000000000u64 {
            return Err(LoadErrorKind::FloatFormatMismatch);
        }
        Ok(())
    }
}

/// The name a chunk goes by in messages (see `spec_chunk_name`).
pub fn chunk_name(name: &[u8]) -> (r: Vec<u8>)
    ensures
        r@ == spec_chunk_name(name@),
{
    if name.len() > 0 && (name[0] == 64 || name[0] == 61) {
        let mut v: Vec<u8> = Vec::new();
        let mut i: usize = 1;
        while i < name.len()
            invariant
                1 <= i <= name.len(),
                v@ == name@.subrange(1, i as int),
            decreases name.len() - i,
        {
            v.push(name[i]);
            i = i + 1;
            proof {
                assert(v@ =~= name@.subrange(1, i as int));
            }
        }
        proof {
            assert(v@ =~= name@.drop_first());
        }
        v
    } else if name.len() > 0 && name[0] == 27 {
        let v: Vec<u8> = vec![98u8, 105u8, 110u8, 97u8, 114u8, 121u8, 32u8, 115u8, 116u8, 114u8, 105u8, 110u8, 103u8];
        proof {
            assert(v@ =~= seq![98u8, 105u8, 110u8, 97u8, 114u8, 121u8, 32u8, 115u8, 116u8, 114u8, 105u8, 110u8, 103u8]);
        }
        v
    } else {
        copy_bytes(name)
    }
}

/// Loads a binary chunk, given the bytes after its escape byte and the
/// chunk's name: the main function and the number of upvalues of its
/// closure, or why the chunk is refused, under the name messages give it.
pub fn load_closure(input: Vec<u8>, name: &[u8]) -> (r: Result<LClosure, LoadError>)
    ensures
        match spec_load_chunk(input@) {
            Ok((nup, f)) => r matches Ok(c) && c.nupvalues == nup && c.p.model() == f,
            Err(e) => r matches Err(x) && x.kind == e && x.name@ == spec_chunk_name(name@),
        },
{
    let mut st = LoadState { input, pos: 0, name: chunk_name(name) };
    match st.check_header() {
        Ok(()) => {},
        Err(e) => return Err(st.error(e)),
    }
    let nupvalues = match st.load_byte() {
        Ok(x) => x,
        Err(e) => return Err(st.error(e)),
    };
    match st.load_function(&None) {
        Ok(p) => Ok(LClosure { nupvalues, p }),
        Err(e) => Err(st.error(e)),
    }
}

} // verus!
