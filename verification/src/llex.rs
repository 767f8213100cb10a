//! The lexer: turns the bytes of a chunk into Lua tokens, one at a time,
//! counting lines and reporting the errors the parser would see.
use vstd::prelude::*;
use crate::lobject::is_c_digit;
use crate::lobject::is_c_xdigit;
use crate::lobject::digit_span;
use crate::lobject::spec_str2int;
use crate::lobject::l_str2int;
use crate::lobject::cstr;

verus! {

// ─── Tokens and errors ───────────────────────────────────────────────────────

/// A token of Lua source.
#[derive(Debug)]
pub enum Token {
    /// A token of one byte: an operator or punctuation, or any byte the
    /// lexer does not otherwise know.
    Single(u8),
    /// A reserved word, by its index in `reserved_words` (`and` is 0,
    /// `while` is 21).
    Reserved(u8),
    /// `//`
    IDiv,
    /// `..`
    Concat,
    /// `...`
    Dots,
    /// `==`
    Eq,
    /// `>=`
    Ge,
    /// `<=`
    Le,
    /// `~=`
    Ne,
    /// `<<`
    Shl,
    /// `>>`
    Shr,
    /// `::`
    DbColon,
    /// The end of the source.
    Eos,
    /// A float numeral, by its text (the float itself is made from it).
    Flt(Vec<u8>),
    /// An integer numeral, by its value.
    Int(i64),
    Name(Vec<u8>),
    Str(Vec<u8>),
}

/// The model of a `Token`.
pub enum TokenModel {
    Single(u8),
    Reserved(u8),
    IDiv,
    Concat,
    Dots,
    Eq,
    Ge,
    Le,
    Ne,
    Shl,
    Shr,
    DbColon,
    Eos,
    Flt(Seq<u8>),
    Int(i64),
    Name(Seq<u8>),
    Str(Seq<u8>),
}

pub open spec fn token_view(t: Token) -> TokenModel {
    match t {
        Token::Single(c) => TokenModel::Single(c),
        Token::Reserved(k) => TokenModel::Reserved(k),
        Token::IDiv => TokenModel::IDiv,
        Token::Concat => TokenModel::Concat,
        Token::Dots => TokenModel::Dots,
        Token::Eq => TokenModel::Eq,
        Token::Ge => TokenModel::Ge,
        Token::Le => TokenModel::Le,
        Token::Ne => TokenModel::Ne,
        Token::Shl => TokenModel::Shl,
        Token::Shr => TokenModel::Shr,
        Token::DbColon => TokenModel::DbColon,
        Token::Eos => TokenModel::Eos,
        Token::Flt(t) => TokenModel::Flt(t@),
        Token::Int(i) => TokenModel::Int(i),
        Token::Name(n) => TokenModel::Name(n@),
        Token::Str(s) => TokenModel::Str(s@),
    }
}

/// What a lexical error is.
#[derive(Debug, Clone, Copy, PartialEq, Eq, Structural)]
pub enum LexErrorKind {
    /// `chunk has too many lines`
    TooManyLines,
    /// `malformed number`
    MalformedNumber,
    /// `unfinished long string (starting at line N)`
    UnfinishedLongString(i32),
    /// `unfinished long comment (starting at line N)`
    UnfinishedLongComment(i32),
    /// `unfinished string`
    UnfinishedString,
    /// `invalid long string delimiter`
    InvalidLongDelimiter,
    /// `hexadecimal digit expected`
    HexDigitExpected,
    /// `missing '{'`
    MissingOpenBrace,
    /// `missing '}'`
    MissingCloseBrace,
    /// `UTF-8 value too large`
    Utf8ValueTooLarge,
    /// `decimal escape too large`
    DecimalEscapeTooLarge,
    /// `invalid escape sequence`
    InvalidEscape,
}

/// What an error message names as the place of the error.
#[derive(Debug)]
pub enum Near {
    /// No `near` part.
    Nothing,
    /// `near <eof>`
    Eof,
    /// `near 'TEXT'`: the text of the token read so far.
    Text(Vec<u8>),
}

pub enum NearModel {
    Nothing,
    Eof,
    Text(Seq<u8>),
}

/// A lexical error: what it is, the line it was found on, and the `near`
/// part of its message.
#[derive(Debug)]
pub struct LexError {
    pub kind: LexErrorKind,
    pub line: i32,
    pub near: Near,
}

pub struct LexErrorModel {
    pub kind: LexErrorKind,
    pub line: int,
    pub near: NearModel,
}

pub open spec fn near_view(n: Near) -> NearModel {
    match n {
        Near::Nothing => NearModel::Nothing,
        Near::Eof => NearModel::Eof,
        Near::Text(t) => NearModel::Text(t@),
    }
}

pub open spec fn error_view(e: LexError) -> LexErrorModel {
    LexErrorModel { kind: e.kind, line: e.line as int, near: near_view(e.near) }
}

pub open spec fn fault(kind: LexErrorKind, line: int, near: NearModel) -> LexErrorModel {
    LexErrorModel { kind, line, near }
}

// ─── Reading the source ──────────────────────────────────────────────────────

/// The byte at `p`, or -1 past the end.
pub open spec fn cur(s: Seq<u8>, p: int) -> int {
    if 0 <= p < s.len() {
        s[p] as int
    } else {
        -1
    }
}

pub open spec fn is_newline(c: int) -> bool {
    c == 10 || c == 13
}

fn cur_exec(s: &[u8], p: usize) -> (r: i32)
    ensures
        r as int == cur(s@, p as int),
{
    if p < s.len() {
        s[p] as i32
    } else {
        -1
    }
}

/// Steps over the line break at `p` (`\n`, `\r`, `\n\r` or `\r\n`) and
/// counts a line; refused when the count reaches `i32::MAX`.
pub open spec fn spec_newline(s: Seq<u8>, p: int, line: int) -> Result<(int, int), LexErrorModel> {
    let p1 = p + 1;
    let p2 = if is_newline(cur(s, p1)) && cur(s, p1) != cur(s, p) {
        p1 + 1
    } else {
        p1
    };
    if line + 1 >= 0x7fffffff {
        Err(fault(LexErrorKind::TooManyLines, line + 1, NearModel::Nothing))
    } else {
        Ok((p2, line + 1))
    }
}

fn newline(s: &[u8], p: usize, line: i32) -> (r: Result<(usize, i32), LexError>)
    requires
        p < s@.len(),
        is_newline(cur(s@, p as int)),
        line < 0x7fff_ffff,
    ensures
        match spec_newline(s@, p as int, line as int) {
            Ok((p2, l2)) => r matches Ok((q, m)) && q as int == p2 && m as int == l2 && q <= s@.len(),
            Err(e) => r matches Err(x) && error_view(x) == e,
        },
{
    let n = s.len();
    let c = s[p];
    let mut q = p + 1;
    if q < s.len() && (s[q] == 10u8 || s[q] == 13u8) && s[q] != c {
        q = q + 1;
    }
    if line >= 0x7fff_fffe {
        return Err(LexError { kind: LexErrorKind::TooManyLines, line: line + 1, near: Near::Nothing });
    }
    Ok((q, line + 1))
}

// ─── Long brackets ───────────────────────────────────────────────────────────

/// The index of the first byte from `i` on that is not `=`.
pub open spec fn eq_run(s: Seq<u8>, i: int) -> int
    decreases s.len() - i,
{
    if 0 <= i < s.len() && s[i] == 61u8 {
        eq_run(s, i + 1)
    } else {
        i
    }
}

/// At a `[` or `]` at `p`, followed by `=` signs up to `eq_run(s, p + 1)`:
/// the level of the bracket (the number of `=` plus 2) when the same
/// bracket closes it, else 1 for a lone bracket and 0 for one followed by
/// `=` signs only.
pub open spec fn spec_skip_sep(s: Seq<u8>, p: int) -> int {
    let q = eq_run(s, p + 1);
    let count = q - (p + 1);
    if cur(s, q) == s[p] as int {
        count + 2
    } else if count == 0 {
        1
    } else {
        0
    }
}

pub proof fn lemma_eq_run(s: Seq<u8>, i: int)
    requires
        0 <= i,
    ensures
        i <= eq_run(s, i),
        eq_run(s, i) <= s.len() || eq_run(s, i) == i,
        forall|k: int| i <= k < eq_run(s, i) ==> s[k] == 61u8,
        eq_run(s, i) < s.len() ==> s[eq_run(s, i)] != 61u8,
    decreases s.len() - i,
{
    if 0 <= i < s.len() && s[i] == 61u8 {
        lemma_eq_run(s, i + 1);
    }
}

fn skip_sep(s: &[u8], p: usize) -> (r: (usize, usize))
    requires
        p < s@.len(),
    ensures
        r.0 as int == spec_skip_sep(s@, p as int),
        r.1 as int == eq_run(s@, p as int + 1),
        p < r.1 <= s@.len(),
{
    let n = s.len();
    let mut q = p + 1;
    proof {
        lemma_eq_run(s@, p as int + 1);
    }
    while q < s.len() && s[q] == 61u8
        invariant
            p < q <= s@.len(),
            eq_run(s@, q as int) == eq_run(s@, p as int + 1),
        decreases s@.len() - q,
    {
        q = q + 1;
    }
    let count = q - (p + 1);
    if q < s.len() && s[q] == s[p] {
        (count + 2, q)
    } else if count == 0 {
        (1, q)
    } else {
        (0, q)
    }
}

/// The body of a long string or comment from `p` on, closed by a bracket of
/// level `sep`: its bytes (line breaks written as `\n`), the index after the
/// closing bracket and the line there; an error at the end of the source.
pub open spec fn long_from(s: Seq<u8>, p: int, line: int, sep: int, start: int, is_str: bool) -> Result<
    (Seq<u8>, int, int),
    LexErrorModel,
>
    decreases s.len() - p,
{
    if p < 0 || p >= s.len() {
        Err(
            fault(
                if is_str {
                    LexErrorKind::UnfinishedLongString(start as i32)
                } else {
                    LexErrorKind::UnfinishedLongComment(start as i32)
                },
                line,
                NearModel::Eof,
            ),
        )
    } else if s[p] == 93u8 {
        let q = eq_run(s, p + 1);
        if spec_skip_sep(s, p) == sep {
            Ok((Seq::empty(), q + 1, line))
        } else {
            proof {
                lemma_eq_run(s, p + 1);
            }
            match long_from(s, q, line, sep, start, is_str) {
                Ok((rest, p2, l2)) => Ok((s.subrange(p, q) + rest, p2, l2)),
                Err(e) => Err(e),
            }
        }
    } else if is_newline(s[p] as int) {
        match spec_newline(s, p, line) {
            Err(e) => Err(e),
            Ok((p1, l1)) => match long_from(s, p1, l1, sep, start, is_str) {
                Ok((rest, p2, l2)) => Ok((seq![10u8] + rest, p2, l2)),
                Err(e) => Err(e),
            },
        }
    } else {
        match long_from(s, p + 1, line, sep, start, is_str) {
            Ok((rest, p2, l2)) => Ok((seq![s[p]] + rest, p2, l2)),
            Err(e) => Err(e),
        }
    }
}


/// `r` with `b` put before the text it gives.
pub open spec fn prepend(b: Seq<u8>, r: Result<(Seq<u8>, int, int), LexErrorModel>) -> Result<
    (Seq<u8>, int, int),
    LexErrorModel,
> {
    match r {
        Ok((t, p, l)) => Ok((b + t, p, l)),
        Err(e) => Err(e),
    }
}

/// A long string or comment whose opening bracket of level `sep` ends with
/// the `[` at `p`: a line break right after the bracket is skipped, then the
/// body is read up to the closing bracket.
pub open spec fn spec_long_bracket(s: Seq<u8>, p: int, line: int, sep: int, is_str: bool) -> Result<
    (Seq<u8>, int, int),
    LexErrorModel,
> {
    let p1 = p + 1;
    if is_newline(cur(s, p1)) {
        match spec_newline(s, p1, line) {
            Err(e) => Err(e),
            Ok((p2, l2)) => long_from(s, p2, l2, sep, line, is_str),
        }
    } else {
        long_from(s, p1, line, sep, line, is_str)
    }
}

fn read_long(s: &[u8], p: usize, line: i32, sep: usize, is_str: bool) -> (r: Result<(Vec<u8>, usize, i32), LexError>)
    requires
        p < s@.len(),
        line < 0x7fff_ffff,
        sep >= 2,
    ensures
        match spec_long_bracket(s@, p as int, line as int, sep as int, is_str) {
            Ok((b, q, l)) => r matches Ok((v, q2, l2)) && v@ == b && q2 as int == q && l2 as int == l
                && q2 <= s@.len() && l2 < 0x7fff_ffff,
            Err(e) => r matches Err(x) && error_view(x) == e,
        },
{
    let n = s.len();
    let start = line;
    let mut i = p + 1;
    let mut ln = line;
    if i < n && (s[i] == 10u8 || s[i] == 13u8) {
        match newline(s, i, ln) {
            Err(e) => return Err(e),
            Ok((q, l)) => {
                i = q;
                ln = l;
            },
        }
    }
    let ghost p0 = i as int;
    let ghost l0 = ln as int;
    let mut body: Vec<u8> = Vec::new();
    proof {
        assert(spec_long_bracket(s@, p as int, start as int, sep as int, is_str) == long_from(s@, p0, l0, sep as int, start as int, is_str));
        assert(body@ + Seq::<u8>::empty() =~= body@);
    }
    loop
        invariant
            i <= n,
            n == s@.len(),
            ln < 0x7fff_ffff,
            sep >= 2,
            start == line,
            spec_long_bracket(s@, p as int, start as int, sep as int, is_str) == long_from(s@, p0, l0, sep as int, start as int, is_str),
            prepend(body@, long_from(s@, i as int, ln as int, sep as int, start as int, is_str))
                == long_from(s@, p0, l0, sep as int, start as int, is_str),
        decreases n - i,
    {
        if i >= n {
            let kind = if is_str {
                LexErrorKind::UnfinishedLongString(start)
            } else {
                LexErrorKind::UnfinishedLongComment(start)
            };
            return Err(LexError { kind, line: ln, near: Near::Eof });
        }
        let c = s[i];
        if c == 93u8 {
            let (sep2, q) = skip_sep(s, i);
            if sep2 == sep {
                proof {
                    assert(body@ + Seq::<u8>::empty() =~= body@);
                }
                return Ok((body, q + 1, ln));
            }
            let ghost before = body@;
            let mut k = i;
            while k < q
                invariant
                    i <= k <= q,
                    q <= n,
                    n == s@.len(),
                    body@ == before + s@.subrange(i as int, k as int),
                decreases q - k,
            {
                body.push(s[k]);
                k = k + 1;
                proof {
                    assert(body@ =~= before + s@.subrange(i as int, k as int));
                }
            }
            proof {
                let t = long_from(s@, q as int, ln as int, sep as int, start as int, is_str);
                match t {
                    Ok((rest, p2, l2)) => {
                        assert(before + (s@.subrange(i as int, q as int) + rest) =~= body@ + rest);
                    },
                    Err(e) => {},
                }
            }
            i = q;
        } else if c == 10u8 || c == 13u8 {
            match newline(s, i, ln) {
                Err(e) => return Err(e),
                Ok((q, l)) => {
                    let ghost before = body@;
                    body.push(10u8);
                    proof {
                        let t = long_from(s@, q as int, l as int, sep as int, start as int, is_str);
                        match t {
                            Ok((rest, p2, l2)) => {
                                assert(before + (seq![10u8] + rest) =~= body@ + rest);
                            },
                            Err(e) => {},
                        }
                    }
                    i = q;
                    ln = l;
                },
            }
        } else {
            let ghost before = body@;
            body.push(c);
            proof {
                let t = long_from(s@, i as int + 1, ln as int, sep as int, start as int, is_str);
                match t {
                    Ok((rest, p2, l2)) => {
                        assert(before + (seq![c] + rest) =~= body@ + rest);
                    },
                    Err(e) => {},
                }
            }
            i = i + 1;
        }
    }
}


// ─── Numerals ────────────────────────────────────────────────────────────────

/// A letter or `_`.
pub open spec fn is_lalpha(c: int) -> bool {
    (65 <= c <= 90) || (97 <= c <= 122) || c == 95
}

pub open spec fn is_xdigit_at(c: int) -> bool {
    0 <= c < 256 && is_c_xdigit(c as u8)
}

/// Where the body of a numeral from `i` ends: hexadecimal digits and `.`
/// are taken, and an exponent mark (`lo` or `up`) with the sign after it.
pub open spec fn num_body_end(s: Seq<u8>, i: int, lo: int, up: int) -> int
    decreases s.len() - i,
{
    let c = cur(s, i);
    if i < 0 || c < 0 {
        i
    } else if c == lo || c == up {
        let j = i + 1;
        if cur(s, j) == 45 || cur(s, j) == 43 {
            num_body_end(s, j + 1, lo, up)
        } else {
            num_body_end(s, j, lo, up)
        }
    } else if is_xdigit_at(c) || c == 46 {
        num_body_end(s, i + 1, lo, up)
    } else {
        i
    }
}

/// Where the numeral that starts at `p` ends: after a `0x` prefix the
/// exponent mark is `p`, else `e`; one letter right after the body is taken
/// too (it makes the numeral malformed).
pub open spec fn numeral_end(s: Seq<u8>, p: int) -> int {
    let hex = s[p] == 48u8 && (cur(s, p + 1) == 120 || cur(s, p + 1) == 88);
    let i3 = if hex {
        num_body_end(s, p + 2, 112, 80)
    } else {
        num_body_end(s, p + 1, 101, 69)
    };
    if is_lalpha(cur(s, i3)) {
        i3 + 1
    } else {
        i3
    }
}

/// The end of the exponent that may follow a mantissa ending at `b`: after
/// `lo` or `up`, an optional sign and at least one decimal digit; `b`
/// itself when there is none.
pub open spec fn exponent_end(t: Seq<u8>, b: int, lo: int, up: int) -> int {
    if cur(t, b) == lo || cur(t, b) == up {
        let j = if cur(t, b + 1) == 45 || cur(t, b + 1) == 43 {
            b + 2
        } else {
            b + 1
        };
        let k = digit_span(t, j, false);
        if k > j {
            k
        } else {
            b
        }
    } else {
        b
    }
}

/// Where the longest float that `strtod` reads from the start of `t`
/// ends, for text that starts with a digit or `.`: a mantissa of digits
/// (hexadecimal after `0x`) with at most one `.` and at least one digit,
/// then an exponent (`e`, or `p` after `0x`); -1 when there is no mantissa.
pub open spec fn float_end(t: Seq<u8>) -> int {
    let hex = cur(t, 0) == 48 && (cur(t, 1) == 120 || cur(t, 1) == 88);
    let start: int = if hex { 2 } else { 0 };
    let a = digit_span(t, start, hex);
    let b = if cur(t, a) == 46 {
        digit_span(t, a + 1, hex)
    } else {
        a
    };
    let ndigits = (a - start) + (if cur(t, a) == 46 {
        b - (a + 1)
    } else {
        0
    });
    if ndigits == 0 {
        if hex {
            1
        } else {
            -1
        }
    } else if hex {
        exponent_end(t, b, 112, 80)
    } else {
        exponent_end(t, b, 101, 69)
    }
}

/// The token a numeral's text makes: an integer when it reads as one
/// (decimal within range, or hexadecimal, which wraps around), else a float
/// when all of it reads as one, else `malformed number`.
pub open spec fn numeral_token(t: Seq<u8>, line: int) -> Result<TokenModel, LexErrorModel> {
    match spec_str2int(t) {
        Some((v, _)) => Ok(TokenModel::Int(v as i64)),
        None => if !t.contains(110u8) && !t.contains(78u8) && float_end(t) == t.len() {
            Ok(TokenModel::Flt(t))
        } else {
            Err(fault(LexErrorKind::MalformedNumber, line, NearModel::Text(cstr(t))))
        },
    }
}

/// The numeral whose text starts at `p` and whose first digit is at `f`
/// (`p` itself, or the digit after a `.` at `p`): its token and the index
/// after it.
pub open spec fn spec_read_numeral(s: Seq<u8>, p: int, f: int, line: int) -> Result<(TokenModel, int), LexErrorModel> {
    let e = numeral_end(s, f);
    match numeral_token(s.subrange(p, e), line) {
        Ok(t) => Ok((t, e)),
        Err(x) => Err(x),
    }
}

proof fn lemma_num_body_end(s: Seq<u8>, i: int, lo: int, up: int)
    requires
        0 <= i,
    ensures
        i <= num_body_end(s, i, lo, up),
        num_body_end(s, i, lo, up) <= s.len() || num_body_end(s, i, lo, up) == i,
    decreases s.len() - i,
{
    let c = cur(s, i);
    if c >= 0 {
        if c == lo || c == up {
            let j = i + 1;
            if cur(s, j) == 45 || cur(s, j) == 43 {
                lemma_num_body_end(s, j + 1, lo, up);
            } else {
                lemma_num_body_end(s, j, lo, up);
            }
        } else if is_xdigit_at(c) || c == 46 {
            lemma_num_body_end(s, i + 1, lo, up);
        }
    }
}

fn body_end(s: &[u8], i: usize, lo: u8, up: u8) -> (r: usize)
    requires
        i <= s@.len(),
    ensures
        r as int == num_body_end(s@, i as int, lo as int, up as int),
        i <= r <= s@.len(),
{
    let n = s.len();
    let mut j = i;
    proof {
        lemma_num_body_end(s@, i as int, lo as int, up as int);
    }
    while j < n
        invariant
            i <= j <= n,
            n == s@.len(),
            num_body_end(s@, j as int, lo as int, up as int) == num_body_end(s@, i as int, lo as int, up as int),
        decreases n - j,
    {
        let c = s[j];
        if c == lo || c == up {
            j = j + 1;
            if j < n && (s[j] == 45u8 || s[j] == 43u8) {
                j = j + 1;
            }
        } else if (48u8 <= c && c <= 57u8) || (97u8 <= c && c <= 102u8) || (65u8 <= c && c <= 70u8) || c == 46u8 {
            j = j + 1;
        } else {
            return j;
        }
    }
    j
}

fn exp_end(t: &[u8], b: usize, lo: u8, up: u8) -> (r: usize)
    requires
        b <= t@.len(),
    ensures
        r as int == exponent_end(t@, b as int, lo as int, up as int),
{
    let n = t.len();
    if b < n && (t[b] == lo || t[b] == up) {
        let j = if b + 1 < n && (t[b + 1] == 45u8 || t[b + 1] == 43u8) {
            b + 2
        } else {
            b + 1
        };
        let k = crate::lobject::digits_end(t, j, false);
        if k > j {
            k
        } else {
            b
        }
    } else {
        b
    }
}

/// Whether all of `t` reads as a float.
fn whole_float(t: &[u8]) -> (r: bool)
    ensures
        r == (float_end(t@) == t@.len()),
{
    let n = t.len();
    let hex = n >= 2 && t[0] == 48u8 && (t[1] == 120u8 || t[1] == 88u8);
    let start: usize = if hex { 2 } else { 0 };
    let a = crate::lobject::digits_end(t, start, hex);
    let dot = a < n && t[a] == 46u8;
    let b = if dot {
        crate::lobject::digits_end(t, a + 1, hex)
    } else {
        a
    };
    let ndigits = (a - start) + (if dot { b - (a + 1) } else { 0 });
    if ndigits == 0 {
        if hex {
            return n == 1;
        }
        return false;
    }
    exp_end(t, b, if hex { 112u8 } else { 101u8 }, if hex { 80u8 } else { 69u8 }) == n
}

fn has_byte(t: &[u8], c: u8) -> (r: bool)
    ensures
        r == t@.contains(c),
{
    let mut i: usize = 0;
    while i < t.len()
        invariant
            i <= t@.len(),
            forall|k: int| 0 <= k < i ==> t@[k] != c,
        decreases t@.len() - i,
    {
        if t[i] == c {
            proof {
                assert(t@[i as int] == c);
            }
            return true;
        }
        i = i + 1;
    }
    false
}

/// Reads the numeral whose text starts at `p` and whose first digit is at
/// `f`.
fn read_numeral(s: &[u8], p: usize, f: usize, line: i32) -> (r: Result<(Token, usize), LexError>)
    requires
        p <= f < s@.len(),
    ensures
        match spec_read_numeral(s@, p as int, f as int, line as int) {
            Ok((t, e)) => r matches Ok((x, q)) && token_view(x) == t && q as int == e && p < q <= s@.len(),
            Err(e) => r matches Err(x) && error_view(x) == e,
        },
{
    let n = s.len();
    let hex = s[f] == 48u8 && f + 1 < n && (s[f + 1] == 120u8 || s[f + 1] == 88u8);
    let i3 = if hex {
        body_end(s, f + 2, 112u8, 80u8)
    } else {
        body_end(s, f + 1, 101u8, 69u8)
    };
    let e = if i3 < n && ((65u8 <= s[i3] && s[i3] <= 90u8) || (97u8 <= s[i3] && s[i3] <= 122u8) || s[i3] == 95u8) {
        i3 + 1
    } else {
        i3
    };
    let text = &s[p..e];
    proof {
        assert(text@ == s@.subrange(p as int, e as int));
    }
    match l_str2int(text) {
        Some((v, _)) => Ok((Token::Int(v), e)),
        None => {
            if !has_byte(text, 110u8) && !has_byte(text, 78u8) && whole_float(text) {
                Ok((Token::Flt(vstd::slice::slice_to_vec(text)), e))
            } else {
                let near = crate::lobject::cstr_exec(text);
                Err(LexError { kind: LexErrorKind::MalformedNumber, line, near: Near::Text(near) })
            }
        },
    }
}


// ─── Short strings ───────────────────────────────────────────────────────────

/// The byte `c`, or nothing at the end of the source.
pub open spec fn opt_byte(c: int) -> Seq<u8> {
    if 0 <= c < 256 {
        seq![c as u8]
    } else {
        Seq::empty()
    }
}

pub open spec fn is_digit_at(c: int) -> bool {
    48 <= c <= 57
}

pub open spec fn hexval(c: int) -> int {
    crate::lobject::spec_hexavalue(c as u8)
}

/// The byte of a one-letter escape (`\a` `\b` `\f` `\n` `\r` `\t` `\v` and
/// `\\` `\"` `\'`), if `e` is one.
pub open spec fn simple_escape(e: int) -> Option<u8> {
    if e == 97 {
        Some(7u8)
    } else if e == 98 {
        Some(8u8)
    } else if e == 102 {
        Some(12u8)
    } else if e == 110 {
        Some(10u8)
    } else if e == 114 {
        Some(13u8)
    } else if e == 116 {
        Some(9u8)
    } else if e == 118 {
        Some(11u8)
    } else if e == 92 || e == 34 || e == 39 {
        Some(e as u8)
    } else {
        None
    }
}

/// What follows `\z`: white space from `i` is skipped, line breaks counted.
pub open spec fn skip_z(s: Seq<u8>, i: int, line: int) -> Result<(int, int), LexErrorModel>
    decreases s.len() - i,
{
    let c = cur(s, i);
    if i < 0 || c < 0 || !crate::lobject::is_c_space(c as u8) {
        Ok((i, line))
    } else if is_newline(c) {
        match spec_newline(s, i, line) {
            Err(e) => Err(e),
            Ok((i2, l2)) => skip_z(s, i2, l2),
        }
    } else {
        skip_z(s, i + 1, line)
    }
}

/// The digits of `\u{...}` from `i`, after digits `ds` worth `r`: their
/// value, where they end and all the digits; refused (with the digits read,
/// the offending one last) when the value would pass `0x7fffffff`.
pub open spec fn utf8_esc_digits(s: Seq<u8>, i: int, r: int, ds: Seq<u8>) -> Result<(int, int, Seq<u8>), Seq<u8>>
    decreases s.len() - i,
{
    let c = cur(s, i);
    if i < 0 || !is_xdigit_at(c) {
        Ok((r, i, ds))
    } else if r > 0x7ffffff {
        Err(ds + seq![c as u8])
    } else {
        utf8_esc_digits(s, i + 1, r * 16 + hexval(c), ds + seq![c as u8])
    }
}

/// How an error inside an escape names its place: by nothing, by the end
/// of the source, or by the string read so far with `\` and these bytes.
pub enum EscNear {
    Nothing,
    Eof,
    After(Seq<u8>),
}

/// The escape sequence whose letter is at `q` (just after a `\`): the bytes
/// it stands for, the index after it and the line there; or the error, its
/// line and how it names its place.
pub open spec fn spec_escape(s: Seq<u8>, q: int, line: int) -> Result<(Seq<u8>, int, int), (LexErrorKind, int, EscNear)> {
    let e = cur(s, q);
    if e < 0 {
        Err((LexErrorKind::UnfinishedString, line, EscNear::Eof))
    } else if simple_escape(e) is Some {
        Ok((seq![simple_escape(e)->Some_0], q + 1, line))
    } else if e == 120 {
        let h1 = cur(s, q + 1);
        let h2 = cur(s, q + 2);
        if !is_xdigit_at(h1) {
            Err((LexErrorKind::HexDigitExpected, line, EscNear::After(seq![120u8] + opt_byte(h1))))
        } else if !is_xdigit_at(h2) {
            Err((LexErrorKind::HexDigitExpected, line, EscNear::After(seq![120u8, h1 as u8] + opt_byte(h2))))
        } else {
            Ok((seq![(hexval(h1) * 16 + hexval(h2)) as u8], q + 3, line))
        }
    } else if e == 117 {
        let b = cur(s, q + 1);
        let d = cur(s, q + 2);
        if b != 123 {
            Err((LexErrorKind::MissingOpenBrace, line, EscNear::After(seq![117u8] + opt_byte(b))))
        } else if !is_xdigit_at(d) {
            Err((LexErrorKind::HexDigitExpected, line, EscNear::After(seq![117u8, 123u8] + opt_byte(d))))
        } else {
            match utf8_esc_digits(s, q + 3, hexval(d), seq![d as u8]) {
                Err(ds) => Err((LexErrorKind::Utf8ValueTooLarge, line, EscNear::After(seq![117u8, 123u8] + ds))),
                Ok((r, i, ds)) => if cur(s, i) != 125 {
                    Err((LexErrorKind::MissingCloseBrace, line, EscNear::After(seq![117u8, 123u8] + ds + opt_byte(cur(s, i)))))
                } else {
                    Ok((crate::lobject::spec_utf8esc(r as nat), i + 1, line))
                },
            }
        }
    } else if is_newline(e) {
        match spec_newline(s, q, line) {
            Err(x) => Err((x.kind, x.line, EscNear::Nothing)),
            Ok((i, l)) => Ok((seq![10u8], i, l)),
        }
    } else if e == 122 {
        match skip_z(s, q + 1, line) {
            Err(x) => Err((x.kind, x.line, EscNear::Nothing)),
            Ok((i, l)) => Ok((Seq::empty(), i, l)),
        }
    } else if is_digit_at(e) {
        let d2 = cur(s, q + 1);
        let d3 = cur(s, q + 2);
        let (r, i) = if !is_digit_at(d2) {
            (e - 48, q + 1)
        } else if !is_digit_at(d3) {
            ((e - 48) * 10 + (d2 - 48), q + 2)
        } else {
            ((e - 48) * 100 + (d2 - 48) * 10 + (d3 - 48), q + 3)
        };
        if r > 255 {
            Err((LexErrorKind::DecimalEscapeTooLarge, line, EscNear::After(s.subrange(q, i) + opt_byte(cur(s, i)))))
        } else {
            Ok((seq![r as u8], i, line))
        }
    } else {
        Err((LexErrorKind::InvalidEscape, line, EscNear::After(seq![e as u8])))
    }
}

proof fn lemma_skip_z(s: Seq<u8>, i: int, line: int)
    requires
        0 <= i,
    ensures
        skip_z(s, i, line) matches Ok((j, l)) ==> i <= j && (j <= s.len() || j == i),
    decreases s.len() - i,
{
    let c = cur(s, i);
    if c >= 0 && crate::lobject::is_c_space(c as u8) {
        if is_newline(c) {
            match spec_newline(s, i, line) {
                Err(e) => {},
                Ok((i2, l2)) => {
                    lemma_skip_z(s, i2, l2);
                },
            }
        } else {
            lemma_skip_z(s, i + 1, line);
        }
    }
}

proof fn lemma_utf8_esc_digits(s: Seq<u8>, i: int, r: int, ds: Seq<u8>)
    requires
        0 <= i,
    ensures
        utf8_esc_digits(s, i, r, ds) matches Ok((v, j, d)) ==> i <= j <= s.len() || j == i,
    decreases s.len() - i,
{
    let c = cur(s, i);
    if is_xdigit_at(c) && r <= 0x7ffffff {
        lemma_utf8_esc_digits(s, i + 1, r * 16 + hexval(c), ds + seq![c as u8]);
    }
}

pub proof fn lemma_escape_advances(s: Seq<u8>, q: int, line: int)
    requires
        0 <= q,
    ensures
        spec_escape(s, q, line) matches Ok((b, i, l)) ==> q < i <= s.len(),
{
    let e = cur(s, q);
    if e == 117 && cur(s, q + 1) == 123 && is_xdigit_at(cur(s, q + 2)) {
        lemma_utf8_esc_digits(s, q + 3, hexval(cur(s, q + 2)), seq![cur(s, q + 2) as u8]);
    }
    if e == 122 {
        lemma_skip_z(s, q + 1, line);
    }
}

/// The rest of a string closed by `del`, from `p` on, with `buf` read so
/// far (the opening quote first, escapes already replaced): the string's
/// bytes, the index after the closing quote and the line there; or the
/// error, which names the text read so far (up to a zero byte).
pub open spec fn str_from(s: Seq<u8>, p: int, line: int, del: u8, buf: Seq<u8>) -> Result<(Seq<u8>, int, int), LexErrorModel>
    decreases s.len() - p,
{
    let c = cur(s, p);
    if p < 0 || c < 0 {
        Err(fault(LexErrorKind::UnfinishedString, line, NearModel::Eof))
    } else if c == del as int {
        Ok((buf.skip(1), p + 1, line))
    } else if is_newline(c) {
        Err(fault(LexErrorKind::UnfinishedString, line, NearModel::Text(cstr(buf))))
    } else if c == 92 {
        proof {
            lemma_escape_advances(s, p + 1, line);
        }
        match spec_escape(s, p + 1, line) {
            Ok((b, i, l)) => str_from(s, i, l, del, buf + b),
            Err((k, l, EscNear::Nothing)) => Err(fault(k, l, NearModel::Nothing)),
            Err((k, l, EscNear::Eof)) => Err(fault(k, l, NearModel::Eof)),
            Err((k, l, EscNear::After(t))) => Err(fault(k, l, NearModel::Text(cstr(buf + seq![92u8] + t)))),
        }
    } else {
        str_from(s, p + 1, line, del, buf + seq![c as u8])
    }
}

/// The string whose opening quote `del` is at `p`.
pub open spec fn spec_read_string(s: Seq<u8>, p: int, line: int) -> Result<(Seq<u8>, int, int), LexErrorModel> {
    str_from(s, p + 1, line, s[p], seq![s[p]])
}


/// How an error inside an escape names its place (see `EscNear`).
enum EscPlace {
    Nothing,
    Eof,
    After(Vec<u8>),
}

spec fn esc_place_view(p: EscPlace) -> EscNear {
    match p {
        EscPlace::Nothing => EscNear::Nothing,
        EscPlace::Eof => EscNear::Eof,
        EscPlace::After(t) => EscNear::After(t@),
    }
}

fn opt_byte_exec(c: i32) -> (r: Vec<u8>)
    ensures
        r@ == opt_byte(c as int),
{
    let mut v: Vec<u8> = Vec::new();
    if 0 <= c && c < 256 {
        v.push(c as u8);
    }
    proof {
        assert(v@ =~= opt_byte(c as int));
    }
    v
}

fn is_xdigit_exec(c: i32) -> (r: bool)
    ensures
        r == is_xdigit_at(c as int),
{
    (48 <= c && c <= 57) || (97 <= c && c <= 102) || (65 <= c && c <= 70)
}

fn skip_z_exec(s: &[u8], i: usize, line: i32) -> (r: Result<(usize, i32), LexError>)
    requires
        i <= s@.len(),
        line < 0x7fff_ffff,
    ensures
        match skip_z(s@, i as int, line as int) {
            Ok((j, l)) => r matches Ok((j2, l2)) && j2 as int == j && l2 as int == l && j2 <= s@.len() && l2 < 0x7fff_ffff,
            Err(e) => r matches Err(x) && error_view(x) == e,
        },
{
    let n = s.len();
    let mut j = i;
    let mut ln = line;
    while j < n && (s[j] == 32u8 || (9u8 <= s[j] && s[j] <= 13u8))
        invariant
            i <= j <= n,
            n == s@.len(),
            ln < 0x7fff_ffff,
            skip_z(s@, j as int, ln as int) == skip_z(s@, i as int, line as int),
        decreases n - j,
    {
        if s[j] == 10u8 || s[j] == 13u8 {
            match newline(s, j, ln) {
                Err(e) => return Err(e),
                Ok((q, l)) => {
                    j = q;
                    ln = l;
                },
            }
        } else {
            j = j + 1;
        }
    }
    Ok((j, ln))
}

proof fn lemma_hexval_range(c: u8)
    requires
        is_c_xdigit(c),
    ensures
        0 <= crate::lobject::spec_hexavalue(c) < 16,
{
    assert(65u8 <= c <= 70u8 ==> (c | 32u8) == c + 32) by (bit_vector);
    assert(97u8 <= c <= 102u8 ==> (c | 32u8) == c) by (bit_vector);
}

fn utf8_digits(s: &[u8], i: usize, r: u32, ds: Vec<u8>) -> (res: Result<(u32, usize, Vec<u8>), Vec<u8>>)
    requires
        i <= s@.len(),
        r <= 0x7fff_ffff,
    ensures
        match utf8_esc_digits(s@, i as int, r as int, ds@) {
            Ok((v, j, d)) => res matches Ok((v2, j2, d2)) && v2 as int == v && j2 as int == j && d2@ == d && v2 <= 0x7fff_ffff
                && j2 <= s@.len(),
            Err(d) => res matches Err(d2) && d2@ == d,
        },
{
    let n = s.len();
    let mut j = i;
    let mut v = r;
    let mut digits = ds;
    while j < n && is_xdigit_exec(s[j] as i32)
        invariant
            i <= j <= n,
            n == s@.len(),
            v <= 0x7fff_ffff,
            utf8_esc_digits(s@, j as int, v as int, digits@) == utf8_esc_digits(s@, i as int, r as int, ds@),
        decreases n - j,
    {
        let c = s[j];
        if v > 0x7ff_ffff {
            digits.push(c);
            return Err(digits);
        }
        let h = crate::lobject::hexavalue(c);
        proof {
            lemma_hexval_range(c);
        }
        let ghost v_old = v as int;
        let ghost d_old = digits@;
        v = v * 16 + h as u32;
        digits.push(c);
        proof {
            assert(cur(s@, j as int) == c as int);
            assert(hexval(c as int) == h as int);
            assert(v as int == v_old * 16 + hexval(cur(s@, j as int)));
            assert(digits@ == d_old + seq![cur(s@, j as int) as u8]);
            assert(utf8_esc_digits(s@, j as int, v_old, d_old) == utf8_esc_digits(s@, j + 1, v as int, digits@));
        }
        j = j + 1;
    }
    Ok((v, j, digits))
}

fn read_escape(s: &[u8], q: usize, line: i32) -> (r: Result<(Vec<u8>, usize, i32), (LexErrorKind, i32, EscPlace)>)
    requires
        q <= s@.len(),
        line < 0x7fff_ffff,
    ensures
        match spec_escape(s@, q as int, line as int) {
            Ok((b, i, l)) => r matches Ok((b2, i2, l2)) && b2@ == b && i2 as int == i && l2 as int == l && i2 <= s@.len()
                && l2 < 0x7fff_ffff,
            Err((k, l, place)) => r matches Err((k2, l2, p2)) && k2 == k && l2 as int == l && esc_place_view(p2) == place,
        },
{
    proof {
        lemma_escape_advances(s@, q as int, line as int);
    }
    let n = s.len();
    let e = cur_exec(s, q);
    if e < 0 {
        return Err((LexErrorKind::UnfinishedString, line, EscPlace::Eof));
    }
    let simple: i32 = if e == 97 {
        7
    } else if e == 98 {
        8
    } else if e == 102 {
        12
    } else if e == 110 {
        10
    } else if e == 114 {
        13
    } else if e == 116 {
        9
    } else if e == 118 {
        11
    } else if e == 92 || e == 34 || e == 39 {
        e
    } else {
        -1
    };
    if simple >= 0 {
        let mut b: Vec<u8> = Vec::new();
        b.push(simple as u8);
        proof {
            assert(b@ =~= seq![simple_escape(e as int)->Some_0]);
        }
        return Ok((b, q + 1, line));
    }
    if e == 120 {
        let h1 = cur_exec(s, q + 1);
        let h2 = if q + 1 < n { cur_exec(s, q + 2) } else { -1 };
        if !is_xdigit_exec(h1) {
            let mut t: Vec<u8> = Vec::new();
            t.push(120u8);
            let ob = opt_byte_exec(h1);
            t.extend_from_slice(ob.as_slice());
            proof {
                assert(t@ =~= seq![120u8] + opt_byte(h1 as int));
            }
            return Err((LexErrorKind::HexDigitExpected, line, EscPlace::After(t)));
        }
        if !is_xdigit_exec(h2) {
            let mut t: Vec<u8> = Vec::new();
            t.push(120u8);
            t.push(h1 as u8);
            let ob = opt_byte_exec(h2);
            t.extend_from_slice(ob.as_slice());
            proof {
                assert(t@ =~= seq![120u8, h1 as u8] + opt_byte(h2 as int));
            }
            return Err((LexErrorKind::HexDigitExpected, line, EscPlace::After(t)));
        }
        let v1 = crate::lobject::hexavalue(h1 as u8);
        let v2 = crate::lobject::hexavalue(h2 as u8);
        proof {
            lemma_hexval_range(h1 as u8);
            lemma_hexval_range(h2 as u8);
        }
        let mut b: Vec<u8> = Vec::new();
        b.push((v1 * 16 + v2) as u8);
        proof {
            assert(b@ =~= seq![(hexval(h1 as int) * 16 + hexval(h2 as int)) as u8]);
        }
        return Ok((b, q + 3, line));
    }
    if e == 117 {
        let b = cur_exec(s, q + 1);
        let d = if q + 1 < n { cur_exec(s, q + 2) } else { -1 };
        if b != 123 {
            let mut t: Vec<u8> = Vec::new();
            t.push(117u8);
            let ob = opt_byte_exec(b);
            t.extend_from_slice(ob.as_slice());
            proof {
                assert(t@ =~= seq![117u8] + opt_byte(b as int));
            }
            return Err((LexErrorKind::MissingOpenBrace, line, EscPlace::After(t)));
        }
        if !is_xdigit_exec(d) {
            let mut t: Vec<u8> = Vec::new();
            t.push(117u8);
            t.push(123u8);
            let ob = opt_byte_exec(d);
            t.extend_from_slice(ob.as_slice());
            proof {
                assert(t@ =~= seq![117u8, 123u8] + opt_byte(d as int));
            }
            return Err((LexErrorKind::HexDigitExpected, line, EscPlace::After(t)));
        }
        let hv = crate::lobject::hexavalue(d as u8);
        proof {
            lemma_hexval_range(d as u8);
        }
        let mut ds: Vec<u8> = Vec::new();
        ds.push(d as u8);
        match utf8_digits(s, q + 3, hv as u32, ds) {
            Err(dd) => {
                let mut t: Vec<u8> = Vec::new();
                t.push(117u8);
                t.push(123u8);
                t.extend_from_slice(dd.as_slice());
                proof {
                    assert(t@ =~= seq![117u8, 123u8] + dd@);
                }
                return Err((LexErrorKind::Utf8ValueTooLarge, line, EscPlace::After(t)));
            },
            Ok((v, i, dd)) => {
                let c = cur_exec(s, i);
                if c != 125 {
                    let mut t: Vec<u8> = Vec::new();
                    t.push(117u8);
                    t.push(123u8);
                    t.extend_from_slice(dd.as_slice());
                    let ob = opt_byte_exec(c);
                    t.extend_from_slice(ob.as_slice());
                    proof {
                        assert(t@ =~= seq![117u8, 123u8] + dd@ + opt_byte(c as int));
                    }
                    return Err((LexErrorKind::MissingCloseBrace, line, EscPlace::After(t)));
                }
                let bytes = crate::lobject::utf8esc(v);
                return Ok((bytes, i + 1, line));
            },
        }
    }
    if e == 10 || e == 13 {
        match newline(s, q, line) {
            Err(x) => return Err((x.kind, x.line, EscPlace::Nothing)),
            Ok((i, l)) => {
                let mut b: Vec<u8> = Vec::new();
                b.push(10u8);
                proof {
                    assert(b@ =~= seq![10u8]);
                }
                return Ok((b, i, l));
            },
        }
    }
    if e == 122 {
        match skip_z_exec(s, q + 1, line) {
            Err(x) => return Err((x.kind, x.line, EscPlace::Nothing)),
            Ok((i, l)) => {
                let b: Vec<u8> = Vec::new();
                proof {
                    assert(b@ =~= Seq::<u8>::empty());
                }
                return Ok((b, i, l));
            },
        }
    }
    if 48 <= e && e <= 57 {
        let d2 = cur_exec(s, q + 1);
        let d3 = if q + 1 < n { cur_exec(s, q + 2) } else { -1 };
        let (r, i): (i32, usize) = if !(48 <= d2 && d2 <= 57) {
            (e - 48, q + 1)
        } else if !(48 <= d3 && d3 <= 57) {
            ((e - 48) * 10 + (d2 - 48), q + 2)
        } else {
            ((e - 48) * 100 + (d2 - 48) * 10 + (d3 - 48), q + 3)
        };
        if r > 255 {
            let mut t: Vec<u8> = vstd::slice::slice_to_vec(&s[q..i]);
            let ob = opt_byte_exec(cur_exec(s, i));
            t.extend_from_slice(ob.as_slice());
            proof {
                assert(t@ =~= s@.subrange(q as int, i as int) + opt_byte(cur(s@, i as int)));
            }
            return Err((LexErrorKind::DecimalEscapeTooLarge, line, EscPlace::After(t)));
        }
        let mut b: Vec<u8> = Vec::new();
        b.push(r as u8);
        proof {
            assert(b@ =~= seq![r as u8]);
        }
        return Ok((b, i, line));
    }
    let mut t: Vec<u8> = Vec::new();
    t.push(e as u8);
    proof {
        assert(t@ =~= seq![e as u8]);
    }
    Err((LexErrorKind::InvalidEscape, line, EscPlace::After(t)))
}


/// Reads the string whose opening quote is at `p`.
fn read_string(s: &[u8], p: usize, line: i32) -> (r: Result<(Vec<u8>, usize, i32), LexError>)
    requires
        p < s@.len(),
        line < 0x7fff_ffff,
    ensures
        match spec_read_string(s@, p as int, line as int) {
            Ok((b, q, l)) => r matches Ok((v, q2, l2)) && v@ == b && q2 as int == q && l2 as int == l && p < q2 <= s@.len()
                && l2 < 0x7fff_ffff,
            Err(e) => r matches Err(x) && error_view(x) == e,
        },
{
    let n = s.len();
    let del = s[p];
    let mut buf: Vec<u8> = Vec::new();
    buf.push(del);
    let mut i = p + 1;
    let mut ln = line;
    proof {
        assert(buf@ =~= seq![s@[p as int]]);
    }
    loop
        invariant
            p < i <= n,
            n == s@.len(),
            ln < 0x7fff_ffff,
            del == s@[p as int],
            buf@.len() >= 1,
            str_from(s@, i as int, ln as int, del, buf@) == spec_read_string(s@, p as int, line as int),
        decreases n - i,
    {
        if i >= n {
            return Err(LexError { kind: LexErrorKind::UnfinishedString, line: ln, near: Near::Eof });
        }
        let c = s[i];
        if c == del {
            let body = vstd::slice::slice_to_vec(&buf.as_slice()[1..buf.len()]);
            proof {
                assert(body@ =~= buf@.skip(1));
            }
            return Ok((body, i + 1, ln));
        }
        if c == 10u8 || c == 13u8 {
            let near = crate::lobject::cstr_exec(buf.as_slice());
            return Err(LexError { kind: LexErrorKind::UnfinishedString, line: ln, near: Near::Text(near) });
        }
        if c == 92u8 {
            proof {
                lemma_escape_advances(s@, i as int + 1, ln as int);
            }
            match read_escape(s, i + 1, ln) {
                Ok((b, j, l)) => {
                    let ghost before = buf@;
                    buf.extend_from_slice(b.as_slice());
                    proof {
                        assert(buf@ == before + b@);
                    }
                    i = j;
                    ln = l;
                },
                Err((k, l, EscPlace::Nothing)) => {
                    return Err(LexError { kind: k, line: l, near: Near::Nothing });
                },
                Err((k, l, EscPlace::Eof)) => {
                    return Err(LexError { kind: k, line: l, near: Near::Eof });
                },
                Err((k, l, EscPlace::After(t))) => {
                    let mut all = vstd::slice::slice_to_vec(buf.as_slice());
                    all.push(92u8);
                    all.extend_from_slice(t.as_slice());
                    let near = crate::lobject::cstr_exec(all.as_slice());
                    proof {
                        assert(all@ =~= buf@ + seq![92u8] + t@);
                    }
                    return Err(LexError { kind: k, line: l, near: Near::Text(near) });
                },
            }
        } else {
            let ghost before = buf@;
            buf.push(c);
            proof {
                assert(buf@ == before + seq![cur(s@, i as int) as u8]);
            }
            i = i + 1;
        }
    }
}


// ─── Tokens ──────────────────────────────────────────────────────────────────

/// The reserved words, in the order of their token numbers.
pub open spec fn reserved_words() -> Seq<Seq<u8>> {
    seq![
        seq![97u8, 110u8, 100u8],
        seq![98u8, 114u8, 101u8, 97u8, 107u8],
        seq![100u8, 111u8],
        seq![101u8, 108u8, 115u8, 101u8],
        seq![101u8, 108u8, 115u8, 101u8, 105u8, 102u8],
        seq![101u8, 110u8, 100u8],
        seq![102u8, 97u8, 108u8, 115u8, 101u8],
        seq![102u8, 111u8, 114u8],
        seq![102u8, 117u8, 110u8, 99u8, 116u8, 105u8, 111u8, 110u8],
        seq![103u8, 111u8, 116u8, 111u8],
        seq![105u8, 102u8],
        seq![105u8, 110u8],
        seq![108u8, 111u8, 99u8, 97u8, 108u8],
        seq![110u8, 105u8, 108u8],
        seq![110u8, 111u8, 116u8],
        seq![111u8, 114u8],
        seq![114u8, 101u8, 112u8, 101u8, 97u8, 116u8],
        seq![114u8, 101u8, 116u8, 117u8, 114u8, 110u8],
        seq![116u8, 104u8, 101u8, 110u8],
        seq![116u8, 114u8, 117u8, 101u8],
        seq![117u8, 110u8, 116u8, 105u8, 108u8],
        seq![119u8, 104u8, 105u8, 108u8, 101u8],
    ]
}

/// The index of the reserved word `w` from the `k`-th on, if it is one.
pub open spec fn reserved_from(w: Seq<u8>, k: int) -> Option<int>
    decreases 22 - k,
{
    if k < 0 || k >= 22 {
        None
    } else if reserved_words()[k] == w {
        Some(k)
    } else {
        reserved_from(w, k + 1)
    }
}

pub open spec fn is_lalnum(c: int) -> bool {
    is_lalpha(c) || is_digit_at(c)
}

/// The index after the name that starts at `p`: letters, digits and `_`.
pub open spec fn name_end(s: Seq<u8>, p: int) -> int
    decreases s.len() - p,
{
    if 0 <= p < s.len() && is_lalnum(s[p] as int) {
        name_end(s, p + 1)
    } else {
        p
    }
}

/// The index of the first line break (or the end) from `i` on.
pub open spec fn line_end(s: Seq<u8>, i: int) -> int
    decreases s.len() - i,
{
    if 0 <= i < s.len() && !is_newline(s[i] as int) {
        line_end(s, i + 1)
    } else {
        i
    }
}

pub proof fn lemma_spans(s: Seq<u8>, i: int)
    requires
        0 <= i,
    ensures
        i <= name_end(s, i),
        name_end(s, i) <= s.len() || name_end(s, i) == i,
        i <= line_end(s, i),
        line_end(s, i) <= s.len() || line_end(s, i) == i,
    decreases s.len() - i,
{
    if 0 <= i < s.len() {
        lemma_spans(s, i + 1);
    }
}

pub proof fn lemma_long_from_advances(s: Seq<u8>, p: int, line: int, sep: int, start: int, is_str: bool)
    requires
        0 <= p,
        sep >= 2,
    ensures
        long_from(s, p, line, sep, start, is_str) matches Ok((b, q, l)) ==> p < q <= s.len(),
    decreases s.len() - p,
{
    if 0 <= p < s.len() {
        if s[p] == 93u8 {
            lemma_eq_run(s, p + 1);
            if spec_skip_sep(s, p) != sep {
                lemma_long_from_advances(s, eq_run(s, p + 1), line, sep, start, is_str);
            }
        } else if is_newline(s[p] as int) {
            match spec_newline(s, p, line) {
                Err(e) => {},
                Ok((p1, l1)) => {
                    lemma_long_from_advances(s, p1, l1, sep, start, is_str);
                },
            }
        } else {
            lemma_long_from_advances(s, p + 1, line, sep, start, is_str);
        }
    }
}

pub proof fn lemma_long_bracket_advances(s: Seq<u8>, p: int, line: int, sep: int, is_str: bool)
    requires
        0 <= p,
        sep >= 2,
    ensures
        spec_long_bracket(s, p, line, sep, is_str) matches Ok((b, q, l)) ==> p < q <= s.len(),
{
    let p1 = p + 1;
    if is_newline(cur(s, p1)) {
        match spec_newline(s, p1, line) {
            Err(e) => {},
            Ok((p2, l2)) => {
                lemma_long_from_advances(s, p2, l2, sep, line, is_str);
            },
        }
    } else {
        lemma_long_from_advances(s, p1, line, sep, line, is_str);
    }
}

/// The token that follows `p` (at line `line`): white space, line breaks and
/// comments are skipped first. Gives the token, the index after it and its
/// line, or the error that stops the lexer.
pub open spec fn spec_llex(s: Seq<u8>, p: int, line: int) -> Result<(TokenModel, int, int), LexErrorModel>
    decreases s.len() - p,
{
    let c = cur(s, p);
    if p < 0 || c < 0 {
        Ok((TokenModel::Eos, p, line))
    } else if is_newline(c) {
        match spec_newline(s, p, line) {
            Err(e) => Err(e),
            Ok((p2, l2)) => spec_llex(s, p2, l2),
        }
    } else if c == 32 || c == 12 || c == 9 || c == 11 {
        spec_llex(s, p + 1, line)
    } else if c == 45 {
        if cur(s, p + 1) != 45 {
            Ok((TokenModel::Single(45u8), p + 1, line))
        } else {
            let q = p + 2;
            proof {
                lemma_spans(s, q);
                lemma_eq_run(s, q + 1);
            }
            if cur(s, q) == 91 && spec_skip_sep(s, q) >= 2 {
                proof {
                    lemma_long_bracket_advances(s, eq_run(s, q + 1), line, spec_skip_sep(s, q), false);
                }
                match spec_long_bracket(s, eq_run(s, q + 1), line, spec_skip_sep(s, q), false) {
                    Err(e) => Err(e),
                    Ok((_, p3, l3)) => spec_llex(s, p3, l3),
                }
            } else if cur(s, q) == 91 {
                proof {
                    lemma_spans(s, eq_run(s, q + 1));
                }
                spec_llex(s, line_end(s, eq_run(s, q + 1)), line)
            } else {
                spec_llex(s, line_end(s, q), line)
            }
        }
    } else if c == 91 {
        let sep = spec_skip_sep(s, p);
        let q = eq_run(s, p + 1);
        if sep >= 2 {
            match spec_long_bracket(s, q, line, sep, true) {
                Ok((b, p3, l3)) => Ok((TokenModel::Str(b), p3, l3)),
                Err(e) => Err(e),
            }
        } else if sep == 0 {
            Err(fault(LexErrorKind::InvalidLongDelimiter, line, NearModel::Text(cstr(s.subrange(p, q)))))
        } else {
            Ok((TokenModel::Single(91u8), q, line))
        }
    } else if c == 61 {
        if cur(s, p + 1) == 61 {
            Ok((TokenModel::Eq, p + 2, line))
        } else {
            Ok((TokenModel::Single(61u8), p + 1, line))
        }
    } else if c == 60 {
        if cur(s, p + 1) == 61 {
            Ok((TokenModel::Le, p + 2, line))
        } else if cur(s, p + 1) == 60 {
            Ok((TokenModel::Shl, p + 2, line))
        } else {
            Ok((TokenModel::Single(60u8), p + 1, line))
        }
    } else if c == 62 {
        if cur(s, p + 1) == 61 {
            Ok((TokenModel::Ge, p + 2, line))
        } else if cur(s, p + 1) == 62 {
            Ok((TokenModel::Shr, p + 2, line))
        } else {
            Ok((TokenModel::Single(62u8), p + 1, line))
        }
    } else if c == 47 {
        if cur(s, p + 1) == 47 {
            Ok((TokenModel::IDiv, p + 2, line))
        } else {
            Ok((TokenModel::Single(47u8), p + 1, line))
        }
    } else if c == 126 {
        if cur(s, p + 1) == 61 {
            Ok((TokenModel::Ne, p + 2, line))
        } else {
            Ok((TokenModel::Single(126u8), p + 1, line))
        }
    } else if c == 58 {
        if cur(s, p + 1) == 58 {
            Ok((TokenModel::DbColon, p + 2, line))
        } else {
            Ok((TokenModel::Single(58u8), p + 1, line))
        }
    } else if c == 34 || c == 39 {
        match spec_read_string(s, p, line) {
            Ok((b, q, l)) => Ok((TokenModel::Str(b), q, l)),
            Err(e) => Err(e),
        }
    } else if c == 46 {
        if cur(s, p + 1) == 46 {
            if cur(s, p + 2) == 46 {
                Ok((TokenModel::Dots, p + 3, line))
            } else {
                Ok((TokenModel::Concat, p + 2, line))
            }
        } else if !is_digit_at(cur(s, p + 1)) {
            Ok((TokenModel::Single(46u8), p + 1, line))
        } else {
            match spec_read_numeral(s, p, p + 1, line) {
                Ok((t, q)) => Ok((t, q, line)),
                Err(e) => Err(e),
            }
        }
    } else if is_digit_at(c) {
        match spec_read_numeral(s, p, p, line) {
            Ok((t, q)) => Ok((t, q, line)),
            Err(e) => Err(e),
        }
    } else if is_lalpha(c) {
        let e = name_end(s, p);
        let w = s.subrange(p, e);
        match reserved_from(w, 0) {
            Some(k) => Ok((TokenModel::Reserved(k as u8), e, line)),
            None => Ok((TokenModel::Name(w), e, line)),
        }
    } else {
        Ok((TokenModel::Single(c as u8), p + 1, line))
    }
}


fn name_end_exec(s: &[u8], p: usize) -> (r: usize)
    requires
        p <= s@.len(),
    ensures
        r as int == name_end(s@, p as int),
        p <= r <= s@.len(),
{
    let n = s.len();
    let mut i = p;
    proof {
        lemma_spans(s@, p as int);
    }
    while i < n && ((65u8 <= s[i] && s[i] <= 90u8) || (97u8 <= s[i] && s[i] <= 122u8) || s[i] == 95u8 || (48u8 <= s[i] && s[i] <= 57u8))
        invariant
            p <= i <= n,
            n == s@.len(),
            name_end(s@, i as int) == name_end(s@, p as int),
        decreases n - i,
    {
        i = i + 1;
    }
    i
}

fn line_end_exec(s: &[u8], p: usize) -> (r: usize)
    requires
        p <= s@.len(),
    ensures
        r as int == line_end(s@, p as int),
        p <= r <= s@.len(),
{
    let n = s.len();
    let mut i = p;
    proof {
        lemma_spans(s@, p as int);
    }
    while i < n && s[i] != 10u8 && s[i] != 13u8
        invariant
            p <= i <= n,
            n == s@.len(),
            line_end(s@, i as int) == line_end(s@, p as int),
        decreases n - i,
    {
        i = i + 1;
    }
    i
}

fn reserved_index(w: &[u8]) -> (r: Option<u8>)
    ensures
        match reserved_from(w@, 0) {
            Some(k) => r == Some(k as u8) && 0 <= k < 22,
            None => r is None,
        },
{
    let words: Vec<Vec<u8>> = vec![
        vec![97u8, 110u8, 100u8],
        vec![98u8, 114u8, 101u8, 97u8, 107u8],
        vec![100u8, 111u8],
        vec![101u8, 108u8, 115u8, 101u8],
        vec![101u8, 108u8, 115u8, 101u8, 105u8, 102u8],
        vec![101u8, 110u8, 100u8],
        vec![102u8, 97u8, 108u8, 115u8, 101u8],
        vec![102u8, 111u8, 114u8],
        vec![102u8, 117u8, 110u8, 99u8, 116u8, 105u8, 111u8, 110u8],
        vec![103u8, 111u8, 116u8, 111u8],
        vec![105u8, 102u8],
        vec![105u8, 110u8],
        vec![108u8, 111u8, 99u8, 97u8, 108u8],
        vec![110u8, 105u8, 108u8],
        vec![110u8, 111u8, 116u8],
        vec![111u8, 114u8],
        vec![114u8, 101u8, 112u8, 101u8, 97u8, 116u8],
        vec![114u8, 101u8, 116u8, 117u8, 114u8, 110u8],
        vec![116u8, 104u8, 101u8, 110u8],
        vec![116u8, 114u8, 117u8, 101u8],
        vec![117u8, 110u8, 116u8, 105u8, 108u8],
        vec![119u8, 104u8, 105u8, 108u8, 101u8],
    ];
    proof {
        assert forall|j: int| 0 <= j < 22 implies #[trigger] words@[j]@ == reserved_words()[j] by {
            assert(words@[j]@ =~= reserved_words()[j]);
        }
    }
    let mut k: usize = 0;
    while k < 22
        invariant
            k <= 22,
            words@.len() == 22,
            forall|j: int| 0 <= j < 22 ==> #[trigger] words@[j]@ == reserved_words()[j],
            reserved_from(w@, k as int) == reserved_from(w@, 0),
        decreases 22 - k,
    {
        if crate::toml::bytes_eq(words[k].as_slice(), w) {
            return Some(k as u8);
        }
        k = k + 1;
    }
    None
}


/// Reads the token that follows position `p` of `s`, on line `line` (see
/// `spec_llex`): the token, the index after it and its line.
pub fn llex(s: &[u8], p: usize, line: i32) -> (r: Result<(Token, usize, i32), LexError>)
    requires
        p <= s@.len(),
        line < 0x7fff_ffff,
    ensures
        match spec_llex(s@, p as int, line as int) {
            Ok((t, q, l)) => r matches Ok((x, q2, l2)) && token_view(x) == t && q2 as int == q && l2 as int == l
                && q2 <= s@.len() && l2 < 0x7fff_ffff,
            Err(e) => r matches Err(x) && error_view(x) == e,
        },
{
    let n = s.len();
    let mut i = p;
    let mut ln = line;
    loop
        invariant
            i <= n,
            n == s@.len(),
            ln < 0x7fff_ffff,
            spec_llex(s@, i as int, ln as int) == spec_llex(s@, p as int, line as int),
        decreases n - i,
    {
        if i >= n {
            return Ok((Token::Eos, i, ln));
        }
        let c = s[i];
        if c == 10u8 || c == 13u8 {
            match newline(s, i, ln) {
                Err(e) => return Err(e),
                Ok((q, l)) => {
                    i = q;
                    ln = l;
                },
            }
        } else if c == 32u8 || c == 12u8 || c == 9u8 || c == 11u8 {
            i = i + 1;
        } else if c == 45u8 && i + 1 < n && s[i + 1] == 45u8 {
            let q = i + 2;
            proof {
                lemma_spans(s@, q as int);
                lemma_eq_run(s@, q as int + 1);
            }
            if q < n && s[q] == 91u8 {
                let (sep, q1) = skip_sep(s, q);
                if sep >= 2 {
                    proof {
                        lemma_long_bracket_advances(s@, q1 as int, ln as int, sep as int, false);
                    }
                    match read_long(s, q1, ln, sep, false) {
                        Err(e) => return Err(e),
                        Ok((_, p3, l3)) => {
                            i = p3;
                            ln = l3;
                        },
                    }
                } else {
                    i = line_end_exec(s, q1);
                }
            } else {
                i = line_end_exec(s, q);
            }
        } else {
            return lex_token(s, i, ln);
        }
    }
}

/// The token at `p`, where no white space or comment stands.
fn lex_token(s: &[u8], p: usize, line: i32) -> (r: Result<(Token, usize, i32), LexError>)
    requires
        p < s@.len(),
        line < 0x7fff_ffff,
        !is_newline(s@[p as int] as int),
        !(s@[p as int] == 32u8 || s@[p as int] == 12u8 || s@[p as int] == 9u8 || s@[p as int] == 11u8),
        !(s@[p as int] == 45u8 && cur(s@, p + 1) == 45),
    ensures
        match spec_llex(s@, p as int, line as int) {
            Ok((t, q, l)) => r matches Ok((x, q2, l2)) && token_view(x) == t && q2 as int == q && l2 as int == l
                && q2 <= s@.len() && l2 < 0x7fff_ffff,
            Err(e) => r matches Err(x) && error_view(x) == e,
        },
{
    let n = s.len();
    let c = s[p];
    let c1 = cur_exec(s, p + 1);
    if c == 45u8 {
        return Ok((Token::Single(45u8), p + 1, line));
    }
    if c == 91u8 {
        let (sep, q) = skip_sep(s, p);
        if sep >= 2 {
            match read_long(s, q, line, sep, true) {
                Ok((b, p3, l3)) => return Ok((Token::Str(b), p3, l3)),
                Err(e) => return Err(e),
            }
        } else if sep == 0 {
            let delim = &s[p..q];
            proof {
                assert(delim@ == s@.subrange(p as int, q as int));
            }
            let near = crate::lobject::cstr_exec(delim);
            return Err(LexError { kind: LexErrorKind::InvalidLongDelimiter, line, near: Near::Text(near) });
        } else {
            return Ok((Token::Single(91u8), q, line));
        }
    }
    if c == 61u8 {
        if c1 == 61 {
            return Ok((Token::Eq, p + 2, line));
        }
        return Ok((Token::Single(61u8), p + 1, line));
    }
    if c == 60u8 {
        if c1 == 61 {
            return Ok((Token::Le, p + 2, line));
        } else if c1 == 60 {
            return Ok((Token::Shl, p + 2, line));
        }
        return Ok((Token::Single(60u8), p + 1, line));
    }
    if c == 62u8 {
        if c1 == 61 {
            return Ok((Token::Ge, p + 2, line));
        } else if c1 == 62 {
            return Ok((Token::Shr, p + 2, line));
        }
        return Ok((Token::Single(62u8), p + 1, line));
    }
    if c == 47u8 {
        if c1 == 47 {
            return Ok((Token::IDiv, p + 2, line));
        }
        return Ok((Token::Single(47u8), p + 1, line));
    }
    if c == 126u8 {
        if c1 == 61 {
            return Ok((Token::Ne, p + 2, line));
        }
        return Ok((Token::Single(126u8), p + 1, line));
    }
    if c == 58u8 {
        if c1 == 58 {
            return Ok((Token::DbColon, p + 2, line));
        }
        return Ok((Token::Single(58u8), p + 1, line));
    }
    if c == 34u8 || c == 39u8 {
        match read_string(s, p, line) {
            Ok((b, q, l)) => return Ok((Token::Str(b), q, l)),
            Err(e) => return Err(e),
        }
    }
    if c == 46u8 {
        if c1 == 46 {
            if p + 2 < n && s[p + 2] == 46u8 {
                return Ok((Token::Dots, p + 3, line));
            }
            return Ok((Token::Concat, p + 2, line));
        }
        if !(48 <= c1 && c1 <= 57) {
            return Ok((Token::Single(46u8), p + 1, line));
        }
        match read_numeral(s, p, p + 1, line) {
            Ok((t, q)) => return Ok((t, q, line)),
            Err(e) => return Err(e),
        }
    }
    if 48u8 <= c && c <= 57u8 {
        match read_numeral(s, p, p, line) {
            Ok((t, q)) => return Ok((t, q, line)),
            Err(e) => return Err(e),
        }
    }
    if (65u8 <= c && c <= 90u8) || (97u8 <= c && c <= 122u8) || c == 95u8 {
        let e = name_end_exec(s, p);
        let w = &s[p..e];
        proof {
            assert(w@ == s@.subrange(p as int, e as int));
        }
        match reserved_index(w) {
            Some(k) => return Ok((Token::Reserved(k), e, line)),
            None => return Ok((Token::Name(vstd::slice::slice_to_vec(w)), e, line)),
        }
    }
    Ok((Token::Single(c), p + 1, line))
}


// ─── The lexer's state ───────────────────────────────────────────────────────

/// Where the lexer stands in a chunk: the index of the next byte to read,
/// the current line, the line of the last token taken, the current token
/// (none before the first) and a token read ahead, if any.
#[derive(Debug)]
pub struct LexState {
    pub pos: usize,
    pub line: i32,
    pub lastline: i32,
    pub current: Option<Token>,
    pub ahead: Option<Token>,
}

pub open spec fn opt_token_view(t: Option<Token>) -> Option<TokenModel> {
    match t {
        Some(x) => Some(token_view(x)),
        None => None,
    }
}

impl LexState {
    /// The state at the start of a chunk: line 1, no token yet.
    pub fn set_input() -> (r: LexState)
        ensures
            r.pos == 0,
            r.line == 1,
            r.lastline == 1,
            r.current is None,
            r.ahead is None,
    {
        LexState { pos: 0, line: 1, lastline: 1, current: None, ahead: None }
    }

    /// Moves to the next token of `s`: the one read ahead if there is one,
    /// else the one `llex` reads from the current position. The line of the
    /// token left behind becomes `lastline`.
    pub fn next(&mut self, s: &[u8]) -> (r: Result<(), LexError>)
        requires
            old(self).pos <= s@.len(),
            old(self).line < 0x7fff_ffff,
        ensures
            final(self).lastline == old(self).line,
            final(self).ahead is None,
            match old(self).ahead {
                Some(t) => r is Ok && opt_token_view(final(self).current) == Some(token_view(t))
                    && final(self).pos == old(self).pos && final(self).line == old(self).line,
                None => match spec_llex(s@, old(self).pos as int, old(self).line as int) {
                    Ok((t, q, l)) => r is Ok && opt_token_view(final(self).current) == Some(t)
                        && final(self).pos as int == q && final(self).line as int == l,
                    Err(e) => r matches Err(x) && error_view(x) == e,
                },
            },
            final(self).pos <= s@.len(),
            final(self).line < 0x7fff_ffff,
    {
        self.lastline = self.line;
        match self.ahead.take() {
            Some(t) => {
                self.current = Some(t);
                Ok(())
            },
            None => match llex(s, self.pos, self.line) {
                Ok((t, q, l)) => {
                    self.current = Some(t);
                    self.pos = q;
                    self.line = l;
                    Ok(())
                },
                Err(e) => Err(e),
            },
        }
    }

    /// Reads the token after the current one ahead of time (there must be
    /// none read ahead already).
    pub fn lookahead(&mut self, s: &[u8]) -> (r: Result<(), LexError>)
        requires
            old(self).pos <= s@.len(),
            old(self).line < 0x7fff_ffff,
            old(self).ahead is None,
        ensures
            final(self).lastline == old(self).lastline,
            match spec_llex(s@, old(self).pos as int, old(self).line as int) {
                Ok((t, q, l)) => r is Ok && opt_token_view(final(self).ahead) == Some(t)
                    && final(self).pos as int == q && final(self).line as int == l,
                Err(e) => r matches Err(x) && error_view(x) == e,
            },
            final(self).pos <= s@.len(),
            final(self).line < 0x7fff_ffff,
    {
        match llex(s, self.pos, self.line) {
            Ok((t, q, l)) => {
                self.ahead = Some(t);
                self.pos = q;
                self.line = l;
                Ok(())
            },
            Err(e) => Err(e),
        }
    }
}

// ─── Tokens in messages ──────────────────────────────────────────────────────

/// The text of the operators of two or three bytes and of the kinds of
/// token with a value.
pub open spec fn kind_text(t: TokenModel) -> Seq<u8> {
    match t {
        TokenModel::IDiv => seq![47u8, 47u8],
        TokenModel::Concat => seq![46u8, 46u8],
        TokenModel::Dots => seq![46u8, 46u8, 46u8],
        TokenModel::Eq => seq![61u8, 61u8],
        TokenModel::Ge => seq![62u8, 61u8],
        TokenModel::Le => seq![60u8, 61u8],
        TokenModel::Ne => seq![126u8, 61u8],
        TokenModel::Shl => seq![60u8, 60u8],
        TokenModel::Shr => seq![62u8, 62u8],
        TokenModel::DbColon => seq![58u8, 58u8],
        TokenModel::Eos => seq![60u8, 101u8, 111u8, 102u8, 62u8],
        TokenModel::Flt(_) => seq![60u8, 110u8, 117u8, 109u8, 98u8, 101u8, 114u8, 62u8],
        TokenModel::Int(_) => seq![60u8, 105u8, 110u8, 116u8, 101u8, 103u8, 101u8, 114u8, 62u8],
        TokenModel::Name(_) => seq![60u8, 110u8, 97u8, 109u8, 101u8, 62u8],
        TokenModel::Str(_) => seq![60u8, 115u8, 116u8, 114u8, 105u8, 110u8, 103u8, 62u8],
        _ => Seq::empty(),
    }
}

/// How a token is named in a message (`luaX_token2str`): a printable byte
/// or a reserved word or operator between quotes, any other byte as
/// `'<\N>'` with its decimal code, and `<eof>`, `<number>`, `<integer>`,
/// `<name>` and `<string>` for the kinds of token with a value.
pub open spec fn spec_token_text(t: TokenModel) -> Seq<u8> {
    match t {
        TokenModel::Single(c) => if 32 <= c <= 126 {
            seq![39u8, c, 39u8]
        } else {
            seq![39u8, 60u8, 92u8] + crate::lobject::spec_digits(c as nat) + seq![62u8, 39u8]
        },
        TokenModel::Reserved(k) => seq![39u8] + (if k < 22 { reserved_words()[k as int] } else { Seq::empty() }) + seq![39u8],
        TokenModel::Eos | TokenModel::Flt(_) | TokenModel::Int(_) | TokenModel::Name(_) | TokenModel::Str(_) => kind_text(t),
        _ => seq![39u8] + kind_text(t) + seq![39u8],
    }
}

fn quoted(b: &[u8]) -> (r: Vec<u8>)
    ensures
        r@ == seq![39u8] + b@ + seq![39u8],
{
    let mut v: Vec<u8> = Vec::new();
    v.push(39u8);
    v.extend_from_slice(b);
    v.push(39u8);
    proof {
        assert(v@ =~= seq![39u8] + b@ + seq![39u8]);
    }
    v
}

/// Names a token for a message (see `spec_token_text`).
pub fn token2str(t: &Token) -> (r: Vec<u8>)
    ensures
        r@ == spec_token_text(token_view(*t)),
{
    match t {
        Token::Single(c) => {
            let c = *c;
            if 32u8 <= c && c <= 126u8 {
                let mut v: Vec<u8> = Vec::new();
                v.push(39u8);
                v.push(c);
                v.push(39u8);
                proof {
                    assert(v@ =~= seq![39u8, c, 39u8]);
                }
                v
            } else {
                let mut v: Vec<u8> = Vec::new();
                v.push(39u8);
                v.push(60u8);
                v.push(92u8);
                crate::lobject::push_digits(c as u64, &mut v);
                v.push(62u8);
                v.push(39u8);
                proof {
                    assert(v@ =~= seq![39u8, 60u8, 92u8] + crate::lobject::spec_digits(c as nat) + seq![62u8, 39u8]);
                }
                v
            }
        },
        Token::Reserved(k) => {
            let words: Vec<Vec<u8>> = vec![
                vec![97u8, 110u8, 100u8],
                vec![98u8, 114u8, 101u8, 97u8, 107u8],
                vec![100u8, 111u8],
                vec![101u8, 108u8, 115u8, 101u8],
                vec![101u8, 108u8, 115u8, 101u8, 105u8, 102u8],
                vec![101u8, 110u8, 100u8],
                vec![102u8, 97u8, 108u8, 115u8, 101u8],
                vec![102u8, 111u8, 114u8],
                vec![102u8, 117u8, 110u8, 99u8, 116u8, 105u8, 111u8, 110u8],
                vec![103u8, 111u8, 116u8, 111u8],
                vec![105u8, 102u8],
                vec![105u8, 110u8],
                vec![108u8, 111u8, 99u8, 97u8, 108u8],
                vec![110u8, 105u8, 108u8],
                vec![110u8, 111u8, 116u8],
                vec![111u8, 114u8],
                vec![114u8, 101u8, 112u8, 101u8, 97u8, 116u8],
                vec![114u8, 101u8, 116u8, 117u8, 114u8, 110u8],
                vec![116u8, 104u8, 101u8, 110u8],
                vec![116u8, 114u8, 117u8, 101u8],
                vec![117u8, 110u8, 116u8, 105u8, 108u8],
                vec![119u8, 104u8, 105u8, 108u8, 101u8]
            ];
            proof {
                assert forall|j: int| 0 <= j < 22 implies #[trigger] words@[j]@ == reserved_words()[j] by {
                    assert(words@[j]@ =~= reserved_words()[j]);
                }
            }
            if (*k as usize) < 22 {
                quoted(words[*k as usize].as_slice())
            } else {
                let e: Vec<u8> = Vec::new();
                proof {
                    assert(e@ =~= Seq::<u8>::empty());
                }
                quoted(e.as_slice())
            }
        },
        Token::IDiv => quoted(&[47u8, 47u8]),
        Token::Concat => quoted(&[46u8, 46u8]),
        Token::Dots => quoted(&[46u8, 46u8, 46u8]),
        Token::Eq => quoted(&[61u8, 61u8]),
        Token::Ge => quoted(&[62u8, 61u8]),
        Token::Le => quoted(&[60u8, 61u8]),
        Token::Ne => quoted(&[126u8, 61u8]),
        Token::Shl => quoted(&[60u8, 60u8]),
        Token::Shr => quoted(&[62u8, 62u8]),
        Token::DbColon => quoted(&[58u8, 58u8]),
        Token::Eos => vec![60u8, 101u8, 111u8, 102u8, 62u8],
        Token::Flt(_) => vec![60u8, 110u8, 117u8, 109u8, 98u8, 101u8, 114u8, 62u8],
        Token::Int(_) => vec![60u8, 105u8, 110u8, 116u8, 101u8, 103u8, 101u8, 114u8, 62u8],
        Token::Name(_) => vec![60u8, 110u8, 97u8, 109u8, 101u8, 62u8],
        Token::Str(_) => vec![60u8, 115u8, 116u8, 114u8, 105u8, 110u8, 103u8, 62u8],
    }
}


// ─── Error messages ──────────────────────────────────────────────────────────

/// What the message says of an error.
pub open spec fn spec_lex_error_text(k: LexErrorKind) -> Seq<u8> {
    match k {
        LexErrorKind::TooManyLines => seq![99u8, 104u8, 117u8, 110u8, 107u8, 32u8, 104u8, 97u8, 115u8, 32u8, 116u8, 111u8, 111u8, 32u8, 109u8, 97u8, 110u8, 121u8, 32u8, 108u8, 105u8, 110u8, 101u8, 115u8],
        LexErrorKind::MalformedNumber => seq![109u8, 97u8, 108u8, 102u8, 111u8, 114u8, 109u8, 101u8, 100u8, 32u8, 110u8, 117u8, 109u8, 98u8, 101u8, 114u8],
        LexErrorKind::UnfinishedString => seq![117u8, 110u8, 102u8, 105u8, 110u8, 105u8, 115u8, 104u8, 101u8, 100u8, 32u8, 115u8, 116u8, 114u8, 105u8, 110u8, 103u8],
        LexErrorKind::InvalidLongDelimiter => seq![105u8, 110u8, 118u8, 97u8, 108u8, 105u8, 100u8, 32u8, 108u8, 111u8, 110u8, 103u8, 32u8, 115u8, 116u8, 114u8, 105u8, 110u8, 103u8, 32u8, 100u8, 101u8, 108u8, 105u8, 109u8, 105u8, 116u8, 101u8, 114u8],
        LexErrorKind::HexDigitExpected => seq![104u8, 101u8, 120u8, 97u8, 100u8, 101u8, 99u8, 105u8, 109u8, 97u8, 108u8, 32u8, 100u8, 105u8, 103u8, 105u8, 116u8, 32u8, 101u8, 120u8, 112u8, 101u8, 99u8, 116u8, 101u8, 100u8],
        LexErrorKind::MissingOpenBrace => seq![109u8, 105u8, 115u8, 115u8, 105u8, 110u8, 103u8, 32u8, 39u8, 123u8, 39u8],
        LexErrorKind::MissingCloseBrace => seq![109u8, 105u8, 115u8, 115u8, 105u8, 110u8, 103u8, 32u8, 39u8, 125u8, 39u8],
        LexErrorKind::Utf8ValueTooLarge => seq![85u8, 84u8, 70u8, 45u8, 56u8, 32u8, 118u8, 97u8, 108u8, 117u8, 101u8, 32u8, 116u8, 111u8, 111u8, 32u8, 108u8, 97u8, 114u8, 103u8, 101u8],
        LexErrorKind::DecimalEscapeTooLarge => seq![100u8, 101u8, 99u8, 105u8, 109u8, 97u8, 108u8, 32u8, 101u8, 115u8, 99u8, 97u8, 112u8, 101u8, 32u8, 116u8, 111u8, 111u8, 32u8, 108u8, 97u8, 114u8, 103u8, 101u8],
        LexErrorKind::InvalidEscape => seq![105u8, 110u8, 118u8, 97u8, 108u8, 105u8, 100u8, 32u8, 101u8, 115u8, 99u8, 97u8, 112u8, 101u8, 32u8, 115u8, 101u8, 113u8, 117u8, 101u8, 110u8, 99u8, 101u8],
        LexErrorKind::UnfinishedLongString(l) => seq![117u8, 110u8, 102u8, 105u8, 110u8, 105u8, 115u8, 104u8, 101u8, 100u8, 32u8, 108u8, 111u8, 110u8, 103u8, 32u8, 115u8, 116u8, 114u8, 105u8, 110u8, 103u8, 32u8, 40u8, 115u8, 116u8, 97u8, 114u8, 116u8, 105u8, 110u8, 103u8, 32u8, 97u8, 116u8, 32u8, 108u8, 105u8, 110u8, 101u8, 32u8] + crate::lobject::spec_decimal(l as int) + seq![41u8],
        LexErrorKind::UnfinishedLongComment(l) => seq![117u8, 110u8, 102u8, 105u8, 110u8, 105u8, 115u8, 104u8, 101u8, 100u8, 32u8, 108u8, 111u8, 110u8, 103u8, 32u8, 99u8, 111u8, 109u8, 109u8, 101u8, 110u8, 116u8, 32u8, 40u8, 115u8, 116u8, 97u8, 114u8, 116u8, 105u8, 110u8, 103u8, 32u8, 97u8, 116u8, 32u8, 108u8, 105u8, 110u8, 101u8, 32u8] + crate::lobject::spec_decimal(l as int) + seq![41u8],
    }
}

/// The words of the message for an error of kind `k`.
pub fn lex_error_text(k: &LexErrorKind) -> (r: Vec<u8>)
    ensures
        r@ == spec_lex_error_text(*k),
{
    match k {
        LexErrorKind::TooManyLines => {
            let t: Vec<u8> = vec![99u8, 104u8, 117u8, 110u8, 107u8, 32u8, 104u8, 97u8, 115u8, 32u8, 116u8, 111u8, 111u8, 32u8, 109u8, 97u8, 110u8, 121u8, 32u8, 108u8, 105u8, 110u8, 101u8, 115u8];
            proof { assert(t@ =~= seq![99u8, 104u8, 117u8, 110u8, 107u8, 32u8, 104u8, 97u8, 115u8, 32u8, 116u8, 111u8, 111u8, 32u8, 109u8, 97u8, 110u8, 121u8, 32u8, 108u8, 105u8, 110u8, 101u8, 115u8]); }
            t
        },
        LexErrorKind::MalformedNumber => {
            let t: Vec<u8> = vec![109u8, 97u8, 108u8, 102u8, 111u8, 114u8, 109u8, 101u8, 100u8, 32u8, 110u8, 117u8, 109u8, 98u8, 101u8, 114u8];
            proof { assert(t@ =~= seq![109u8, 97u8, 108u8, 102u8, 111u8, 114u8, 109u8, 101u8, 100u8, 32u8, 110u8, 117u8, 109u8, 98u8, 101u8, 114u8]); }
            t
        },
        LexErrorKind::UnfinishedString => {
            let t: Vec<u8> = vec![117u8, 110u8, 102u8, 105u8, 110u8, 105u8, 115u8, 104u8, 101u8, 100u8, 32u8, 115u8, 116u8, 114u8, 105u8, 110u8, 103u8];
            proof { assert(t@ =~= seq![117u8, 110u8, 102u8, 105u8, 110u8, 105u8, 115u8, 104u8, 101u8, 100u8, 32u8, 115u8, 116u8, 114u8, 105u8, 110u8, 103u8]); }
            t
        },
        LexErrorKind::InvalidLongDelimiter => {
            let t: Vec<u8> = vec![105u8, 110u8, 118u8, 97u8, 108u8, 105u8, 100u8, 32u8, 108u8, 111u8, 110u8, 103u8, 32u8, 115u8, 116u8, 114u8, 105u8, 110u8, 103u8, 32u8, 100u8, 101u8, 108u8, 105u8, 109u8, 105u8, 116u8, 101u8, 114u8];
            proof { assert(t@ =~= seq![105u8, 110u8, 118u8, 97u8, 108u8, 105u8, 100u8, 32u8, 108u8, 111u8, 110u8, 103u8, 32u8, 115u8, 116u8, 114u8, 105u8, 110u8, 103u8, 32u8, 100u8, 101u8, 108u8, 105u8, 109u8, 105u8, 116u8, 101u8, 114u8]); }
            t
        },
        LexErrorKind::HexDigitExpected => {
            let t: Vec<u8> = vec![104u8, 101u8, 120u8, 97u8, 100u8, 101u8, 99u8, 105u8, 109u8, 97u8, 108u8, 32u8, 100u8, 105u8, 103u8, 105u8, 116u8, 32u8, 101u8, 120u8, 112u8, 101u8, 99u8, 116u8, 101u8, 100u8];
            proof { assert(t@ =~= seq![104u8, 101u8, 120u8, 97u8, 100u8, 101u8, 99u8, 105u8, 109u8, 97u8, 108u8, 32u8, 100u8, 105u8, 103u8, 105u8, 116u8, 32u8, 101u8, 120u8, 112u8, 101u8, 99u8, 116u8, 101u8, 100u8]); }
            t
        },
        LexErrorKind::MissingOpenBrace => {
            let t: Vec<u8> = vec![109u8, 105u8, 115u8, 115u8, 105u8, 110u8, 103u8, 32u8, 39u8, 123u8, 39u8];
            proof { assert(t@ =~= seq![109u8, 105u8, 115u8, 115u8, 105u8, 110u8, 103u8, 32u8, 39u8, 123u8, 39u8]); }
            t
        },
        LexErrorKind::MissingCloseBrace => {
            let t: Vec<u8> = vec![109u8, 105u8, 115u8, 115u8, 105u8, 110u8, 103u8, 32u8, 39u8, 125u8, 39u8];
            proof { assert(t@ =~= seq![109u8, 105u8, 115u8, 115u8, 105u8, 110u8, 103u8, 32u8, 39u8, 125u8, 39u8]); }
            t
        },
        LexErrorKind::Utf8ValueTooLarge => {
            let t: Vec<u8> = vec![85u8, 84u8, 70u8, 45u8, 56u8, 32u8, 118u8, 97u8, 108u8, 117u8, 101u8, 32u8, 116u8, 111u8, 111u8, 32u8, 108u8, 97u8, 114u8, 103u8, 101u8];
            proof { assert(t@ =~= seq![85u8, 84u8, 70u8, 45u8, 56u8, 32u8, 118u8, 97u8, 108u8, 117u8, 101u8, 32u8, 116u8, 111u8, 111u8, 32u8, 108u8, 97u8, 114u8, 103u8, 101u8]); }
            t
        },
        LexErrorKind::DecimalEscapeTooLarge => {
            let t: Vec<u8> = vec![100u8, 101u8, 99u8, 105u8, 109u8, 97u8, 108u8, 32u8, 101u8, 115u8, 99u8, 97u8, 112u8, 101u8, 32u8, 116u8, 111u8, 111u8, 32u8, 108u8, 97u8, 114u8, 103u8, 101u8];
            proof { assert(t@ =~= seq![100u8, 101u8, 99u8, 105u8, 109u8, 97u8, 108u8, 32u8, 101u8, 115u8, 99u8, 97u8, 112u8, 101u8, 32u8, 116u8, 111u8, 111u8, 32u8, 108u8, 97u8, 114u8, 103u8, 101u8]); }
            t
        },
        LexErrorKind::InvalidEscape => {
            let t: Vec<u8> = vec![105u8, 110u8, 118u8, 97u8, 108u8, 105u8, 100u8, 32u8, 101u8, 115u8, 99u8, 97u8, 112u8, 101u8, 32u8, 115u8, 101u8, 113u8, 117u8, 101u8, 110u8, 99u8, 101u8];
            proof { assert(t@ =~= seq![105u8, 110u8, 118u8, 97u8, 108u8, 105u8, 100u8, 32u8, 101u8, 115u8, 99u8, 97u8, 112u8, 101u8, 32u8, 115u8, 101u8, 113u8, 117u8, 101u8, 110u8, 99u8, 101u8]); }
            t
        },
        LexErrorKind::UnfinishedLongString(l) => {
            let mut t: Vec<u8> = vec![117u8, 110u8, 102u8, 105u8, 110u8, 105u8, 115u8, 104u8, 101u8, 100u8, 32u8, 108u8, 111u8, 110u8, 103u8, 32u8, 115u8, 116u8, 114u8, 105u8, 110u8, 103u8, 32u8, 40u8, 115u8, 116u8, 97u8, 114u8, 116u8, 105u8, 110u8, 103u8, 32u8, 97u8, 116u8, 32u8, 108u8, 105u8, 110u8, 101u8, 32u8];
            let ghost head = t@;
            proof { assert(head =~= seq![117u8, 110u8, 102u8, 105u8, 110u8, 105u8, 115u8, 104u8, 101u8, 100u8, 32u8, 108u8, 111u8, 110u8, 103u8, 32u8, 115u8, 116u8, 114u8, 105u8, 110u8, 103u8, 32u8, 40u8, 115u8, 116u8, 97u8, 114u8, 116u8, 105u8, 110u8, 103u8, 32u8, 97u8, 116u8, 32u8, 108u8, 105u8, 110u8, 101u8, 32u8]); }
            let d = crate::lobject::integer_to_string(*l as i64);
            t.extend_from_slice(d.as_slice());
            t.push(41u8);
            proof { assert(t@ =~= head + crate::lobject::spec_decimal(*l as int) + seq![41u8]); }
            t
        },
        LexErrorKind::UnfinishedLongComment(l) => {
            let mut t: Vec<u8> = vec![117u8, 110u8, 102u8, 105u8, 110u8, 105u8, 115u8, 104u8, 101u8, 100u8, 32u8, 108u8, 111u8, 110u8, 103u8, 32u8, 99u8, 111u8, 109u8, 109u8, 101u8, 110u8, 116u8, 32u8, 40u8, 115u8, 116u8, 97u8, 114u8, 116u8, 105u8, 110u8, 103u8, 32u8, 97u8, 116u8, 32u8, 108u8, 105u8, 110u8, 101u8, 32u8];
            let ghost head = t@;
            proof { assert(head =~= seq![117u8, 110u8, 102u8, 105u8, 110u8, 105u8, 115u8, 104u8, 101u8, 100u8, 32u8, 108u8, 111u8, 110u8, 103u8, 32u8, 99u8, 111u8, 109u8, 109u8, 101u8, 110u8, 116u8, 32u8, 40u8, 115u8, 116u8, 97u8, 114u8, 116u8, 105u8, 110u8, 103u8, 32u8, 97u8, 116u8, 32u8, 108u8, 105u8, 110u8, 101u8, 32u8]); }
            let d = crate::lobject::integer_to_string(*l as i64);
            t.extend_from_slice(d.as_slice());
            t.push(41u8);
            proof { assert(t@ =~= head + crate::lobject::spec_decimal(*l as int) + seq![41u8]); }
            t
        },
    }
}

/// The full message of a lexical error in the chunk `chunkid` (as
/// `chunkid` gives it): `<chunkid>:<line>: <what>`, then ` near <eof>` or
/// ` near '<text>'` when the error names a place.
pub open spec fn spec_lex_message(chunkid: Seq<u8>, e: LexErrorModel) -> Seq<u8> {
    chunkid + seq![58u8] + crate::lobject::spec_decimal(e.line) + seq![58u8, 32u8] + spec_lex_error_text(e.kind)
        + match e.near {
            NearModel::Nothing => Seq::empty(),
            NearModel::Eof => seq![32u8, 110u8, 101u8, 97u8, 114u8, 32u8, 60u8, 101u8, 111u8, 102u8, 62u8],
            NearModel::Text(t) => seq![32u8, 110u8, 101u8, 97u8, 114u8, 32u8, 39u8] + t + seq![39u8],
        }
}

impl LexError {
    /// The message the error is raised with (see `spec_lex_message`).
    pub fn message(&self, chunkid: &[u8]) -> (r: Vec<u8>)
        ensures
            r@ == spec_lex_message(chunkid@, error_view(*self)),
    {
        let mut out: Vec<u8> = Vec::new();
        out.extend_from_slice(chunkid);
        out.push(58u8);
        let d = crate::lobject::integer_to_string(self.line as i64);
        out.extend_from_slice(d.as_slice());
        out.push(58u8);
        out.push(32u8);
        let w = lex_error_text(&self.kind);
        out.extend_from_slice(w.as_slice());
        let ghost body = out@;
        proof {
            assert(body =~= chunkid@ + seq![58u8] + crate::lobject::spec_decimal(self.line as int) + seq![58u8, 32u8]
                + spec_lex_error_text(self.kind));
        }
        match &self.near {
            Near::Nothing => {
                proof {
                    assert(out@ =~= body + Seq::<u8>::empty());
                }
            },
            Near::Eof => {
                let t: Vec<u8> = vec![32u8, 110u8, 101u8, 97u8, 114u8, 32u8, 60u8, 101u8, 111u8, 102u8, 62u8];
                out.extend_from_slice(t.as_slice());
                proof {
                    assert(out@ =~= body + seq![32u8, 110u8, 101u8, 97u8, 114u8, 32u8, 60u8, 101u8, 111u8, 102u8, 62u8]);
                }
            },
            Near::Text(x) => {
                let t: Vec<u8> = vec![32u8, 110u8, 101u8, 97u8, 114u8, 32u8, 39u8];
                out.extend_from_slice(t.as_slice());
                out.extend_from_slice(x.as_slice());
                out.push(39u8);
                proof {
                    assert(out@ =~= body + (seq![32u8, 110u8, 101u8, 97u8, 114u8, 32u8, 39u8] + x@ + seq![39u8]));
                }
            },
        }
        out
    }
}


// ─── What a short string reads as ────────────────────────────────────────────

/// Bytes that a short string closed by `del` takes as they stand: no
/// closing quote, backslash or line break among them.
pub open spec fn plain_in_string(a: Seq<u8>, del: u8) -> bool {
    forall|i: int| 0 <= i < a.len() ==> #[trigger] a[i] != del && a[i] != 92u8 && a[i] != 10u8 && a[i] != 13u8
}

pub(crate) proof fn lemma_plain_run(s: Seq<u8>, p: int, a: Seq<u8>, line: int, del: u8, buf: Seq<u8>)
    requires
        0 <= p,
        p + a.len() <= s.len(),
        s.subrange(p, p + a.len()) == a,
        plain_in_string(a, del),
    ensures
        str_from(s, p, line, del, buf) == str_from(s, p + a.len(), line, del, buf + a),
    decreases a.len(),
{
    if a.len() == 0 {
        assert(buf + a =~= buf);
    } else {
        assert(s.subrange(p, p + a.len())[0] == s[p]);
        assert(s[p] == a[0]);
        let rest = a.drop_first();
        assert(s.subrange(p + 1, p + 1 + rest.len()) =~= rest) by {
            assert forall|i: int| 0 <= i < rest.len() implies s.subrange(p + 1, p + 1 + rest.len())[i] == rest[i] by {
                assert(s.subrange(p, p + a.len())[i + 1] == s[p + 1 + i]);
            }
        }
        assert forall|i: int| 0 <= i < rest.len() implies #[trigger] rest[i] != del && rest[i] != 92u8 && rest[i] != 10u8
            && rest[i] != 13u8 by {
            assert(rest[i] == a[i + 1]);
        }
        lemma_plain_run(s, p + 1, rest, line, del, buf + seq![a[0]]);
        assert(buf + seq![a[0]] + rest =~= buf + a);
    }
}

/// A quote starts a string token: what the lexer gives at a quote is the
/// string read from it.
#[verifier::spinoff_prover]
#[verifier::rlimit(40)]
pub(crate) proof fn lemma_llex_string(s: Seq<u8>, p: int, line: int)
    requires
        0 <= p < s.len(),
        s[p] == 34u8 || s[p] == 39u8,
    ensures
        spec_llex(s, p, line) == match spec_read_string(s, p, line) {
            Ok((b, q, l)) => Ok::<(TokenModel, int, int), LexErrorModel>((TokenModel::Str(b), q, l)),
            Err(e) => Err(e),
        },
{
    assert(cur(s, p) == s[p] as int);
}

/// The string literal `del a \e b del` at `p` reads as `a`, the byte `code`
/// and `b`, ending after its closing quote.
#[verifier::spinoff_prover]
proof fn lemma_read_escaped_string(s: Seq<u8>, p: int, a: Seq<u8>, e: u8, b: Seq<u8>, del: u8, line: int)
    requires
        0 <= p,
        s.len() >= p + a.len() + b.len() + 4,
        s[p] == del,
        s.subrange(p + 1, p + 1 + a.len()) == a,
        s[p + 1 + a.len()] == 92u8,
        s[p + 2 + a.len()] == e,
        s.subrange(p + 3 + a.len(), p + 3 + a.len() + b.len()) == b,
        s[p + 3 + a.len() + b.len()] == del,
        plain_in_string(a, del),
        plain_in_string(b, del),
        del == 34u8 || del == 39u8,
        simple_escape(e as int) is Some,
    ensures
        spec_read_string(s, p, line) == Ok::<(Seq<u8>, int, int), LexErrorModel>(
            (a + seq![simple_escape(e as int)->Some_0] + b, p + a.len() + b.len() + 4, line),
        ),
{
    let code = simple_escape(e as int)->Some_0;
    let pe = p + 1 + a.len();
    lemma_plain_run(s, p + 1, a, line, del, seq![del]);
    assert(cur(s, pe) == 92);
    assert(cur(s, pe + 1) == e as int);
    assert(spec_escape(s, pe + 1, line) == Ok::<(Seq<u8>, int, int), (LexErrorKind, int, EscNear)>((seq![code], pe + 2, line)));
    let buf1 = seq![del] + a;
    let buf2 = buf1 + seq![code];
    assert(str_from(s, pe, line, del, buf1) == str_from(s, pe + 2, line, del, buf2));
    lemma_plain_run(s, pe + 2, b, line, del, buf2);
    let pd = pe + 2 + b.len();
    assert(cur(s, pd) == del as int);
    assert((buf2 + b).skip(1) =~= a + seq![code] + b);
    assert(str_from(s, pd, line, del, buf2 + b) == Ok::<(Seq<u8>, int, int), LexErrorModel>(
        ((buf2 + b).skip(1), pd + 1, line)));
    assert(spec_read_string(s, p, line) == str_from(s, p + 1, line, del, seq![del]));
}

/// Each one-letter escape of a short string stands for its control byte:
/// `\a` 7, `\b` 8, `\f` 12, `\n` 10, `\r` 13, `\t` 9 and `\v` 11, while
/// `\\`, `\"` and `\'` stand for the byte after the backslash. Lexing a
/// string literal made of any bytes `a` taken as they stand, such an
/// escape and more such bytes `b`, between matching quotes, gives the
/// string `a`, the escape's byte, `b`, and ends after the closing quote.
pub proof fn lemma_letter_escapes(pre: Seq<u8>, a: Seq<u8>, e: u8, b: Seq<u8>, post: Seq<u8>, del: u8, line: int)
    requires
        del == 34u8 || del == 39u8,
        plain_in_string(a, del),
        plain_in_string(b, del),
        e == 97u8 || e == 98u8 || e == 102u8 || e == 110u8 || e == 114u8 || e == 116u8 || e == 118u8
            || e == 92u8 || e == 34u8 || e == 39u8,
    ensures
        ({
            let s = pre + seq![del] + a + seq![92u8, e] + b + seq![del] + post;
            let code: u8 = if e == 97u8 {
                7u8
            } else if e == 98u8 {
                8u8
            } else if e == 102u8 {
                12u8
            } else if e == 110u8 {
                10u8
            } else if e == 114u8 {
                13u8
            } else if e == 116u8 {
                9u8
            } else if e == 118u8 {
                11u8
            } else {
                e
            };
            spec_llex(s, pre.len() as int, line) == Ok::<(TokenModel, int, int), LexErrorModel>(
                (TokenModel::Str(a + seq![code] + b), (pre.len() + a.len() + b.len() + 4) as int, line),
            )
        }),
{
    let s = pre + seq![del] + a + seq![92u8, e] + b + seq![del] + post;
    let p = pre.len() as int;
    let pa = p + 1;
    let pe = pa + a.len();
    let pb = pe + 2;
    let pd = pb + b.len();
    assert(s[p] == del);
    assert(s.subrange(pa, pa + a.len()) =~= a);
    assert(s.subrange(pb, pb + b.len()) =~= b);
    assert(s[pe] == 92u8);
    assert(s[pe + 1] == e);
    assert(s[pd] == del);
    lemma_read_escaped_string(s, p, a, e, b, del, line);
    lemma_llex_string(s, p, line);
}


/// The lower-case hexadecimal digit of `v` (below 16).
pub open spec fn hex_char(v: int) -> u8 {
    if v < 10 {
        (48 + v) as u8
    } else {
        (87 + v) as u8
    }
}

proof fn lemma_hex_char(v: int)
    requires
        0 <= v < 16,
    ensures
        is_xdigit_at(hex_char(v) as int),
        hexval(hex_char(v) as int) == v,
{
    let c = hex_char(v);
    if v >= 10 {
        assert(97u8 <= c <= 102u8);
        assert((c | 32u8) == c) by (bit_vector)
            requires
                97u8 <= c <= 102u8,
        ;
    }
}

/// The string literal `del a \xHH b del` at `p` reads as `a`, the byte
/// written by the two hexadecimal digits, and `b`.
#[verifier::spinoff_prover]
proof fn lemma_read_hex_string(s: Seq<u8>, p: int, a: Seq<u8>, c: u8, b: Seq<u8>, del: u8, line: int)
    requires
        0 <= p,
        s.len() >= p + a.len() + b.len() + 6,
        s[p] == del,
        del == 34u8 || del == 39u8,
        s.subrange(p + 1, p + 1 + a.len()) == a,
        s[p + 1 + a.len()] == 92u8,
        s[p + 2 + a.len()] == 120u8,
        s[p + 3 + a.len()] == hex_char(c as int / 16),
        s[p + 4 + a.len()] == hex_char(c as int % 16),
        s.subrange(p + 5 + a.len(), p + 5 + a.len() + b.len()) == b,
        s[p + 5 + a.len() + b.len()] == del,
        plain_in_string(a, del),
        plain_in_string(b, del),
    ensures
        spec_read_string(s, p, line) == Ok::<(Seq<u8>, int, int), LexErrorModel>(
            (a + seq![c] + b, p + a.len() + b.len() + 6, line),
        ),
{
    let pe = p + 1 + a.len();
    lemma_plain_run(s, p + 1, a, line, del, seq![del]);
    lemma_hex_char(c as int / 16);
    lemma_hex_char(c as int % 16);
    assert(cur(s, pe) == 92);
    assert(cur(s, pe + 1) == 120);
    assert(cur(s, pe + 2) == hex_char(c as int / 16) as int);
    assert(cur(s, pe + 3) == hex_char(c as int % 16) as int);
    assert((c as int / 16) * 16 + c as int % 16 == c);
    assert(spec_escape(s, pe + 1, line) == Ok::<(Seq<u8>, int, int), (LexErrorKind, int, EscNear)>((seq![c], pe + 4, line)));
    let buf1 = seq![del] + a;
    let buf2 = buf1 + seq![c];
    assert(str_from(s, pe, line, del, buf1) == str_from(s, pe + 4, line, del, buf2));
    lemma_plain_run(s, pe + 4, b, line, del, buf2);
    let pd = pe + 4 + b.len();
    assert(cur(s, pd) == del as int);
    assert((buf2 + b).skip(1) =~= a + seq![c] + b);
    assert(str_from(s, pd, line, del, buf2 + b) == Ok::<(Seq<u8>, int, int), LexErrorModel>(
        ((buf2 + b).skip(1), pd + 1, line)));
    assert(spec_read_string(s, p, line) == str_from(s, p + 1, line, del, seq![del]));
}

/// A `\x` escape with two hexadecimal digits stands for the byte they
/// write: lexing a string literal made of bytes `a` taken as they stand,
/// `\x` and the two digits of any byte `c`, and more such bytes `b`,
/// between matching quotes, gives the string `a`, `c`, `b`.
pub proof fn lemma_hex_escapes(pre: Seq<u8>, a: Seq<u8>, c: u8, b: Seq<u8>, post: Seq<u8>, del: u8, line: int)
    requires
        del == 34u8 || del == 39u8,
        plain_in_string(a, del),
        plain_in_string(b, del),
    ensures
        ({
            let s = pre + seq![del] + a + seq![92u8, 120u8, hex_char(c as int / 16), hex_char(c as int % 16)] + b
                + seq![del] + post;
            spec_llex(s, pre.len() as int, line) == Ok::<(TokenModel, int, int), LexErrorModel>(
                (TokenModel::Str(a + seq![c] + b), (pre.len() + a.len() + b.len() + 6) as int, line),
            )
        }),
{
    let s = pre + seq![del] + a + seq![92u8, 120u8, hex_char(c as int / 16), hex_char(c as int % 16)] + b + seq![del]
        + post;
    let p = pre.len() as int;
    let pa = p + 1;
    let pe = pa + a.len();
    let pb = pe + 4;
    let pd = pb + b.len();
    assert(s[p] == del);
    assert(s.subrange(pa, pa + a.len()) =~= a);
    assert(s.subrange(pb, pb + b.len()) =~= b);
    assert(s[pe] == 92u8);
    assert(s[pe + 1] == 120u8);
    assert(s[pe + 2] == hex_char(c as int / 16));
    assert(s[pe + 3] == hex_char(c as int % 16));
    assert(s[pd] == del);
    lemma_read_hex_string(s, p, a, c, b, del, line);
    lemma_llex_string(s, p, line);
}

} // verus!
