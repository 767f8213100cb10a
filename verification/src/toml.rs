use vstd::prelude::*;
use crate::lobject::spec_digits;
use crate::lobject::spec_decimal;

verus! {

// ─── Values ──────────────────────────────────────────────────────────────────

/// A TOML float: one of the special values, or the text of a decimal
/// literal (underscores removed) that has the syntax of a float literal.
#[derive(Debug)]
pub enum TomlFloat {
    PosInfinity,
    NegInfinity,
    NaN,
    Decimal(Vec<u8>),
}

/// A parsed TOML value. Tables keep their pairs in the order they appear.
#[derive(Debug)]
pub enum TomlValue {
    String(Vec<u8>),
    Integer(i64),
    Float(TomlFloat),
    Bool(bool),
    Array(Vec<TomlValue>),
    Table(Vec<(Vec<u8>, TomlValue)>),
}

/// The mathematical model of a `TomlFloat`.
pub enum FloatData {
    PosInfinity,
    NegInfinity,
    NaN,
    Decimal(Seq<u8>),
}

/// The mathematical model of a `TomlValue`.
pub enum TomlData {
    Str(Seq<u8>),
    Int(i64),
    Flt(FloatData),
    Bool(bool),
    Arr(Seq<TomlData>),
    Tab(Seq<(Seq<u8>, TomlData)>),
}

pub open spec fn float_view(f: TomlFloat) -> FloatData {
    match f {
        TomlFloat::PosInfinity => FloatData::PosInfinity,
        TomlFloat::NegInfinity => FloatData::NegInfinity,
        TomlFloat::NaN => FloatData::NaN,
        TomlFloat::Decimal(t) => FloatData::Decimal(t@),
    }
}

/// The model of a value: byte vectors become sequences, recursively.
pub open spec fn value_view(v: TomlValue) -> TomlData
    decreases v,
{
    match v {
        TomlValue::String(b) => TomlData::Str(b@),
        TomlValue::Integer(i) => TomlData::Int(i),
        TomlValue::Float(f) => TomlData::Flt(float_view(f)),
        TomlValue::Bool(b) => TomlData::Bool(b),
        TomlValue::Array(items) => TomlData::Arr(
            Seq::new(
                items@.len(),
                |i: int|
                    if 0 <= i < items@.len() {
                        value_view(items@[i])
                    } else {
                        TomlData::Bool(false)
                    },
            ),
        ),
        TomlValue::Table(pairs) => TomlData::Tab(pairs_view(pairs@)),
    }
}

/// The model of a list of key/value pairs.
pub open spec fn pairs_view(pairs: Seq<(Vec<u8>, TomlValue)>) -> Seq<(Seq<u8>, TomlData)>
    decreases pairs,
{
    Seq::new(
        pairs.len(),
        |i: int|
            if 0 <= i < pairs.len() {
                (pairs[i].0@, value_view(pairs[i].1))
            } else {
                (Seq::empty(), TomlData::Bool(false))
            },
    )
}

impl View for TomlValue {
    type V = TomlData;

    open spec fn view(&self) -> TomlData {
        value_view(*self)
    }
}

// ─── Errors ──────────────────────────────────────────────────────────────────

/// What went wrong while reading a document.
#[derive(Debug, Clone, Copy, PartialEq, Eq, Structural)]
pub enum TomlErrorKind {
    ExpectedGot { expected: u8, got: u8 },
    ExpectedGotEof { expected: u8 },
    InvalidKeyChar(u8),
    EofInKey,
    UnterminatedString,
    NewlineInBasicString,
    UnterminatedMultiLineString,
    InvalidEscape(u8),
    EofInEscape,
    InvalidHexDigit(u8),
    EofInUnicodeEscape,
    UnterminatedLiteralString,
    NewlineInLiteralString,
    UnterminatedMultiLineLiteralString,
    InvalidToken,
    EmptyInteger,
    UnexpectedCharInValue(u8),
    EofInValue,
    ExpectedCommaOrBracket(u8),
    EofInArray,
    ExpectedCommaOrBrace(u8),
    EofInInlineTable,
    NotArrayOfTables,
    ArrayOfTablesNotFound,
    DuplicateKey,
    EmptyKeyPath,
}

/// An error: its kind, the line it was found on (for syntax errors), and
/// the token or key it concerns (empty when there is none).
#[derive(Debug)]
pub struct TomlError {
    pub kind: TomlErrorKind,
    pub line: Option<usize>,
    pub text: Vec<u8>,
}

/// The model of a `TomlError`.
pub struct ErrModel {
    pub kind: TomlErrorKind,
    pub line: Option<int>,
    pub text: Seq<u8>,
}

impl View for TomlError {
    type V = ErrModel;

    open spec fn view(&self) -> ErrModel {
        ErrModel {
            kind: self.kind,
            line: match self.line {
                Some(l) => Some(l as int),
                None => None,
            },
            text: self.text@,
        }
    }
}

// ─── Positions and lines ─────────────────────────────────────────────────────

/// The number of newlines among the first `p` bytes of `s`.
pub open spec fn nl_count(s: Seq<u8>, p: int) -> int
    decreases p,
{
    if p <= 0 {
        0
    } else {
        nl_count(s, p - 1) + (if s[p - 1] == 10u8 { 1int } else { 0int })
    }
}

/// The line (counted from 1) on which position `p` of `s` lies.
pub open spec fn line_at(s: Seq<u8>, p: int) -> int {
    1 + nl_count(s, p)
}

pub proof fn lemma_nl_count_bound(s: Seq<u8>, p: int)
    requires
        0 <= p,
    ensures
        0 <= nl_count(s, p) <= p,
    decreases p,
{
    if p > 0 {
        lemma_nl_count_bound(s, p - 1);
    }
}

/// The byte at `p`, if any.
pub open spec fn at(s: Seq<u8>, p: int) -> Option<u8> {
    if 0 <= p < s.len() {
        Some(s[p])
    } else {
        None
    }
}

/// A syntax error of kind `k` found when the reader stood at `p`.
pub open spec fn serr(s: Seq<u8>, k: TomlErrorKind, p: int) -> ErrModel {
    ErrModel { kind: k, line: Some(line_at(s, p)), text: Seq::empty() }
}

/// A syntax error that concerns the token `t`.
pub open spec fn serr_text(s: Seq<u8>, k: TomlErrorKind, p: int, t: Seq<u8>) -> ErrModel {
    ErrModel { kind: k, line: Some(line_at(s, p)), text: t }
}

/// The position after reading one byte at `p` (none is read at the end).
pub open spec fn step(s: Seq<u8>, p: int) -> int {
    if at(s, p) is Some {
        p + 1
    } else {
        p
    }
}

/// Relates an outcome to its model: the value and final position on
/// success, the error otherwise.
pub open spec fn bytes_outcome(
    r: Result<Vec<u8>, TomlError>,
    m: Result<(Seq<u8>, int), ErrModel>,
    pos: int,
) -> bool {
    match (r, m) {
        (Ok(x), Ok((v, q))) => x@ == v && pos == q,
        (Err(x), Err(e)) => x@ == e,
        _ => false,
    }
}

pub open spec fn unit_outcome(r: Result<(), TomlError>, m: Result<int, ErrModel>, pos: int) -> bool {
    match (r, m) {
        (Ok(_), Ok(q)) => pos == q,
        (Err(x), Err(e)) => x@ == e,
        _ => false,
    }
}

// ─── Byte classes ────────────────────────────────────────────────────────────

/// Space, tab or carriage return.
pub open spec fn is_blank(b: u8) -> bool {
    b == 32u8 || b == 9u8 || b == 13u8
}

pub open spec fn is_digit(b: u8) -> bool {
    48u8 <= b <= 57u8
}

pub open spec fn is_alpha(b: u8) -> bool {
    (65u8 <= b <= 90u8) || (97u8 <= b <= 122u8)
}

pub open spec fn is_hex(b: u8) -> bool {
    is_digit(b) || (65u8 <= b <= 70u8) || (97u8 <= b <= 102u8)
}

/// A byte allowed in a bare key: ASCII letter or digit, `-` or `_`.
pub open spec fn spec_bare_key_char(b: u8) -> bool {
    is_alpha(b) || is_digit(b) || b == 45u8 || b == 95u8
}

/// The value of a hexadecimal digit; 0 for any other byte.
pub open spec fn spec_hex_digit(b: u8) -> u8 {
    if is_digit(b) {
        (b - 48) as u8
    } else if 97u8 <= b <= 102u8 {
        (b - 97 + 10) as u8
    } else if 65u8 <= b <= 70u8 {
        (b - 65 + 10) as u8
    } else {
        0
    }
}

/// Tells whether `b` may appear in a bare key.
pub fn is_bare_key_char(b: u8) -> (r: bool)
    ensures
        r == spec_bare_key_char(b),
{
    (65u8 <= b && b <= 90u8) || (97u8 <= b && b <= 122u8) || (48u8 <= b && b <= 57u8) || b == 45u8
        || b == 95u8
}

/// The value of a hexadecimal digit (0 for a byte that is not one).
pub fn hex_digit(b: u8) -> (r: u8)
    ensures
        r == spec_hex_digit(b),
        is_hex(b) ==> r < 16,
{
    if 48u8 <= b && b <= 57u8 {
        b - 48
    } else if 97u8 <= b && b <= 102u8 {
        b - 97 + 10
    } else if 65u8 <= b && b <= 70u8 {
        b - 65 + 10
    } else {
        0
    }
}

/// The UTF-8 style encoding of `cp` used for `\u` and `\U` escapes: one
/// byte below 0x80, two below 0x800, three below 0x10000, else four.
pub open spec fn spec_encode_utf8(cp: u32) -> Seq<u8> {
    if cp < 0x80 {
        seq![cp as u8]
    } else if cp < 0x800 {
        seq![(0xC0u8 | ((cp >> 6u32) as u8)) as u8, (0x80u8 | ((cp & 0x3Fu32) as u8)) as u8]
    } else if cp < 0x10000 {
        seq![
            (0xE0u8 | ((cp >> 12u32) as u8)) as u8,
            (0x80u8 | (((cp >> 6u32) & 0x3Fu32) as u8)) as u8,
            (0x80u8 | ((cp & 0x3Fu32) as u8)) as u8,
        ]
    } else {
        seq![
            (0xF0u8 | ((cp >> 18u32) as u8)) as u8,
            (0x80u8 | (((cp >> 12u32) & 0x3Fu32) as u8)) as u8,
            (0x80u8 | (((cp >> 6u32) & 0x3Fu32) as u8)) as u8,
            (0x80u8 | ((cp & 0x3Fu32) as u8)) as u8,
        ]
    }
}

/// Encodes a code point as the bytes that a `\u` or `\U` escape stands for.
pub fn encode_utf8(cp: u32) -> (r: Vec<u8>)
    ensures
        r@ == spec_encode_utf8(cp),
{
    let mut buf: Vec<u8> = Vec::new();
    if cp < 0x80 {
        buf.push(cp as u8);
    } else if cp < 0x800 {
        buf.push(0xC0u8 | ((cp >> 6u32) as u8));
        buf.push(0x80u8 | ((cp & 0x3Fu32) as u8));
    } else if cp < 0x10000 {
        buf.push(0xE0u8 | ((cp >> 12u32) as u8));
        buf.push(0x80u8 | (((cp >> 6u32) & 0x3Fu32) as u8));
        buf.push(0x80u8 | ((cp & 0x3Fu32) as u8));
    } else {
        buf.push(0xF0u8 | ((cp >> 18u32) as u8));
        buf.push(0x80u8 | (((cp >> 12u32) & 0x3Fu32) as u8));
        buf.push(0x80u8 | (((cp >> 6u32) & 0x3Fu32) as u8));
        buf.push(0x80u8 | ((cp & 0x3Fu32) as u8));
    }
    proof {
        assert(buf@ =~= spec_encode_utf8(cp));
    }
    buf
}

// ─── Scanning runs ───────────────────────────────────────────────────────────

/// The end of the run of blanks that starts at `p`.
pub open spec fn blank_end(s: Seq<u8>, p: int) -> int
    decreases s.len() - p,
{
    if 0 <= p < s.len() && is_blank(s[p]) {
        blank_end(s, p + 1)
    } else {
        p
    }
}

/// Where reading a comment that starts at `p` stops: after the first
/// newline, or at the end.
pub open spec fn comment_end(s: Seq<u8>, p: int) -> int
    decreases s.len() - p,
{
    if 0 <= p < s.len() {
        if s[p] == 10u8 {
            p + 1
        } else {
            comment_end(s, p + 1)
        }
    } else {
        p
    }
}

pub proof fn lemma_comment_end(s: Seq<u8>, p: int)
    requires
        0 <= p <= s.len(),
    ensures
        p <= comment_end(s, p) <= s.len(),
        p < s.len() ==> p < comment_end(s, p),
    decreases s.len() - p,
{
    if p < s.len() && s[p] != 10u8 {
        lemma_comment_end(s, p + 1);
    }
}

pub proof fn lemma_blank_end(s: Seq<u8>, p: int)
    requires
        0 <= p <= s.len(),
    ensures
        p <= blank_end(s, p) <= s.len(),
    decreases s.len() - p,
{
    if p < s.len() && is_blank(s[p]) {
        lemma_blank_end(s, p + 1);
    }
}

/// Where skipping blanks, newlines and comments from `p` stops.
pub open spec fn space_end(s: Seq<u8>, p: int) -> int
    decreases s.len() - p,
{
    if 0 <= p < s.len() {
        if is_blank(s[p]) || s[p] == 10u8 {
            space_end(s, p + 1)
        } else if s[p] == 35u8 {
            let q = comment_end(s, p);
            if q <= p || q > s.len() {
                p
            } else {
                space_end(s, q)
            }
        } else {
            p
        }
    } else {
        p
    }
}

pub proof fn lemma_space_end(s: Seq<u8>, p: int)
    requires
        0 <= p <= s.len(),
    ensures
        p <= space_end(s, p) <= s.len(),
    decreases s.len() - p,
{
    if p < s.len() {
        if is_blank(s[p]) || s[p] == 10u8 {
            lemma_space_end(s, p + 1);
        } else if s[p] == 35u8 {
            lemma_comment_end(s, p);
            lemma_space_end(s, comment_end(s, p));
        }
    }
}

// ─── The reader ──────────────────────────────────────────────────────────────

/// A reader over TOML source text: the text, the position reached, and the
/// line of that position.
pub struct Parser<'a> {
    pub src: &'a [u8],
    pub pos: usize,
    pub line: usize,
}

impl<'a> Parser<'a> {
    /// The position lies in the text and `line` is the line it is on.
    pub open spec fn wf(&self) -> bool {
        &&& self.pos <= self.src@.len()
        &&& self.src@.len() < usize::MAX
        &&& self.line == line_at(self.src@, self.pos as int)
    }

    /// A reader at the start of `src`, on line 1.
    pub fn new(src: &'a [u8]) -> (r: Parser<'a>)
        requires
            src@.len() < usize::MAX,
        ensures
            r.wf(),
            r.src@ == src@,
            r.pos == 0,
            r.line == 1,
    {
        Parser { src, pos: 0, line: 1 }
    }

    /// The byte at the current position, if any.
    pub fn peek(&self) -> (r: Option<u8>)
        ensures
            r == at(self.src@, self.pos as int),
    {
        if self.pos < self.src.len() {
            Some(self.src[self.pos])
        } else {
            None
        }
    }

    /// The byte after the current one, if any.
    pub fn peek2(&self) -> (r: Option<u8>)
        requires
            self.wf(),
        ensures
            r == at(self.src@, self.pos + 1),
    {
        if self.pos + 1 < self.src.len() {
            Some(self.src[self.pos + 1])
        } else {
            None
        }
    }

    /// The byte `k` places ahead of the current one, if any.
    fn peek_at(&self, k: usize) -> (r: Option<u8>)
        requires
            self.wf(),
            k <= 2,
        ensures
            r == at(self.src@, self.pos + k),
    {
        if k < self.src.len() - self.pos {
            Some(self.src[self.pos + k])
        } else {
            None
        }
    }

    /// Reads one byte, counting the line it ends.
    pub fn advance(&mut self) -> (r: Option<u8>)
        requires
            old(self).wf(),
        ensures
            final(self).wf(),
            final(self).src == old(self).src,
            r == at(old(self).src@, old(self).pos as int),
            final(self).pos == step(old(self).src@, old(self).pos as int),
    {
        if self.pos < self.src.len() {
            let b = self.src[self.pos];
            proof {
                lemma_nl_count_bound(self.src@, self.pos + 1);
            }
            self.pos = self.pos + 1;
            if b == 10u8 {
                self.line = self.line + 1;
            }
            Some(b)
        } else {
            None
        }
    }

    /// Skips spaces, tabs and carriage returns.
    pub fn skip_whitespace(&mut self)
        requires
            old(self).wf(),
        ensures
            final(self).wf(),
            final(self).src == old(self).src,
            final(self).pos == blank_end(old(self).src@, old(self).pos as int),
            old(self).pos <= final(self).pos,
    {
        while self.pos < self.src.len() && (self.src[self.pos] == 32u8 || self.src[self.pos] == 9u8
            || self.src[self.pos] == 13u8)
            invariant
                self.wf(),
                self.src == old(self).src,
                blank_end(self.src@, self.pos as int) == blank_end(
                    old(self).src@,
                    old(self).pos as int,
                ),
                old(self).pos <= self.pos,
            decreases self.src@.len() - self.pos,
        {
            self.advance();
        }
    }

    /// Skips the rest of a comment, through the newline that ends it.
    pub fn skip_comment(&mut self)
        requires
            old(self).wf(),
        ensures
            final(self).wf(),
            final(self).src == old(self).src,
            final(self).pos == comment_end(old(self).src@, old(self).pos as int),
            old(self).pos <= final(self).pos,
    {
        while self.pos < self.src.len()
            invariant
                self.wf(),
                self.src == old(self).src,
                comment_end(self.src@, self.pos as int) == comment_end(
                    old(self).src@,
                    old(self).pos as int,
                ),
                old(self).pos <= self.pos,
            decreases self.src@.len() - self.pos,
        {
            let b = self.advance();
            if b == Some(10u8) {
                return;
            }
        }
    }

    /// Skips blanks, newlines and comments.
    pub fn skip_whitespace_and_newlines(&mut self)
        requires
            old(self).wf(),
        ensures
            final(self).wf(),
            final(self).src == old(self).src,
            final(self).pos == space_end(old(self).src@, old(self).pos as int),
            old(self).pos <= final(self).pos,
    {
        loop
            invariant
                self.wf(),
                self.src == old(self).src,
                space_end(self.src@, self.pos as int) == space_end(
                    old(self).src@,
                    old(self).pos as int,
                ),
                old(self).pos <= self.pos,
            ensures
                self.wf(),
                self.src == old(self).src,
                self.pos == space_end(old(self).src@, old(self).pos as int),
                old(self).pos <= self.pos,
            decreases self.src@.len() - self.pos,
        {
            match self.peek() {
                Some(b) => {
                    if b == 32u8 || b == 9u8 || b == 13u8 || b == 10u8 {
                        self.advance();
                    } else if b == 35u8 {
                        proof {
                            lemma_comment_end(self.src@, self.pos as int);
                        }
                        self.skip_comment();
                    } else {
                        return;
                    }
                },
                None => {
                    return;
                },
            }
        }
    }

    /// Reads one byte and requires it to be `expected`.
    pub fn expect(&mut self, expected: u8) -> (r: Result<(), TomlError>)
        requires
            old(self).wf(),
        ensures
            final(self).wf(),
            final(self).src == old(self).src,
            final(self).pos == step(old(self).src@, old(self).pos as int),
            unit_outcome(r, spec_expect(old(self).src@, old(self).pos as int, expected), final(self).pos as int),
    {
        match self.advance() {
            Some(b) => {
                if b == expected {
                    Ok(())
                } else {
                    Err(TomlError {
                        kind: TomlErrorKind::ExpectedGot { expected, got: b },
                        line: Some(self.line),
                        text: Vec::new(),
                    })
                }
            },
            None => Err(
                TomlError {
                    kind: TomlErrorKind::ExpectedGotEof { expected },
                    line: Some(self.line),
                    text: Vec::new(),
                },
            ),
        }
    }
}

/// Reading `expected` at `p`: the position after it, or the error.
pub open spec fn spec_expect(s: Seq<u8>, p: int, expected: u8) -> Result<int, ErrModel> {
    match at(s, p) {
        Some(b) => if b == expected {
            Ok(p + 1)
        } else {
            Err(serr(s, TomlErrorKind::ExpectedGot { expected, got: b }, p + 1))
        },
        None => Err(serr(s, TomlErrorKind::ExpectedGotEof { expected }, p)),
    }
}


/// A value that no reachable step produces: the models below return it only
/// where a step would fail to move forward, which the readers exclude.
pub open spec fn stuck() -> ErrModel {
    ErrModel { kind: TomlErrorKind::EofInValue, line: None, text: Seq::empty() }
}

/// Reading `k` more hexadecimal digits at `p`, with `acc` the value so far.
pub open spec fn spec_hex_run(s: Seq<u8>, p: int, k: nat, acc: int) -> Result<(int, int), ErrModel>
    decreases k,
{
    if k == 0 {
        Ok((acc, p))
    } else {
        match at(s, p) {
            None => Err(serr(s, TomlErrorKind::EofInUnicodeEscape, p)),
            Some(b) => if is_hex(b) {
                spec_hex_run(s, p + 1, (k - 1) as nat, acc * 16 + spec_hex_digit(b))
            } else {
                Err(serr(s, TomlErrorKind::InvalidHexDigit(b), p + 1))
            },
        }
    }
}

pub proof fn lemma_hex_run(s: Seq<u8>, p: int, k: nat, acc: int, bound: int)
    requires
        0 <= acc < bound,
        bound > 0,
    ensures
        spec_hex_run(s, p, k, acc) matches Ok((v, q)) ==> 0 <= v < bound * pow16(k) && q == p + k,
    decreases k,
{
    if k > 0 {
        if let Some(b) = at(s, p) {
            if is_hex(b) {
                assert(0 <= acc * 16 + spec_hex_digit(b) < bound * 16) by (nonlinear_arith)
                    requires 0 <= acc < bound, spec_hex_digit(b) < 16;
                lemma_hex_run(s, p + 1, (k - 1) as nat, acc * 16 + spec_hex_digit(b), bound * 16);
                assert(bound * 16 * pow16((k - 1) as nat) == bound * pow16(k)) by (nonlinear_arith)
                    requires pow16(k) == 16 * pow16((k - 1) as nat);
            }
        }
    }
}

/// 16 to the power `k`.
pub open spec fn pow16(k: nat) -> int
    decreases k,
{
    if k == 0 {
        1
    } else {
        16 * pow16((k - 1) as nat)
    }
}

pub proof fn lemma_pow16_mono(i: nat, j: nat)
    requires
        i <= j,
    ensures
        1 <= pow16(i) <= pow16(j),
        pow16(4) == 65536,
    decreases j,
{
    reveal_with_fuel(pow16, 5);
    if i < j {
        lemma_pow16_mono(i, (j - 1) as nat);
    } else if j > 0 {
        lemma_pow16_mono((j - 1) as nat, (j - 1) as nat);
    }
}

/// The model of a `\u`-style escape body: four hexadecimal digits.
pub open spec fn spec_hex4(s: Seq<u8>, p: int) -> Result<(int, int), ErrModel> {
    spec_hex_run(s, p, 4, 0)
}

/// Reading an escape at `p` (just after the backslash): the bytes it
/// stands for and the position after it.
pub open spec fn spec_escape(s: Seq<u8>, p: int) -> Result<(Seq<u8>, int), ErrModel> {
    match at(s, p) {
        None => Err(serr(s, TomlErrorKind::EofInEscape, p)),
        Some(b) => {
            let q = p + 1;
            if b == 98u8 {
                Ok((seq![8u8], q))
            } else if b == 116u8 {
                Ok((seq![9u8], q))
            } else if b == 110u8 {
                Ok((seq![10u8], q))
            } else if b == 102u8 {
                Ok((seq![12u8], q))
            } else if b == 114u8 {
                Ok((seq![13u8], q))
            } else if b == 34u8 {
                Ok((seq![34u8], q))
            } else if b == 92u8 {
                Ok((seq![92u8], q))
            } else if b == 117u8 {
                match spec_hex4(s, q) {
                    Ok((v, q2)) => Ok((spec_encode_utf8(v as u32), q2)),
                    Err(e) => Err(e),
                }
            } else if b == 85u8 {
                match spec_hex4(s, q) {
                    Ok((hi, q2)) => match spec_hex4(s, q2) {
                        Ok((lo, q3)) => Ok((spec_encode_utf8((hi * 65536 + lo) as u32), q3)),
                        Err(e) => Err(e),
                    },
                    Err(e) => Err(e),
                }
            } else {
                Err(serr(s, TomlErrorKind::InvalidEscape(b), q))
            }
        },
    }
}

/// Reading the body of a basic string at `p`, with `acc` read so far.
pub open spec fn spec_basic_body(s: Seq<u8>, p: int, acc: Seq<u8>) -> Result<(Seq<u8>, int), ErrModel>
    decreases s.len() - p,
{
    match at(s, p) {
        None => Err(serr(s, TomlErrorKind::UnterminatedString, p)),
        Some(b) => {
            let q = p + 1;
            if b == 34u8 {
                Ok((acc, q))
            } else if b == 92u8 {
                match spec_escape(s, q) {
                    Ok((e, q2)) => if q2 <= p || q2 > s.len() {
                        Err(stuck())
                    } else {
                        spec_basic_body(s, q2, acc + e)
                    },
                    Err(x) => Err(x),
                }
            } else if b == 10u8 || b == 13u8 {
                Err(serr(s, TomlErrorKind::NewlineInBasicString, q))
            } else {
                spec_basic_body(s, q, acc.push(b))
            }
        },
    }
}

/// Newline, carriage return, space or tab.
pub open spec fn is_line_space(b: u8) -> bool {
    b == 10u8 || b == 13u8 || b == 32u8 || b == 9u8
}

/// The end of the run of newlines, carriage returns, spaces and tabs at `p`.
pub open spec fn line_space_end(s: Seq<u8>, p: int) -> int
    decreases s.len() - p,
{
    if 0 <= p < s.len() && is_line_space(s[p]) {
        line_space_end(s, p + 1)
    } else {
        p
    }
}

/// After a closing `"""` at `q`: up to two more quotes belong to the string
/// when it is empty so far, one when it is not.
pub open spec fn spec_ml_close(s: Seq<u8>, q: int, acc: Seq<u8>) -> (Seq<u8>, int) {
    if at(s, q) == Some(34u8) {
        let a2 = acc.push(34u8);
        if a2.len() >= 2 {
            (a2, q + 1)
        } else if at(s, q + 1) == Some(34u8) {
            (a2.push(34u8), q + 2)
        } else {
            (a2, q + 1)
        }
    } else {
        (acc, q)
    }
}

/// Three quote bytes `c` at `p`.
pub open spec fn triple_at(s: Seq<u8>, p: int, c: u8) -> bool {
    at(s, p) == Some(c) && at(s, p + 1) == Some(c) && at(s, p + 2) == Some(c)
}

/// Reading the body of a multi-line basic string at `p`.
pub open spec fn spec_ml_basic_body(s: Seq<u8>, p: int, acc: Seq<u8>) -> Result<(Seq<u8>, int), ErrModel>
    decreases s.len() - p,
{
    if triple_at(s, p, 34u8) {
        Ok(spec_ml_close(s, p + 3, acc))
    } else {
        match at(s, p) {
            None => Err(serr(s, TomlErrorKind::UnterminatedMultiLineString, p)),
            Some(b) => {
                let q = p + 1;
                if b == 92u8 {
                    if at(s, q) is Some && is_line_space(s[q]) {
                        let q2 = line_space_end(s, q);
                        if q2 <= p || q2 > s.len() {
                            Err(stuck())
                        } else {
                            spec_ml_basic_body(s, q2, acc)
                        }
                    } else {
                        match spec_escape(s, q) {
                            Ok((e, q2)) => if q2 <= p || q2 > s.len() {
                                Err(stuck())
                            } else {
                                spec_ml_basic_body(s, q2, acc + e)
                            },
                            Err(x) => Err(x),
                        }
                    }
                } else {
                    spec_ml_basic_body(s, q, acc.push(b))
                }
            },
        }
    }
}

/// Reading a basic string (single- or multi-line) whose quote is at `p`.
pub open spec fn spec_basic_string(s: Seq<u8>, p: int) -> Result<(Seq<u8>, int), ErrModel> {
    match spec_expect(s, p, 34u8) {
        Err(e) => Err(e),
        Ok(q) => if at(s, q) == Some(34u8) && at(s, q + 1) == Some(34u8) {
            let q2 = q + 2;
            let q3 = if at(s, q2) == Some(10u8) {
                q2 + 1
            } else if at(s, q2) == Some(13u8) && at(s, q2 + 1) == Some(10u8) {
                q2 + 2
            } else {
                q2
            };
            spec_ml_basic_body(s, q3, Seq::empty())
        } else {
            spec_basic_body(s, q, Seq::empty())
        },
    }
}

/// Reading the body of a literal string at `p`.
pub open spec fn spec_literal_body(s: Seq<u8>, p: int, acc: Seq<u8>) -> Result<(Seq<u8>, int), ErrModel>
    decreases s.len() - p,
{
    match at(s, p) {
        None => Err(serr(s, TomlErrorKind::UnterminatedLiteralString, p)),
        Some(b) => {
            let q = p + 1;
            if b == 39u8 {
                Ok((acc, q))
            } else if b == 10u8 || b == 13u8 {
                Err(serr(s, TomlErrorKind::NewlineInLiteralString, q))
            } else {
                spec_literal_body(s, q, acc.push(b))
            }
        },
    }
}

/// Reading the body of a multi-line literal string at `p`.
pub open spec fn spec_ml_literal_body(s: Seq<u8>, p: int, acc: Seq<u8>) -> Result<(Seq<u8>, int), ErrModel>
    decreases s.len() - p,
{
    if triple_at(s, p, 39u8) {
        Ok((acc, p + 3))
    } else {
        match at(s, p) {
            None => Err(serr(s, TomlErrorKind::UnterminatedMultiLineLiteralString, p)),
            Some(b) => spec_ml_literal_body(s, p + 1, acc.push(b)),
        }
    }
}

/// Reading a literal string (single- or multi-line) whose quote is at `p`.
pub open spec fn spec_literal_string(s: Seq<u8>, p: int) -> Result<(Seq<u8>, int), ErrModel> {
    match spec_expect(s, p, 39u8) {
        Err(e) => Err(e),
        Ok(q) => if at(s, q) == Some(39u8) && at(s, q + 1) == Some(39u8) {
            let q2 = q + 2;
            let q3 = if at(s, q2) == Some(10u8) { q2 + 1 } else { q2 };
            spec_ml_literal_body(s, q3, Seq::empty())
        } else {
            spec_literal_body(s, q, Seq::empty())
        },
    }
}

/// A vector holding the single byte `b`.
pub fn one_byte(b: u8) -> (r: Vec<u8>)
    ensures
        r@ == seq![b],
{
    let mut v: Vec<u8> = Vec::new();
    v.push(b);
    proof {
        assert(v@ =~= seq![b]);
    }
    v
}

impl<'a> Parser<'a> {
    /// The reader stays on the same text, well formed, and has not moved
    /// backwards from `old`.
    pub open spec fn moved_on(&self, old: Parser<'a>) -> bool {
        &&& self.wf()
        &&& self.src == old.src
        &&& old.pos <= self.pos
    }

    /// A syntax error of kind `kind` at the current line.
    fn error_here(&self, kind: TomlErrorKind) -> (r: TomlError)
        requires
            self.wf(),
        ensures
            r@ == serr(self.src@, kind, self.pos as int),
    {
        TomlError { kind, line: Some(self.line), text: Vec::new() }
    }

    /// Reads the four hexadecimal digits of a `\u` escape.
    pub fn parse_hex4(&mut self) -> (r: Result<u16, TomlError>)
        requires
            old(self).wf(),
        ensures
            final(self).moved_on(*old(self)),
            match (r, spec_hex4(old(self).src@, old(self).pos as int)) {
                (Ok(x), Ok((v, q))) => x as int == v && final(self).pos == q,
                (Err(x), Err(e)) => x@ == e,
                _ => false,
            },
    {
        let ghost s = self.src@;
        let ghost p0 = self.pos as int;
        let mut val: u32 = 0;
        let mut i: usize = 0;
        while i < 4
            invariant
                self.moved_on(*old(self)),
                s == self.src@,
                p0 == old(self).pos,
                i <= 4,
                self.pos == p0 + i,
                val < pow16(i as nat),
                spec_hex4(s, p0) == spec_hex_run(s, self.pos as int, (4 - i) as nat, val as int),
            decreases 4 - i,
        {
            proof {
                lemma_pow16_mono(i as nat, 4);
            }
            match self.advance() {
                Some(b) => {
                    if (48u8 <= b && b <= 57u8) || (65u8 <= b && b <= 70u8) || (97u8 <= b && b <= 102u8) {
                        let d = hex_digit(b);
                        proof {
                            assert(val * 16 + d < pow16((i + 1) as nat)) by (nonlinear_arith)
                                requires val < pow16(i as nat), d < 16,
                                    pow16((i + 1) as nat) == 16 * pow16(i as nat);
                        }
                        val = val * 16 + d as u32;
                    } else {
                        return Err(self.error_here(TomlErrorKind::InvalidHexDigit(b)));
                    }
                },
                None => {
                    return Err(self.error_here(TomlErrorKind::EofInUnicodeEscape));
                },
            }
            i = i + 1;
        }
        proof {
            lemma_pow16_mono(4, 4);
        }
        Ok(val as u16)
    }

    /// Reads an escape sequence (after its backslash).
    pub fn parse_escape(&mut self) -> (r: Result<Vec<u8>, TomlError>)
        requires
            old(self).wf(),
        ensures
            final(self).moved_on(*old(self)),
            bytes_outcome(r, spec_escape(old(self).src@, old(self).pos as int), final(self).pos as int),
            r is Ok ==> old(self).pos < final(self).pos,
    {
        match self.advance() {
            Some(b) => {
                if b == 98u8 {
                    Ok(one_byte(8u8))
                } else if b == 116u8 {
                    Ok(one_byte(9u8))
                } else if b == 110u8 {
                    Ok(one_byte(10u8))
                } else if b == 102u8 {
                    Ok(one_byte(12u8))
                } else if b == 114u8 {
                    Ok(one_byte(13u8))
                } else if b == 34u8 {
                    Ok(one_byte(34u8))
                } else if b == 92u8 {
                    Ok(one_byte(92u8))
                } else if b == 117u8 {
                    let cp = self.parse_hex4()?;
                    Ok(encode_utf8(cp as u32))
                } else if b == 85u8 {
                    let hi = self.parse_hex4()? as u32;
                    let lo = self.parse_hex4()? as u32;
                    proof {
                        assert((hi << 16u32) | lo == hi * 65536 + lo) by (bit_vector)
                            requires hi < 65536, lo < 65536;
                    }
                    Ok(encode_utf8((hi << 16u32) | lo))
                } else {
                    Err(self.error_here(TomlErrorKind::InvalidEscape(b)))
                }
            },
            None => Err(self.error_here(TomlErrorKind::EofInEscape)),
        }
    }
}

impl<'a> Parser<'a> {
    /// Reads a basic string whose opening quote is at the current position;
    /// three quotes open a multi-line string, whose first newline is dropped.
    pub fn parse_basic_string(&mut self) -> (r: Result<Vec<u8>, TomlError>)
        requires
            old(self).wf(),
        ensures
            final(self).moved_on(*old(self)),
            bytes_outcome(r, spec_basic_string(old(self).src@, old(self).pos as int), final(self).pos as int),
            r is Ok ==> old(self).pos < final(self).pos,
    {
        self.expect(34u8)?;
        if self.peek() == Some(34u8) && self.peek2() == Some(34u8) {
            self.advance();
            self.advance();
            if self.peek() == Some(10u8) {
                self.advance();
            } else if self.peek() == Some(13u8) && self.peek2() == Some(10u8) {
                self.advance();
                self.advance();
            }
            return self.parse_ml_basic_string();
        }
        let ghost s = self.src@;
        let ghost q = self.pos as int;
        let mut out: Vec<u8> = Vec::new();
        loop
            invariant
                self.moved_on(*old(self)),
                s == self.src@,
                old(self).pos < q <= self.pos,
                spec_basic_body(s, self.pos as int, out@) == spec_basic_body(s, q, Seq::empty()),
                spec_basic_string(s, old(self).pos as int) == spec_basic_body(s, q, Seq::empty()),
            decreases self.src@.len() - self.pos,
        {
            match self.advance() {
                None => {
                    return Err(self.error_here(TomlErrorKind::UnterminatedString));
                },
                Some(b) => {
                    if b == 34u8 {
                        return Ok(out);
                    } else if b == 92u8 {
                        let mut e = self.parse_escape()?;
                        out.append(&mut e);
                    } else if b == 10u8 || b == 13u8 {
                        return Err(self.error_here(TomlErrorKind::NewlineInBasicString));
                    } else {
                        out.push(b);
                    }
                },
            }
        }
    }

    /// Reads the body of a multi-line basic string, through its closing
    /// quotes; a backslash before a line break drops the break and all
    /// blanks and line breaks after it.
    pub fn parse_ml_basic_string(&mut self) -> (r: Result<Vec<u8>, TomlError>)
        requires
            old(self).wf(),
        ensures
            final(self).moved_on(*old(self)),
            bytes_outcome(r, spec_ml_basic_body(old(self).src@, old(self).pos as int, Seq::empty()), final(self).pos as int),
            r is Ok ==> old(self).pos < final(self).pos,
    {
        let ghost s = self.src@;
        let ghost q = self.pos as int;
        let mut out: Vec<u8> = Vec::new();
        loop
            invariant
                self.moved_on(*old(self)),
                s == self.src@,
                q == old(self).pos,
                spec_ml_basic_body(s, self.pos as int, out@) == spec_ml_basic_body(s, q, Seq::empty()),
            decreases self.src@.len() - self.pos,
        {
            let ghost p = self.pos as int;
            if self.peek() == Some(34u8) && self.peek_at(1) == Some(34u8) && self.peek_at(2) == Some(34u8) {
                self.advance();
                self.advance();
                self.advance();
                // At most two more quotes belong to the string, and only one
                // when the string is not empty.
                if self.peek() == Some(34u8) {
                    out.push(34u8);
                    self.advance();
                    if out.len() < 2 && self.peek() == Some(34u8) {
                        out.push(34u8);
                        self.advance();
                    }
                }
                return Ok(out);
            }
            match self.advance() {
                None => {
                    return Err(self.error_here(TomlErrorKind::UnterminatedMultiLineString));
                },
                Some(b) => {
                    if b == 92u8 {
                        let nx = self.peek();
                        if nx == Some(10u8) || nx == Some(13u8) || nx == Some(32u8) || nx == Some(9u8) {
                            while self.pos < self.src.len() && (self.src[self.pos] == 10u8
                                || self.src[self.pos] == 13u8 || self.src[self.pos] == 32u8
                                || self.src[self.pos] == 9u8)
                                invariant
                                    self.moved_on(*old(self)),
                                    s == self.src@,
                                    p < self.pos,
                                    line_space_end(s, self.pos as int) == line_space_end(s, p + 1),
                                decreases self.src@.len() - self.pos,
                            {
                                self.advance();
                            }
                        } else {
                            let mut e = self.parse_escape()?;
                            out.append(&mut e);
                        }
                    } else {
                        out.push(b);
                    }
                },
            }
        }
    }

    /// Reads a literal string whose opening quote is at the current
    /// position; three quotes open a multi-line one, whose first newline is
    /// dropped.
    pub fn parse_literal_string(&mut self) -> (r: Result<Vec<u8>, TomlError>)
        requires
            old(self).wf(),
        ensures
            final(self).moved_on(*old(self)),
            bytes_outcome(r, spec_literal_string(old(self).src@, old(self).pos as int), final(self).pos as int),
            r is Ok ==> old(self).pos < final(self).pos,
    {
        self.expect(39u8)?;
        if self.peek() == Some(39u8) && self.peek2() == Some(39u8) {
            self.advance();
            self.advance();
            if self.peek() == Some(10u8) {
                self.advance();
            }
            return self.parse_ml_literal_string();
        }
        let ghost s = self.src@;
        let ghost q = self.pos as int;
        let mut out: Vec<u8> = Vec::new();
        loop
            invariant
                self.moved_on(*old(self)),
                s == self.src@,
                old(self).pos < q <= self.pos,
                spec_literal_body(s, self.pos as int, out@) == spec_literal_body(s, q, Seq::empty()),
                spec_literal_string(s, old(self).pos as int) == spec_literal_body(s, q, Seq::empty()),
            decreases self.src@.len() - self.pos,
        {
            match self.advance() {
                None => {
                    return Err(self.error_here(TomlErrorKind::UnterminatedLiteralString));
                },
                Some(b) => {
                    if b == 39u8 {
                        return Ok(out);
                    } else if b == 10u8 || b == 13u8 {
                        return Err(self.error_here(TomlErrorKind::NewlineInLiteralString));
                    } else {
                        out.push(b);
                    }
                },
            }
        }
    }

    /// Reads the body of a multi-line literal string through its closing
    /// three quotes.
    pub fn parse_ml_literal_string(&mut self) -> (r: Result<Vec<u8>, TomlError>)
        requires
            old(self).wf(),
        ensures
            final(self).moved_on(*old(self)),
            bytes_outcome(r, spec_ml_literal_body(old(self).src@, old(self).pos as int, Seq::empty()), final(self).pos as int),
            r is Ok ==> old(self).pos < final(self).pos,
    {
        let ghost s = self.src@;
        let ghost q = self.pos as int;
        let mut out: Vec<u8> = Vec::new();
        loop
            invariant
                self.moved_on(*old(self)),
                s == self.src@,
                q == old(self).pos,
                spec_ml_literal_body(s, self.pos as int, out@) == spec_ml_literal_body(s, q, Seq::empty()),
            decreases self.src@.len() - self.pos,
        {
            if self.peek() == Some(39u8) && self.peek_at(1) == Some(39u8) && self.peek_at(2) == Some(39u8) {
                self.advance();
                self.advance();
                self.advance();
                return Ok(out);
            }
            match self.advance() {
                None => {
                    return Err(self.error_here(TomlErrorKind::UnterminatedMultiLineLiteralString));
                },
                Some(b) => {
                    out.push(b);
                },
            }
        }
    }
}

// ─── Keys ────────────────────────────────────────────────────────────────────

/// The end of the run of bare-key bytes at `p`.
pub open spec fn bare_end(s: Seq<u8>, p: int) -> int
    decreases s.len() - p,
{
    if 0 <= p < s.len() && spec_bare_key_char(s[p]) {
        bare_end(s, p + 1)
    } else {
        p
    }
}

pub proof fn lemma_bare_end(s: Seq<u8>, p: int)
    requires
        0 <= p <= s.len(),
    ensures
        p <= bare_end(s, p) <= s.len(),
    decreases s.len() - p,
{
    if p < s.len() && spec_bare_key_char(s[p]) {
        lemma_bare_end(s, p + 1);
    }
}

/// Reading one key segment at `p`: a basic string, a literal string, or a
/// run of bare-key bytes.
pub open spec fn spec_key_segment(s: Seq<u8>, p: int) -> Result<(Seq<u8>, int), ErrModel> {
    match at(s, p) {
        Some(b) => if b == 34u8 {
            spec_basic_string(s, p)
        } else if b == 39u8 {
            spec_literal_string(s, p)
        } else if spec_bare_key_char(b) {
            Ok((s.subrange(p, bare_end(s, p)), bare_end(s, p)))
        } else {
            Err(serr(s, TomlErrorKind::InvalidKeyChar(b), p))
        },
        None => Err(serr(s, TomlErrorKind::EofInKey, p)),
    }
}

/// Reading further `.`-separated segments of a key at `p`.
pub open spec fn spec_key_rest(s: Seq<u8>, p: int, acc: Seq<Seq<u8>>) -> Result<(Seq<Seq<u8>>, int), ErrModel>
    decreases s.len() - p,
{
    if at(s, p) == Some(46u8) {
        match spec_key_segment(s, blank_end(s, p + 1)) {
            Ok((k, p2)) => {
                let p3 = blank_end(s, p2);
                if p3 <= p || p3 > s.len() {
                    Err(stuck())
                } else {
                    spec_key_rest(s, p3, acc.push(k))
                }
            },
            Err(e) => Err(e),
        }
    } else {
        Ok((acc, p))
    }
}

/// Reading a possibly dotted key at `p`: its segments, and the position
/// after the blanks that follow it.
pub open spec fn spec_key(s: Seq<u8>, p: int) -> Result<(Seq<Seq<u8>>, int), ErrModel> {
    match spec_key_segment(s, p) {
        Ok((k, p1)) => spec_key_rest(s, blank_end(s, p1), seq![k]),
        Err(e) => Err(e),
    }
}

/// The model of a list of byte vectors.
pub open spec fn keys_view(v: Seq<Vec<u8>>) -> Seq<Seq<u8>> {
    Seq::new(v.len(), |i: int| v[i]@)
}

// ─── Numbers ─────────────────────────────────────────────────────────────────

/// The end of the run of ASCII letters at `p`.
pub open spec fn alpha_end(s: Seq<u8>, p: int) -> int
    decreases s.len() - p,
{
    if 0 <= p < s.len() && is_alpha(s[p]) {
        alpha_end(s, p + 1)
    } else {
        p
    }
}

/// A byte that may continue a number or date token.
pub open spec fn is_num_char(b: u8) -> bool {
    is_digit(b) || b == 46u8 || b == 101u8 || b == 69u8 || b == 95u8 || b == 45u8 || b == 43u8
        || b == 58u8 || b == 84u8 || b == 90u8 || b == 116u8 || b == 122u8
}

/// The end of the run of number-token bytes at `p`.
pub open spec fn num_end(s: Seq<u8>, p: int) -> int
    decreases s.len() - p,
{
    if 0 <= p < s.len() && is_num_char(s[p]) {
        num_end(s, p + 1)
    } else {
        p
    }
}

/// The end of the run of decimal digits at `p`.
pub open spec fn digit_end(s: Seq<u8>, p: int) -> int
    decreases s.len() - p,
{
    if 0 <= p < s.len() && is_digit(s[p]) {
        digit_end(s, p + 1)
    } else {
        p
    }
}

pub proof fn lemma_digit_end(s: Seq<u8>, p: int)
    requires
        0 <= p <= s.len(),
    ensures
        p <= digit_end(s, p) <= s.len(),
        forall|i: int| p <= i < digit_end(s, p) ==> is_digit(#[trigger] s[i]),
        digit_end(s, p) < s.len() ==> !is_digit(s[digit_end(s, p)]),
    decreases s.len() - p,
{
    if p < s.len() && is_digit(s[p]) {
        lemma_digit_end(s, p + 1);
    }
}

/// `t` with its underscores removed.
pub open spec fn without_underscores(t: Seq<u8>) -> Seq<u8>
    decreases t.len(),
{
    if t.len() == 0 {
        Seq::empty()
    } else {
        let r = without_underscores(t.drop_last());
        if t.last() == 95u8 {
            r
        } else {
            r.push(t.last())
        }
    }
}

/// The value of a string of decimal digits.
pub open spec fn dec_value(d: Seq<u8>) -> int
    decreases d.len(),
{
    if d.len() == 0 {
        0
    } else {
        dec_value(d.drop_last()) * 10 + (d.last() - 48)
    }
}

pub open spec fn all_digits(d: Seq<u8>) -> bool {
    forall|i: int| 0 <= i < d.len() ==> is_digit(#[trigger] d[i])
}

pub proof fn lemma_dec_value_mono(d: Seq<u8>, k: int)
    requires
        all_digits(d),
        0 <= k <= d.len(),
    ensures
        0 <= dec_value(d.take(k)) <= dec_value(d),
    decreases d.len() - k,
{
    if k < d.len() {
        lemma_dec_value_mono(d, k + 1);
        assert(d.take(k + 1).drop_last() =~= d.take(k));
    } else {
        assert(d.take(k) =~= d);
    }
    lemma_dec_value_nonneg(d.take(k));
}

pub proof fn lemma_dec_value_nonneg(d: Seq<u8>)
    requires
        all_digits(d),
    ensures
        0 <= dec_value(d),
    decreases d.len(),
{
    if d.len() > 0 {
        lemma_dec_value_nonneg(d.drop_last());
    }
}

/// What parsing `t` as a 64-bit integer in base 10 gives: an optional sign,
/// at least one digit, nothing else, and a value in range.
pub open spec fn spec_parse_i64(t: Seq<u8>) -> Option<i64> {
    let neg = t.len() > 0 && t[0] == 45u8;
    let d = if t.len() > 0 && (t[0] == 43u8 || t[0] == 45u8) {
        t.drop_first()
    } else {
        t
    };
    if d.len() == 0 || !all_digits(d) {
        None
    } else if neg {
        if dec_value(d) <= 0x8000_0000_0000_0000 {
            Some((-dec_value(d)) as i64)
        } else {
            None
        }
    } else if dec_value(d) <= 0x7FFF_FFFF_FFFF_FFFF {
        Some(dec_value(d) as i64)
    } else {
        None
    }
}

/// The decimal form of a float literal: an optional sign, digits with an
/// optional fraction (at least one digit in all), then optionally `e` or `E`,
/// an optional sign and at least one digit.
pub open spec fn spec_decimal_float(t: Seq<u8>) -> bool {
    let u = if t.len() > 0 && (t[0] == 43u8 || t[0] == 45u8) {
        t.drop_first()
    } else {
        t
    };
    let a = digit_end(u, 0);
    let e = if at(u, a) == Some(46u8) {
        digit_end(u, a + 1)
    } else {
        a
    };
    let ndigits = if at(u, a) == Some(46u8) {
        a + (e - a - 1)
    } else {
        a
    };
    &&& ndigits > 0
    &&& (e == u.len() || ((at(u, e) == Some(101u8) || at(u, e) == Some(69u8)) && {
        let q = if at(u, e + 1) == Some(43u8) || at(u, e + 1) == Some(45u8) {
            e + 2
        } else {
            e + 1
        };
        q < u.len() && digit_end(u, q) == u.len()
    }))
}

/// The digit value of `b` in `base` (16, 8 or 2), if it is one.
pub open spec fn digit_in_base(b: u8, base: u64) -> Option<int> {
    if base == 16 && is_hex(b) {
        Some(spec_hex_digit(b) as int)
    } else if base == 8 && 48u8 <= b <= 55u8 {
        Some(b - 48)
    } else if base == 2 && (b == 48u8 || b == 49u8) {
        Some(b - 48)
    } else {
        None
    }
}

/// Reading the digits of a prefixed integer at `p`; underscores are
/// skipped and the value wraps around on overflow.
pub open spec fn spec_int_base(s: Seq<u8>, p: int, base: u64, val: i64, had: bool) -> Result<(TomlData, int), ErrModel>
    decreases s.len() - p,
{
    match at(s, p) {
        Some(b) => if b == 95u8 {
            spec_int_base(s, p + 1, base, val, had)
        } else {
            match digit_in_base(b, base) {
                Some(d) => spec_int_base(
                    s,
                    p + 1,
                    base,
                    vstd::wrapping::i64_specs::wrapping_add(
                        vstd::wrapping::i64_specs::wrapping_mul(val, base as i64),
                        d as i64,
                    ),
                    true,
                ),
                None => if had {
                    Ok((TomlData::Int(val), p))
                } else {
                    Err(serr(s, TomlErrorKind::EmptyInteger, p))
                },
            }
        },
        None => if had {
            Ok((TomlData::Int(val), p))
        } else {
            Err(serr(s, TomlErrorKind::EmptyInteger, p))
        },
    }
}

/// Reading a number, date or special float whose first byte is at `p`.
pub open spec fn spec_number(s: Seq<u8>, p: int) -> Result<(TomlData, int), ErrModel> {
    let p1 = if at(s, p) == Some(43u8) || at(s, p) == Some(45u8) {
        p + 1
    } else {
        p
    };
    if at(s, p1) == Some(105u8) || at(s, p1) == Some(110u8) {
        let p2 = alpha_end(s, p1);
        let tok = s.subrange(p, p2);
        if tok == seq![105u8, 110u8, 102u8] || tok == seq![43u8, 105u8, 110u8, 102u8] {
            Ok((TomlData::Flt(FloatData::PosInfinity), p2))
        } else if tok == seq![45u8, 105u8, 110u8, 102u8] {
            Ok((TomlData::Flt(FloatData::NegInfinity), p2))
        } else if tok == seq![110u8, 97u8, 110u8] || tok == seq![43u8, 110u8, 97u8, 110u8] || tok
            == seq![45u8, 110u8, 97u8, 110u8] {
            Ok((TomlData::Flt(FloatData::NaN), p2))
        } else {
            Err(serr_text(s, TomlErrorKind::InvalidToken, p2, tok))
        }
    } else if at(s, p1) == Some(48u8) && at(s, p1 + 1) == Some(120u8) {
        spec_int_base(s, p1 + 2, 16, 0, false)
    } else if at(s, p1) == Some(48u8) && at(s, p1 + 1) == Some(111u8) {
        spec_int_base(s, p1 + 2, 8, 0, false)
    } else if at(s, p1) == Some(48u8) && at(s, p1 + 1) == Some(98u8) {
        spec_int_base(s, p1 + 2, 2, 0, false)
    } else {
        let p2 = num_end(s, p1);
        let tok = s.subrange(p, p2);
        let clean = without_underscores(tok);
        if !clean.contains(46u8) && !clean.contains(101u8) && !clean.contains(69u8)
            && spec_parse_i64(clean) is Some {
            Ok((TomlData::Int(spec_parse_i64(clean).unwrap()), p2))
        } else if spec_decimal_float(clean) {
            Ok((TomlData::Flt(FloatData::Decimal(clean)), p2))
        } else {
            Ok((TomlData::Str(tok), p2))
        }
    }
}

/// Relates an outcome holding a value to its model.
pub open spec fn value_outcome(
    r: Result<TomlValue, TomlError>,
    m: Result<(TomlData, int), ErrModel>,
    pos: int,
) -> bool {
    match (r, m) {
        (Ok(x), Ok((v, q))) => x@ == v && pos == q,
        (Err(x), Err(e)) => x@ == e,
        _ => false,
    }
}

/// `t` with its underscores removed.
pub fn strip_underscores(t: &[u8]) -> (r: Vec<u8>)
    ensures
        r@ == without_underscores(t@),
{
    let mut out: Vec<u8> = Vec::new();
    let mut i: usize = 0;
    while i < t.len()
        invariant
            i <= t.len(),
            out@ == without_underscores(t@.take(i as int)),
        decreases t.len() - i,
    {
        proof {
            assert(t@.take(i + 1).drop_last() =~= t@.take(i as int));
        }
        if t[i] != 95u8 {
            out.push(t[i]);
        }
        i = i + 1;
    }
    proof {
        assert(t@.take(t.len() as int) =~= t@);
    }
    out
}

/// Tells whether `t` holds the byte `b`.
pub fn contains_byte(t: &[u8], b: u8) -> (r: bool)
    ensures
        r == t@.contains(b),
{
    let mut i: usize = 0;
    while i < t.len()
        invariant
            i <= t.len(),
            forall|j: int| 0 <= j < i ==> t@[j] != b,
        decreases t.len() - i,
    {
        if t[i] == b {
            assert(t@[i as int] == b);
            return true;
        }
        i = i + 1;
    }
    false
}

/// Parses `t` as a base-10 `i64`: an optional sign, then digits only,
/// within range.
pub fn parse_i64(t: &[u8]) -> (r: Option<i64>)
    ensures
        r == spec_parse_i64(t@),
{
    let neg: bool = t.len() > 0 && t[0] == 45u8;
    let start: usize = if t.len() > 0 && (t[0] == 43u8 || t[0] == 45u8) {
        1
    } else {
        0
    };
    let ghost d = if t@.len() > 0 && (t@[0] == 43u8 || t@[0] == 45u8) {
        t@.drop_first()
    } else {
        t@
    };
    assert(d =~= t@.subrange(start as int, t@.len() as int));
    if start >= t.len() {
        return None;
    }
    let limit: u64 = if neg {
        0x8000_0000_0000_0000
    } else {
        0x7FFF_FFFF_FFFF_FFFF
    };
    let mut acc: u64 = 0;
    let mut i: usize = start;
    while i < t.len()
        invariant
            start <= i <= t.len(),
            d == t@.subrange(start as int, t@.len() as int),
            all_digits(d.take(i - start)),
            acc == dec_value(d.take(i - start)),
            acc <= limit,
            limit == (if neg { 0x8000_0000_0000_0000u64 } else { 0x7FFF_FFFF_FFFF_FFFFu64 }),
            d == (if t@.len() > 0 && (t@[0] == 43u8 || t@[0] == 45u8) {
                t@.drop_first()
            } else {
                t@
            }),
            neg == (t@.len() > 0 && t@[0] == 45u8),
        decreases t.len() - i,
    {
        let c = t[i];
        proof {
            assert(d.take(i - start + 1).drop_last() =~= d.take(i - start));
            assert(d[i - start] == c);
        }
        if !(48u8 <= c && c <= 57u8) {
            proof {
                assert(!is_digit(d[i - start]));
                assert(!all_digits(d));
                assert(spec_parse_i64(t@) is None);
            }
            return None;
        }
        let dg: u64 = (c - 48) as u64;
        if acc > (limit - dg) / 10 {
            proof {
                assert(acc * 10 + dg > limit) by (nonlinear_arith)
                    requires acc > (limit - dg) / 10, dg <= 9, limit >= dg;
                assert(dec_value(d.take(i - start + 1)) == acc * 10 + dg);
                if all_digits(d) {
                    lemma_dec_value_mono(d, i - start + 1);
                }
                assert(spec_parse_i64(t@) is None);
            }
            return None;
        }
        acc = acc * 10 + dg;
        i = i + 1;
    }
    proof {
        assert(d.take(d.len() as int) =~= d);
    }
    if neg {
        if acc == 0x8000_0000_0000_0000 {
            Some(i64::MIN)
        } else {
            Some(-(acc as i64))
        }
    } else {
        Some(acc as i64)
    }
}

/// Tells whether `t` has the decimal form of a float literal (see
/// `spec_decimal_float`).
pub fn is_decimal_float(t: &[u8]) -> (r: bool)
    ensures
        r == spec_decimal_float(t@),
{
    let u: &[u8] = if t.len() > 0 && (t[0] == 43u8 || t[0] == 45u8) {
        &t[1..t.len()]
    } else {
        t
    };
    proof {
        if t@.len() > 0 && (t@[0] == 43u8 || t@[0] == 45u8) {
            assert(u@ =~= t@.drop_first());
        }
    }
    let a = digits_from(u, 0);
    let mut e: usize = a;
    let mut ndigits: usize = a;
    if a < u.len() && u[a] == 46u8 {
        e = digits_from(u, a + 1);
        ndigits = a + (e - a - 1);
    }
    if ndigits == 0 {
        return false;
    }
    if e == u.len() {
        return true;
    }
    if !(u[e] == 101u8 || u[e] == 69u8) {
        return false;
    }
    let mut q: usize = e + 1;
    if q < u.len() && (u[q] == 43u8 || u[q] == 45u8) {
        q = q + 1;
    }
    q < u.len() && digits_from(u, q) == u.len()
}

/// The end of the run of decimal digits of `u` that starts at `p`.
pub fn digits_from(u: &[u8], p: usize) -> (r: usize)
    requires
        p <= u@.len(),
    ensures
        r as int == digit_end(u@, p as int),
        p <= r <= u@.len(),
{
    let mut i: usize = p;
    while i < u.len() && 48u8 <= u[i] && u[i] <= 57u8
        invariant
            p <= i <= u.len(),
            digit_end(u@, i as int) == digit_end(u@, p as int),
        decreases u.len() - i,
    {
        i = i + 1;
    }
    i
}

impl<'a> Parser<'a> {
    /// Reads one key segment: a quoted string or a run of bare-key bytes.
    pub fn parse_key_segment(&mut self) -> (r: Result<Vec<u8>, TomlError>)
        requires
            old(self).wf(),
        ensures
            final(self).moved_on(*old(self)),
            bytes_outcome(r, spec_key_segment(old(self).src@, old(self).pos as int), final(self).pos as int),
            r is Ok ==> old(self).pos < final(self).pos,
    {
        match self.peek() {
            Some(b) => {
                if b == 34u8 {
                    self.parse_basic_string()
                } else if b == 39u8 {
                    self.parse_literal_string()
                } else if is_bare_key_char(b) {
                    let ghost s = self.src@;
                    let start = self.pos;
                    while self.pos < self.src.len() && is_bare_key_char(self.src[self.pos])
                        invariant
                            self.moved_on(*old(self)),
                            s == self.src@,
                            start == old(self).pos,
                            bare_end(s, self.pos as int) == bare_end(s, start as int),
                        decreases self.src@.len() - self.pos,
                    {
                        self.advance();
                    }
                    let key = vstd::slice::slice_to_vec(&self.src[start..self.pos]);
                    Ok(key)
                } else {
                    Err(self.error_here(TomlErrorKind::InvalidKeyChar(b)))
                }
            },
            None => Err(self.error_here(TomlErrorKind::EofInKey)),
        }
    }

    /// Reads a possibly dotted key and the blanks after it.
    pub fn parse_key(&mut self) -> (r: Result<Vec<Vec<u8>>, TomlError>)
        requires
            old(self).wf(),
        ensures
            final(self).moved_on(*old(self)),
            match (r, spec_key(old(self).src@, old(self).pos as int)) {
                (Ok(x), Ok((v, q))) => keys_view(x@) == v && final(self).pos == q && x@.len() >= 1,
                (Err(x), Err(e)) => x@ == e,
                _ => false,
            },
            r is Ok ==> old(self).pos < final(self).pos,
    {
        let ghost s = self.src@;
        let first = self.parse_key_segment()?;
        let mut parts: Vec<Vec<u8>> = Vec::new();
        parts.push(first);
        proof {
            assert(keys_view(parts@) =~= seq![first@]);
        }
        self.skip_whitespace();
        loop
            invariant
                self.moved_on(*old(self)),
                s == self.src@,
                old(self).pos < self.pos,
                parts@.len() >= 1,
                spec_key(s, old(self).pos as int) == spec_key_rest(s, self.pos as int, keys_view(parts@)),
            decreases self.src@.len() - self.pos,
        {
            if self.peek() != Some(46u8) {
                return Ok(parts);
            }
            let ghost p = self.pos as int;
            self.advance();
            self.skip_whitespace();
            let k = self.parse_key_segment()?;
            proof {
                assert(keys_view(parts@.push(k)) =~= keys_view(parts@).push(k@));
            }
            parts.push(k);
            self.skip_whitespace();
        }
    }

    /// Reads the digits of an integer written in base 16, 8 or 2 (after its
    /// prefix); underscores are skipped, the value wraps around on overflow.
    pub fn parse_int_base(&mut self, base: u64) -> (r: Result<TomlValue, TomlError>)
        requires
            old(self).wf(),
        ensures
            final(self).moved_on(*old(self)),
            value_outcome(r, spec_int_base(old(self).src@, old(self).pos as int, base, 0, false), final(self).pos as int),
    {
        let ghost s = self.src@;
        let mut val: i64 = 0;
        let mut had_digit: bool = false;
        loop
            invariant
                self.moved_on(*old(self)),
                s == self.src@,
                spec_int_base(s, old(self).pos as int, base, 0, false) == spec_int_base(s, self.pos as int, base, val, had_digit),
            ensures
                self.moved_on(*old(self)),
                s == self.src@,
                spec_int_base(s, old(self).pos as int, base, 0, false) == (if had_digit {
                    Ok((TomlData::Int(val), self.pos as int))
                } else {
                    Err(serr(s, TomlErrorKind::EmptyInteger, self.pos as int))
                }),
            decreases self.src@.len() - self.pos,
        {
            match self.peek() {
                Some(b) => {
                    if b == 95u8 {
                        self.advance();
                    } else {
                        let digit: u8;
                        if base == 16 && ((48u8 <= b && b <= 57u8) || (65u8 <= b && b <= 70u8) || (97u8 <= b && b <= 102u8)) {
                            digit = hex_digit(b);
                        } else if base == 8 && 48u8 <= b && b <= 55u8 {
                            digit = b - 48;
                        } else if base == 2 && (b == 48u8 || b == 49u8) {
                            digit = b - 48;
                        } else {
                            break;
                        }
                        val = val.wrapping_mul(base as i64).wrapping_add(digit as i64);
                        had_digit = true;
                        self.advance();
                    }
                },
                None => {
                    break;
                },
            }
        }
        if !had_digit {
            return Err(self.error_here(TomlErrorKind::EmptyInteger));
        }
        Ok(TomlValue::Integer(val))
    }

    /// Reads a number, a date (kept as its text) or a special float.
    #[verifier::spinoff_prover]
    pub fn parse_number_or_date(&mut self) -> (r: Result<TomlValue, TomlError>)
        requires
            old(self).wf(),
        ensures
            final(self).moved_on(*old(self)),
            value_outcome(r, spec_number(old(self).src@, old(self).pos as int), final(self).pos as int),
            (at(old(self).src@, old(self).pos as int) matches Some(b) && starts_number(b) && r is Ok)
                ==> old(self).pos < final(self).pos,
    {
        let ghost s = self.src@;
        let start = self.pos;
        if self.peek() == Some(43u8) || self.peek() == Some(45u8) {
            self.advance();
        }
        let p1 = self.pos;
        proof {
            lemma_alpha_end(s, p1 as int);
            lemma_num_end(s, p1 as int);
        }
        if self.peek() == Some(105u8) || self.peek() == Some(110u8) {
            while self.pos < self.src.len() && ((65u8 <= self.src[self.pos] && self.src[self.pos] <= 90u8)
                || (97u8 <= self.src[self.pos] && self.src[self.pos] <= 122u8))
                invariant
                    self.moved_on(*old(self)),
                    s == self.src@,
                    p1 <= self.pos,
                    alpha_end(s, self.pos as int) == alpha_end(s, p1 as int),
                decreases self.src@.len() - self.pos,
            {
                self.advance();
            }
            let tok = &self.src[start..self.pos];
            let n = tok.len();
            if (n == 3 && tok[0] == 105u8 && tok[1] == 110u8 && tok[2] == 102u8) || (n == 4 && tok[0]
                == 43u8 && tok[1] == 105u8 && tok[2] == 110u8 && tok[3] == 102u8) {
                proof {
                    if n == 3 {
                        assert(tok@ =~= seq![105u8, 110u8, 102u8]);
                    } else {
                        assert(tok@ =~= seq![43u8, 105u8, 110u8, 102u8]);
                    }
                }
                return Ok(TomlValue::Float(TomlFloat::PosInfinity));
            }
            proof {
                assert(tok@ == seq![105u8, 110u8, 102u8] ==> n == 3 && tok@[0] == 105u8 && tok@[1] == 110u8 && tok@[2] == 102u8);
                assert(tok@ == seq![43u8, 105u8, 110u8, 102u8] ==> n == 4 && tok@[0] == 43u8 && tok@[1] == 105u8 && tok@[2] == 110u8 && tok@[3] == 102u8);
            }
            if n == 4 && tok[0] == 45u8 && tok[1] == 105u8 && tok[2] == 110u8 && tok[3] == 102u8 {
                proof {
                    assert(tok@ =~= seq![45u8, 105u8, 110u8, 102u8]);
                }
                return Ok(TomlValue::Float(TomlFloat::NegInfinity));
            }
            proof {
                assert(tok@ == seq![45u8, 105u8, 110u8, 102u8] ==> n == 4 && tok@[0] == 45u8 && tok@[1] == 105u8 && tok@[2] == 110u8 && tok@[3] == 102u8);
            }
            if (n == 3 && tok[0] == 110u8 && tok[1] == 97u8 && tok[2] == 110u8) || (n == 4 && (tok[0]
                == 43u8 || tok[0] == 45u8) && tok[1] == 110u8 && tok[2] == 97u8 && tok[3] == 110u8) {
                proof {
                    if n == 3 {
                        assert(tok@ =~= seq![110u8, 97u8, 110u8]);
                    } else if tok[0] == 43u8 {
                        assert(tok@ =~= seq![43u8, 110u8, 97u8, 110u8]);
                    } else {
                        assert(tok@ =~= seq![45u8, 110u8, 97u8, 110u8]);
                    }
                }
                return Ok(TomlValue::Float(TomlFloat::NaN));
            }
            proof {
                assert(tok@ == seq![110u8, 97u8, 110u8] ==> n == 3 && tok@[0] == 110u8 && tok@[1] == 97u8 && tok@[2] == 110u8);
                assert(tok@ == seq![43u8, 110u8, 97u8, 110u8] ==> n == 4 && tok@[0] == 43u8 && tok@[1] == 110u8 && tok@[2] == 97u8 && tok@[3] == 110u8);
                assert(tok@ == seq![45u8, 110u8, 97u8, 110u8] ==> n == 4 && tok@[0] == 45u8 && tok@[1] == 110u8 && tok@[2] == 97u8 && tok@[3] == 110u8);
            }
            return Err(
                TomlError {
                    kind: TomlErrorKind::InvalidToken,
                    line: Some(self.line),
                    text: vstd::slice::slice_to_vec(tok),
                },
            );
        }
        if self.peek() == Some(48u8) {
            let nx = self.peek2();
            if nx == Some(120u8) {
                self.advance();
                self.advance();
                return self.parse_int_base(16);
            } else if nx == Some(111u8) {
                self.advance();
                self.advance();
                return self.parse_int_base(8);
            } else if nx == Some(98u8) {
                self.advance();
                self.advance();
                return self.parse_int_base(2);
            }
        }
        while self.pos < self.src.len() && is_num_byte(self.src[self.pos])
            invariant
                self.moved_on(*old(self)),
                s == self.src@,
                p1 <= self.pos,
                num_end(s, self.pos as int) == num_end(s, p1 as int),
            decreases self.src@.len() - self.pos,
        {
            self.advance();
        }
        let tok = &self.src[start..self.pos];
        let clean = strip_underscores(tok);
        if !contains_byte(clean.as_slice(), 46u8) && !contains_byte(clean.as_slice(), 101u8)
            && !contains_byte(clean.as_slice(), 69u8) {
            match parse_i64(clean.as_slice()) {
                Some(i) => {
                    return Ok(TomlValue::Integer(i));
                },
                None => {},
            }
        }
        if is_decimal_float(clean.as_slice()) {
            return Ok(TomlValue::Float(TomlFloat::Decimal(clean)));
        }
        Ok(TomlValue::String(vstd::slice::slice_to_vec(tok)))
    }
}

/// Tells whether `b` may continue a number or date token.
pub fn is_num_byte(b: u8) -> (r: bool)
    ensures
        r == is_num_char(b),
{
    (48u8 <= b && b <= 57u8) || b == 46u8 || b == 101u8 || b == 69u8 || b == 95u8 || b == 45u8 || b
        == 43u8 || b == 58u8 || b == 84u8 || b == 90u8 || b == 116u8 || b == 122u8
}

pub proof fn lemma_alpha_end(s: Seq<u8>, p: int)
    requires
        0 <= p <= s.len(),
    ensures
        p <= alpha_end(s, p) <= s.len(),
        p < s.len() && is_alpha(s[p]) ==> p < alpha_end(s, p),
    decreases s.len() - p,
{
    if p < s.len() && is_alpha(s[p]) {
        lemma_alpha_end(s, p + 1);
    }
}

pub proof fn lemma_num_end(s: Seq<u8>, p: int)
    requires
        0 <= p <= s.len(),
    ensures
        p <= num_end(s, p) <= s.len(),
        p < s.len() && is_num_char(s[p]) ==> p < num_end(s, p),
    decreases s.len() - p,
{
    if p < s.len() && is_num_char(s[p]) {
        lemma_num_end(s, p + 1);
    }
}

// ─── Values ──────────────────────────────────────────────────────────────────

/// Reading the bytes of `lit` one by one from `p`, starting at `lit[i]`.
pub open spec fn spec_expect_lit(s: Seq<u8>, p: int, lit: Seq<u8>, i: int) -> Result<int, ErrModel>
    decreases lit.len() - i,
{
    if i >= lit.len() || i < 0 {
        Ok(p)
    } else {
        match spec_expect(s, p, lit[i]) {
            Ok(q) => spec_expect_lit(s, q, lit, i + 1),
            Err(e) => Err(e),
        }
    }
}

/// The pair that `k1.k2...kn = v` stands for: `v` nested in one-entry
/// tables under each segment, from the last to the first.
pub open spec fn spec_dotted(ks: Seq<Seq<u8>>, v: TomlData) -> (Seq<u8>, TomlData)
    decreases ks.len(),
{
    if ks.len() <= 1 {
        (ks[0], v)
    } else {
        spec_dotted(ks.drop_last(), TomlData::Tab(seq![(ks.last(), v)]))
    }
}

/// The model of a list of values.
pub open spec fn items_view(v: Seq<TomlValue>) -> Seq<TomlData> {
    Seq::new(v.len(), |i: int| v[i]@)
}

pub proof fn lemma_array_view(items: Vec<TomlValue>)
    ensures
        TomlValue::Array(items)@ == TomlData::Arr(items_view(items@)),
{
    let a = TomlValue::Array(items)@;
    assert(a == value_view(TomlValue::Array(items)));
    if let TomlData::Arr(x) = a {
        assert(x =~= items_view(items@));
    }
}

/// The byte starts a number, date or special float.
pub open spec fn starts_number(b: u8) -> bool {
    is_digit(b) || b == 43u8 || b == 45u8 || b == 105u8 || b == 110u8
}

/// Reading a value after the blanks at `p`.
pub open spec fn spec_value(s: Seq<u8>, p: int) -> Result<(TomlData, int), ErrModel>
    decreases s.len() - p, 2int,
{
    let q = blank_end(s, p);
    if q < p || q > s.len() {
        Err(stuck())
    } else {
        match at(s, q) {
            Some(b) => if b == 34u8 {
                match spec_basic_string(s, q) {
                    Ok((t, q2)) => Ok((TomlData::Str(t), q2)),
                    Err(e) => Err(e),
                }
            } else if b == 39u8 {
                match spec_literal_string(s, q) {
                    Ok((t, q2)) => Ok((TomlData::Str(t), q2)),
                    Err(e) => Err(e),
                }
            } else if b == 116u8 {
                match spec_expect_lit(s, q, seq![116u8, 114u8, 117u8, 101u8], 0) {
                    Ok(q2) => Ok((TomlData::Bool(true), q2)),
                    Err(e) => Err(e),
                }
            } else if b == 102u8 {
                match spec_expect_lit(s, q, seq![102u8, 97u8, 108u8, 115u8, 101u8], 0) {
                    Ok(q2) => Ok((TomlData::Bool(false), q2)),
                    Err(e) => Err(e),
                }
            } else if b == 91u8 {
                spec_array(s, q)
            } else if b == 123u8 {
                spec_inline_table(s, q)
            } else if starts_number(b) {
                spec_number(s, q)
            } else {
                Err(serr(s, TomlErrorKind::UnexpectedCharInValue(b), q))
            },
            None => Err(serr(s, TomlErrorKind::EofInValue, q)),
        }
    }
}

/// Reading an array whose bracket is at `p`.
pub open spec fn spec_array(s: Seq<u8>, p: int) -> Result<(TomlData, int), ErrModel>
    decreases s.len() - p, 1int,
{
    match spec_expect(s, p, 91u8) {
        Ok(q) => spec_array_items(s, q, Seq::empty()),
        Err(e) => Err(e),
    }
}

/// Reading the items of an array from `q`, with `acc` read so far.
pub open spec fn spec_array_items(s: Seq<u8>, q: int, acc: Seq<TomlData>) -> Result<(TomlData, int), ErrModel>
    decreases s.len() - q + 1, 0int,
{
    let q1 = space_end(s, q);
    if q1 < q || q1 > s.len() {
        Err(stuck())
    } else if at(s, q1) == Some(93u8) {
        Ok((TomlData::Arr(acc), q1 + 1))
    } else {
        match spec_value(s, q1) {
            Ok((v, q2)) => {
                let q3 = space_end(s, q2);
                if q2 <= q1 || q3 < q2 || q3 > s.len() {
                    Err(stuck())
                } else {
                    match at(s, q3) {
                        Some(b) => if b == 44u8 {
                            spec_array_items(s, q3 + 1, acc.push(v))
                        } else if b == 93u8 {
                            Ok((TomlData::Arr(acc.push(v)), q3 + 1))
                        } else {
                            Err(serr(s, TomlErrorKind::ExpectedCommaOrBracket(b), q3))
                        },
                        None => Err(serr(s, TomlErrorKind::EofInArray, q3)),
                    }
                }
            },
            Err(e) => Err(e),
        }
    }
}

/// Reading an inline table whose brace is at `p`.
pub open spec fn spec_inline_table(s: Seq<u8>, p: int) -> Result<(TomlData, int), ErrModel>
    decreases s.len() - p, 1int,
{
    match spec_expect(s, p, 123u8) {
        Ok(q0) => {
            let q = blank_end(s, q0);
            if q < q0 || q > s.len() || q0 <= p {
                Err(stuck())
            } else if at(s, q) == Some(125u8) {
                Ok((TomlData::Tab(Seq::empty()), q + 1))
            } else {
                spec_inline_items(s, q, Seq::empty())
            }
        },
        Err(e) => Err(e),
    }
}

/// Reading the `key = value` entries of an inline table from `q`.
pub open spec fn spec_inline_items(s: Seq<u8>, q: int, acc: Seq<(Seq<u8>, TomlData)>) -> Result<(TomlData, int), ErrModel>
    decreases s.len() - q + 1, 0int,
{
    let q1 = blank_end(s, q);
    if q1 < q || q1 > s.len() {
        Err(stuck())
    } else {
        match spec_key(s, q1) {
            Ok((k, q2)) => {
                let q3 = blank_end(s, q2);
                match spec_expect(s, q3, 61u8) {
                    Ok(q4) => {
                        let q5 = blank_end(s, q4);
                        if q2 < q1 || q3 < q2 || q4 < q3 || q5 < q4 || q5 > s.len() {
                            Err(stuck())
                        } else {
                            match spec_value(s, q5) {
                                Ok((v, q6)) => {
                                    let q7 = blank_end(s, q6);
                                    if q6 <= q5 || q7 < q6 || q7 > s.len() {
                                        Err(stuck())
                                    } else {
                                        let pair = spec_dotted(k, v);
                                        match at(s, q7) {
                                            Some(b) => if b == 44u8 {
                                                spec_inline_items(s, q7 + 1, acc.push(pair))
                                            } else if b == 125u8 {
                                                Ok((TomlData::Tab(acc.push(pair)), q7 + 1))
                                            } else {
                                                Err(serr(s, TomlErrorKind::ExpectedCommaOrBrace(b), q7))
                                            },
                                            None => Err(serr(s, TomlErrorKind::EofInInlineTable, q7)),
                                        }
                                    }
                                },
                                Err(e) => Err(e),
                            }
                        }
                    },
                    Err(e) => Err(e),
                }
            },
            Err(e) => Err(e),
        }
    }
}

/// Nests `val` under the segments of a dotted key: `a.b.c = v` becomes
/// the pair `a = { b = { c = v } }`.
pub fn build_dotted_value(parts: Vec<Vec<u8>>, val: TomlValue) -> (r: (Vec<u8>, TomlValue))
    requires
        parts@.len() >= 1,
    ensures
        (r.0@, r.1@) == spec_dotted(keys_view(parts@), val@),
{
    let ghost ks = keys_view(parts@);
    let mut parts = parts;
    let mut cur = val;
    while parts.len() > 1
        invariant
            parts@.len() >= 1,
            spec_dotted(ks, val@) == spec_dotted(keys_view(parts@), cur@),
        decreases parts@.len(),
    {
        let ghost before = parts@;
        let k = parts.pop().unwrap();
        proof {
            assert(keys_view(parts@) =~= keys_view(before).drop_last());
            assert(keys_view(before).last() == k@);
        }
        let ghost inner = cur@;
        let mut t: Vec<(Vec<u8>, TomlValue)> = Vec::new();
        t.push((k, cur));
        cur = TomlValue::Table(t);
        proof {
            assert(pairs_view(t@) =~= seq![(k@, inner)]);
        }
    }
    let ghost before = parts@;
    let first = parts.pop().unwrap();
    proof {
        assert(keys_view(before)[0] == first@);
    }
    (first, cur)
}

impl<'a> Parser<'a> {
    /// Reads the bytes of `expected` one by one.
    pub fn expect_bytes(&mut self, expected: &[u8]) -> (r: Result<(), TomlError>)
        requires
            old(self).wf(),
        ensures
            final(self).moved_on(*old(self)),
            unit_outcome(r, spec_expect_lit(old(self).src@, old(self).pos as int, expected@, 0), final(self).pos as int),
            r is Ok ==> old(self).pos + expected@.len() == final(self).pos,
    {
        let ghost s = self.src@;
        let mut i: usize = 0;
        while i < expected.len()
            invariant
                self.moved_on(*old(self)),
                s == self.src@,
                i <= expected@.len(),
                self.pos == old(self).pos + i,
                spec_expect_lit(s, old(self).pos as int, expected@, 0) == spec_expect_lit(s, self.pos as int, expected@, i as int),
            decreases expected@.len() - i,
        {
            self.expect(expected[i])?;
            i = i + 1;
        }
        Ok(())
    }

    /// Reads a value, after any blanks.
    pub fn parse_value(&mut self) -> (r: Result<TomlValue, TomlError>)
        requires
            old(self).wf(),
        ensures
            final(self).moved_on(*old(self)),
            value_outcome(r, spec_value(old(self).src@, old(self).pos as int), final(self).pos as int),
            r is Ok ==> old(self).pos < final(self).pos,
        decreases old(self).src@.len() - old(self).pos, 2int,
    {
        let ghost s = self.src@;
        proof {
            lemma_blank_end(s, self.pos as int);
        }
        self.skip_whitespace();
        match self.peek() {
            Some(b) => {
                if b == 34u8 {
                    let t = self.parse_basic_string()?;
                    Ok(TomlValue::String(t))
                } else if b == 39u8 {
                    let t = self.parse_literal_string()?;
                    Ok(TomlValue::String(t))
                } else if b == 116u8 {
                    let word: Vec<u8> = vec![116u8, 114u8, 117u8, 101u8];
                    proof {
                        assert(word@ =~= seq![116u8, 114u8, 117u8, 101u8]);
                    }
                    self.expect_bytes(word.as_slice())?;
                    Ok(TomlValue::Bool(true))
                } else if b == 102u8 {
                    let word: Vec<u8> = vec![102u8, 97u8, 108u8, 115u8, 101u8];
                    proof {
                        assert(word@ =~= seq![102u8, 97u8, 108u8, 115u8, 101u8]);
                    }
                    self.expect_bytes(word.as_slice())?;
                    Ok(TomlValue::Bool(false))
                } else if b == 91u8 {
                    self.parse_array()
                } else if b == 123u8 {
                    self.parse_inline_table()
                } else if (48u8 <= b && b <= 57u8) || b == 43u8 || b == 45u8 || b == 105u8 || b == 110u8 {
                    self.parse_number_or_date()
                } else {
                    Err(self.error_here(TomlErrorKind::UnexpectedCharInValue(b)))
                }
            },
            None => Err(self.error_here(TomlErrorKind::EofInValue)),
        }
    }

    /// Reads an array: values separated by commas, with blanks, newlines
    /// and comments allowed around them, and an optional trailing comma.
    pub fn parse_array(&mut self) -> (r: Result<TomlValue, TomlError>)
        requires
            old(self).wf(),
        ensures
            final(self).moved_on(*old(self)),
            value_outcome(r, spec_array(old(self).src@, old(self).pos as int), final(self).pos as int),
            r is Ok ==> old(self).pos < final(self).pos,
        decreases old(self).src@.len() - old(self).pos, 1int,
    {
        let ghost s = self.src@;
        self.expect(91u8)?;
        let mut items: Vec<TomlValue> = Vec::new();
        proof {
            assert(items_view(items@) =~= Seq::empty());
        }
        loop
            invariant
                self.moved_on(*old(self)),
                s == self.src@,
                old(self).pos < self.pos,
                spec_array(s, old(self).pos as int) == spec_array_items(s, self.pos as int, items_view(items@)),
            decreases self.src@.len() - self.pos,
        {
            proof {
                lemma_space_end(s, self.pos as int);
            }
            self.skip_whitespace_and_newlines();
            if self.peek() == Some(93u8) {
                self.advance();
                proof {
                    lemma_array_view(items);
                }
                return Ok(TomlValue::Array(items));
            }
            let v = self.parse_value()?;
            proof {
                lemma_space_end(s, self.pos as int);
                assert(items_view(items@.push(v)) =~= items_view(items@).push(v@));
            }
            items.push(v);
            self.skip_whitespace_and_newlines();
            match self.peek() {
                Some(b) => {
                    if b == 44u8 {
                        self.advance();
                    } else if b == 93u8 {
                        self.advance();
                        proof {
                            lemma_array_view(items);
                        }
                        return Ok(TomlValue::Array(items));
                    } else {
                        return Err(self.error_here(TomlErrorKind::ExpectedCommaOrBracket(b)));
                    }
                },
                None => {
                    return Err(self.error_here(TomlErrorKind::EofInArray));
                },
            }
        }
    }

    /// Reads an inline table: `key = value` entries separated by commas on
    /// one line; dotted keys become nested tables.
    pub fn parse_inline_table(&mut self) -> (r: Result<TomlValue, TomlError>)
        requires
            old(self).wf(),
        ensures
            final(self).moved_on(*old(self)),
            value_outcome(r, spec_inline_table(old(self).src@, old(self).pos as int), final(self).pos as int),
            r is Ok ==> old(self).pos < final(self).pos,
        decreases old(self).src@.len() - old(self).pos, 1int,
    {
        let ghost s = self.src@;
        self.expect(123u8)?;
        let mut pairs: Vec<(Vec<u8>, TomlValue)> = Vec::new();
        proof {
            lemma_blank_end(s, self.pos as int);
        }
        self.skip_whitespace();
        if self.peek() == Some(125u8) {
            self.advance();
            proof {
                assert(pairs_view(pairs@) =~= Seq::empty());
            }
            return Ok(TomlValue::Table(pairs));
        }
        proof {
            assert(pairs_view(pairs@) =~= Seq::empty());
        }
        loop
            invariant
                self.moved_on(*old(self)),
                s == self.src@,
                old(self).pos < self.pos,
                spec_inline_table(s, old(self).pos as int) == spec_inline_items(s, self.pos as int, pairs_view(pairs@)),
            decreases self.src@.len() - self.pos,
        {
            proof {
                lemma_blank_end(s, self.pos as int);
            }
            self.skip_whitespace();
            let key_parts = self.parse_key()?;
            proof {
                lemma_blank_end(s, self.pos as int);
            }
            self.skip_whitespace();
            self.expect(61u8)?;
            proof {
                lemma_blank_end(s, self.pos as int);
            }
            self.skip_whitespace();
            let val = self.parse_value()?;
            let pair = build_dotted_value(key_parts, val);
            proof {
                lemma_blank_end(s, self.pos as int);
                assert(pairs_view(pairs@.push(pair)) =~= pairs_view(pairs@).push((pair.0@, pair.1@)));
            }
            pairs.push(pair);
            self.skip_whitespace();
            match self.peek() {
                Some(b) => {
                    if b == 44u8 {
                        self.advance();
                    } else if b == 125u8 {
                        self.advance();
                        return Ok(TomlValue::Table(pairs));
                    } else {
                        return Err(self.error_here(TomlErrorKind::ExpectedCommaOrBrace(b)));
                    }
                },
                None => {
                    return Err(self.error_here(TomlErrorKind::EofInInlineTable));
                },
            }
        }
    }
}

// ─── The document tree ───────────────────────────────────────────────────────

/// Pairs of a table, as a model.
pub type Pairs = Seq<(Seq<u8>, TomlData)>;

/// The error that names the key or path segment `key`.
pub open spec fn key_err(kind: TomlErrorKind, key: Seq<u8>) -> ErrModel {
    ErrModel { kind, line: None, text: key }
}

/// The pairs of a table value; none for any other value.
pub open spec fn tab_of(d: TomlData) -> Pairs {
    match d {
        TomlData::Tab(t) => t,
        _ => Seq::empty(),
    }
}

/// The first index from `i` on whose pair has key `key` and a table value.
pub open spec fn find_table(p: Pairs, key: Seq<u8>, i: int) -> Option<int>
    decreases p.len() - i,
{
    if i < 0 || i >= p.len() {
        None
    } else if p[i].0 == key && p[i].1 is Tab {
        Some(i)
    } else {
        find_table(p, key, i + 1)
    }
}

/// The first index from `i` on whose pair has key `key`.
pub open spec fn find_key(p: Pairs, key: Seq<u8>, i: int) -> Option<int>
    decreases p.len() - i,
{
    if i < 0 || i >= p.len() {
        None
    } else if p[i].0 == key {
        Some(i)
    } else {
        find_key(p, key, i + 1)
    }
}

/// The first index from `i` on whose pair has key `key` and an array value
/// whose last element is a table.
pub open spec fn find_aot(p: Pairs, key: Seq<u8>, i: int) -> Option<int>
    decreases p.len() - i,
{
    if i < 0 || i >= p.len() {
        None
    } else if p[i].0 == key && p[i].1 is Arr && p[i].1->Arr_0.len() > 0 && p[i].1->Arr_0.last() is Tab {
        Some(i)
    } else {
        find_aot(p, key, i + 1)
    }
}

pub proof fn lemma_find_key(p: Pairs, key: Seq<u8>, j: int)
    requires
        0 <= j,
    ensures
        find_key(p, key, j) matches Some(i) ==> j <= i < p.len() && p[i].0 == key,
    decreases p.len() - j,
{
    if j < p.len() && p[j].0 != key {
        lemma_find_key(p, key, j + 1);
    }
}

pub proof fn lemma_find_table(p: Pairs, key: Seq<u8>, j: int)
    requires
        0 <= j,
    ensures
        find_table(p, key, j) matches Some(i) ==> j <= i < p.len() && p[i].0 == key && p[i].1 is Tab,
    decreases p.len() - j,
{
    if j < p.len() && !(p[j].0 == key && p[j].1 is Tab) {
        lemma_find_table(p, key, j + 1);
    }
}

pub proof fn lemma_find_aot(p: Pairs, key: Seq<u8>, j: int)
    requires
        0 <= j,
    ensures
        find_aot(p, key, j) matches Some(i) ==> j <= i < p.len() && p[i].0 == key && p[i].1 is Arr
            && p[i].1->Arr_0.len() > 0 && p[i].1->Arr_0.last() is Tab,
    decreases p.len() - j,
{
    if j < p.len() && !(p[j].0 == key && p[j].1 is Arr && p[j].1->Arr_0.len() > 0 && p[j].1->Arr_0.last() is Tab) {
        lemma_find_aot(p, key, j + 1);
    }
}

/// The table under `key`: the first pair with that key and a table value,
/// or a new empty table appended under `key`. Gives the pairs and the index.
pub open spec fn spec_goc(p: Pairs, key: Seq<u8>) -> Result<(Pairs, int), ErrModel> {
    match find_table(p, key, 0) {
        Some(i) => Ok((p, i)),
        None => if find_key(p, key, 0) is Some {
            Err(key_err(TomlErrorKind::DuplicateKey, key))
        } else {
            Ok((p.push((key, TomlData::Tab(Seq::empty()))), p.len() as int))
        },
    }
}

/// Makes sure the tables along `path` exist.
pub open spec fn spec_ensure(p: Pairs, path: Seq<Seq<u8>>) -> Result<Pairs, ErrModel>
    decreases path.len(),
{
    if path.len() == 0 {
        Ok(p)
    } else {
        match spec_goc(p, path[0]) {
            Err(e) => Err(e),
            Ok((p1, i)) => match spec_ensure(tab_of(p1[i].1), path.drop_first()) {
                Ok(child) => Ok(p1.update(i, (p1[i].0, TomlData::Tab(child)))),
                Err(e) => Err(e),
            },
        }
    }
}

/// Inserts `v` at `path`, creating the tables along it; refuses an empty
/// path and a key already present in the last table.
pub open spec fn spec_insert_at(p: Pairs, path: Seq<Seq<u8>>, v: TomlData) -> (Pairs, Option<ErrModel>)
    decreases path.len(),
{
    if path.len() == 0 {
        (p, Some(key_err(TomlErrorKind::EmptyKeyPath, Seq::empty())))
    } else if path.len() == 1 {
        if find_key(p, path[0], 0) is Some {
            (p, Some(key_err(TomlErrorKind::DuplicateKey, path[0])))
        } else {
            (p.push((path[0], v)), None)
        }
    } else {
        match spec_goc(p, path[0]) {
            Err(x) => (p, Some(x)),
            Ok((p1, i)) => {
                let (c, e) = spec_insert_at(tab_of(p1[i].1), path.drop_first(), v);
                (p1.update(i, (p1[i].0, TomlData::Tab(c))), e)
            },
        }
    }
}

/// Appends an empty table to the array of tables at `path` (creating the
/// array if there is none); refuses a key that holds something else.
pub open spec fn spec_insert_aot(p: Pairs, path: Seq<Seq<u8>>) -> (Pairs, Option<ErrModel>)
    decreases path.len(),
{
    if path.len() <= 1 {
        let last = path[0];
        match find_key(p, last, 0) {
            Some(i) => match p[i].1 {
                TomlData::Arr(a) => (p.update(i, (p[i].0, TomlData::Arr(a.push(TomlData::Tab(Seq::empty()))))), None),
                _ => (p, Some(key_err(TomlErrorKind::NotArrayOfTables, last))),
            },
            None => (p.push((last, TomlData::Arr(seq![TomlData::Tab(Seq::empty())]))), None),
        }
    } else {
        match spec_goc(p, path[0]) {
            Err(x) => (p, Some(x)),
            Ok((p1, i)) => {
                let (c, e) = spec_insert_aot(tab_of(p1[i].1), path.drop_first());
                (p1.update(i, (p1[i].0, TomlData::Tab(c))), e)
            },
        }
    }
}

/// Inserts `v` at `keys` inside the last table of the array of tables at
/// `aot_path`.
pub open spec fn spec_insert_last_aot(p: Pairs, aot_path: Seq<Seq<u8>>, keys: Seq<Seq<u8>>, v: TomlData) -> (Pairs, Option<ErrModel>)
    decreases aot_path.len(),
{
    if aot_path.len() <= 1 {
        let last = aot_path[0];
        match find_aot(p, last, 0) {
            Some(i) => {
                let a = p[i].1->Arr_0;
                let (t, e) = spec_insert_at(tab_of(a.last()), keys, v);
                (p.update(i, (p[i].0, TomlData::Arr(a.update(a.len() - 1, TomlData::Tab(t))))), e)
            },
            None => (p, Some(key_err(TomlErrorKind::ArrayOfTablesNotFound, last))),
        }
    } else {
        match spec_goc(p, aot_path[0]) {
            Err(x) => (p, Some(x)),
            Ok((p1, i)) => {
                let (c, e) = spec_insert_last_aot(tab_of(p1[i].1), aot_path.drop_first(), keys, v);
                (p1.update(i, (p1[i].0, TomlData::Tab(c))), e)
            },
        }
    }
}

/// Tells whether two byte strings are equal.
pub fn bytes_eq(a: &[u8], b: &[u8]) -> (r: bool)
    ensures
        r == (a@ == b@),
{
    if a.len() != b.len() {
        return false;
    }
    let mut i: usize = 0;
    while i < a.len()
        invariant
            a.len() == b.len(),
            i <= a.len(),
            forall|j: int| 0 <= j < i ==> a@[j] == b@[j],
        decreases a.len() - i,
    {
        if a[i] != b[i] {
            return false;
        }
        i = i + 1;
    }
    assert(a@ =~= b@);
    true
}

pub proof fn lemma_pairs_view_push(p: Seq<(Vec<u8>, TomlValue)>, x: (Vec<u8>, TomlValue))
    ensures
        pairs_view(p.push(x)) == pairs_view(p).push((x.0@, x.1@)),
{
    assert(pairs_view(p.push(x)) =~= pairs_view(p).push((x.0@, x.1@)));
}

/// Takes the pair at `i` out of `pairs`, leaving a placeholder in its place.
fn take_pair(pairs: &mut Vec<(Vec<u8>, TomlValue)>, i: usize) -> (r: (Vec<u8>, TomlValue))
    requires
        i < old(pairs)@.len(),
    ensures
        r == old(pairs)@[i as int],
        final(pairs)@.len() == old(pairs)@.len(),
        forall|j: int| 0 <= j < old(pairs)@.len() && j != i ==> final(pairs)@[j] == old(pairs)@[j],
{
    let r = pairs.remove(i);
    pairs.insert(i, (Vec::new(), TomlValue::Bool(false)));
    r
}

/// Puts `x` at index `i` of `pairs` (after `take_pair`).
fn put_pair(pairs: &mut Vec<(Vec<u8>, TomlValue)>, i: usize, x: (Vec<u8>, TomlValue))
    requires
        i < old(pairs)@.len(),
    ensures
        final(pairs)@ == old(pairs)@.update(i as int, x),
{
    pairs.remove(i);
    pairs.insert(i, x);
    assert(final(pairs)@ =~= old(pairs)@.update(i as int, x));
}

/// Finds the table under `key` (the first pair with that key whose value
/// is a table), appending an empty one under `key` when the key is absent;
/// returns its index. A key that holds something else than a table is a
/// duplicate.
pub fn get_or_create_table(pairs: &mut Vec<(Vec<u8>, TomlValue)>, key: &[u8]) -> (r: Result<usize, TomlError>)
    ensures
        match spec_goc(pairs_view(old(pairs)@), key@) {
            Ok((p2, j)) => r matches Ok(idx) && idx as int == j && pairs_view(final(pairs)@) == p2
                && idx < final(pairs)@.len() && final(pairs)@[j].1 is Table,
            Err(m) => r matches Err(x) && x@ == m && final(pairs)@ == old(pairs)@,
        },
{
    let ghost p = pairs_view(pairs@);
    let mut i: usize = 0;
    while i < pairs.len()
        invariant
            i <= pairs@.len(),
            p == pairs_view(pairs@),
            pairs@ == old(pairs)@,
            find_table(p, key@, 0) == find_table(p, key@, i as int),
        decreases pairs@.len() - i,
    {
        let is_table = match &pairs[i].1 {
            TomlValue::Table(_) => true,
            _ => false,
        };
        proof {
            assert(p[i as int] == (pairs@[i as int].0@, pairs@[i as int].1@));
        }
        if bytes_eq(pairs[i].0.as_slice(), key) && is_table {
            proof {
                lemma_find_table(p, key@, 0);
            }
            return Ok(i);
        }
        i = i + 1;
    }
    if find_key_index(pairs, key).is_some() {
        return Err(key_error(TomlErrorKind::DuplicateKey, key));
    }
    let ghost before = pairs@;
    pairs.push((vstd::slice::slice_to_vec(key), TomlValue::Table(Vec::new())));
    proof {
        lemma_pairs_view_push(before, pairs@.last());
        assert(pairs_view(Seq::<(Vec<u8>, TomlValue)>::empty()) =~= Seq::empty());
    }
    Ok(pairs.len() - 1)
}

/// The pairs of a table value (none for another value).
fn into_table(v: TomlValue) -> (r: Vec<(Vec<u8>, TomlValue)>)
    ensures
        v is Table ==> v@ == TomlData::Tab(pairs_view(r@)),
{
    match v {
        TomlValue::Table(t) => t,
        _ => Vec::new(),
    }
}

/// Makes sure the tables along `path` exist (a `[header]` line).
pub fn ensure_table(root: &mut Vec<(Vec<u8>, TomlValue)>, path: &[Vec<u8>]) -> (r: Result<(), TomlError>)
    ensures
        match spec_ensure(pairs_view(old(root)@), keys_view(path@)) {
            Ok(p2) => r is Ok && pairs_view(final(root)@) == p2,
            Err(m) => r matches Err(x) && x@ == m,
        },
    decreases path@.len(),
{
    if path.len() == 0 {
        return Ok(());
    }
    let ghost kp = keys_view(path@);
    let ghost p0 = pairs_view(root@);
    let i = match get_or_create_table(root, path[0].as_slice()) {
        Ok(i) => i,
        Err(x) => return Err(x),
    };
    let ghost p1 = pairs_view(root@);
    proof {
        assert(kp[0] == path[0]@);
        assert(spec_goc(p0, kp[0]) == Ok::<(Pairs, int), ErrModel>((p1, i as int)));
    }
    let (k, v) = take_pair(root, i);
    let mut child = into_table(v);
    let rest = &path[1..path.len()];
    proof {
        assert(keys_view(rest@) =~= kp.drop_first());
    }
    let r = ensure_table(&mut child, rest);
    let ghost kk = k@;
    put_pair(root, i, (k, TomlValue::Table(child)));
    proof {
        assert(pairs_view(root@) =~= p1.update(i as int, (kk, TomlData::Tab(pairs_view(child@)))));
    }
    r
}

/// The error that names `key`.
fn key_error(kind: TomlErrorKind, key: &[u8]) -> (r: TomlError)
    ensures
        r@ == key_err(kind, key@),
{
    TomlError { kind, line: None, text: vstd::slice::slice_to_vec(key) }
}

/// The index of the first pair with key `key`, if any.
fn find_key_index(pairs: &Vec<(Vec<u8>, TomlValue)>, key: &[u8]) -> (r: Option<usize>)
    ensures
        r matches Some(i) ==> find_key(pairs_view(pairs@), key@, 0) == Some(i as int),
        r is None ==> find_key(pairs_view(pairs@), key@, 0) is None,
        r matches Some(i) ==> i < pairs@.len(),
{
    proof {
        lemma_find_key(pairs_view(pairs@), key@, 0);
    }
    let ghost p = pairs_view(pairs@);
    let mut i: usize = 0;
    while i < pairs.len()
        invariant
            i <= pairs@.len(),
            p == pairs_view(pairs@),
            find_key(p, key@, 0) == find_key(p, key@, i as int),
        decreases pairs@.len() - i,
    {
        if bytes_eq(pairs[i].0.as_slice(), key) {
            return Some(i);
        }
        i = i + 1;
    }
    None
}

/// Inserts `val` at `path` (a `key = value` line), creating the tables
/// along it; an empty path or a key already present is an error.
pub fn insert_at(root: &mut Vec<(Vec<u8>, TomlValue)>, path: &[Vec<u8>], val: TomlValue) -> (r: Result<(), TomlError>)
    ensures
        ({
            let (p2, e) = spec_insert_at(pairs_view(old(root)@), keys_view(path@), val@);
            &&& pairs_view(final(root)@) == p2
            &&& match (r, e) {
                (Ok(_), None) => true,
                (Err(x), Some(m)) => x@ == m,
                _ => false,
            }
        }),
    decreases path@.len(),
{
    let ghost kp = keys_view(path@);
    if path.len() == 0 {
        let empty: Vec<u8> = Vec::new();
        proof {
            assert(empty@ =~= Seq::<u8>::empty());
        }
        return Err(TomlError { kind: TomlErrorKind::EmptyKeyPath, line: None, text: empty });
    }
    if path.len() == 1 {
        let key = path[0].as_slice();
        if find_key_index(root, key).is_some() {
            return Err(key_error(TomlErrorKind::DuplicateKey, key));
        }
        let ghost before = root@;
        root.push((vstd::slice::slice_to_vec(key), val));
        proof {
            lemma_pairs_view_push(before, root@.last());
        }
        return Ok(());
    }
    let ghost p0 = pairs_view(root@);
    let i = match get_or_create_table(root, path[0].as_slice()) {
        Ok(i) => i,
        Err(x) => return Err(x),
    };
    let ghost p1 = pairs_view(root@);
    proof {
        assert(kp[0] == path[0]@);
        assert(spec_goc(p0, kp[0]) == Ok::<(Pairs, int), ErrModel>((p1, i as int)));
    }
    let (k, v) = take_pair(root, i);
    let mut child = into_table(v);
    let rest = &path[1..path.len()];
    proof {
        assert(keys_view(rest@) =~= kp.drop_first());
    }
    let r = insert_at(&mut child, rest, val);
    let ghost kk = k@;
    put_pair(root, i, (k, TomlValue::Table(child)));
    proof {
        assert(pairs_view(root@) =~= p1.update(i as int, (kk, TomlData::Tab(pairs_view(child@)))));
    }
    r
}

/// Appends an empty table to the array of tables at `path` (a
/// `[[header]]` line), creating the array when there is none.
pub fn insert_aot(root: &mut Vec<(Vec<u8>, TomlValue)>, path: &[Vec<u8>]) -> (r: Result<(), TomlError>)
    requires
        path@.len() >= 1,
    ensures
        ({
            let (p2, e) = spec_insert_aot(pairs_view(old(root)@), keys_view(path@));
            &&& pairs_view(final(root)@) == p2
            &&& match (r, e) {
                (Ok(_), None) => true,
                (Err(x), Some(m)) => x@ == m,
                _ => false,
            }
        }),
    decreases path@.len(),
{
    let ghost kp = keys_view(path@);
    if path.len() == 1 {
        let last = path[0].as_slice();
        let ghost p = pairs_view(root@);
        match find_key_index(root, last) {
            Some(i) => {
                let (k, v) = take_pair(root, i);
                proof {
                    assert(kp[0] == last@);
                    assert(p[i as int] == (k@, v@));
                    lemma_find_key(p, last@, 0);
                }
                match v {
                    TomlValue::Array(mut arr) => {
                        let ghost a = items_view(arr@);
                        proof {
                            lemma_array_view(arr);
                        }
                        arr.push(TomlValue::Table(Vec::new()));
                        proof {
                            assert(pairs_view(Seq::<(Vec<u8>, TomlValue)>::empty()) =~= Seq::empty());
                            assert(items_view(arr@) =~= a.push(TomlData::Tab(Seq::empty())));
                            lemma_array_view(arr);
                        }
                        let ghost kk = k@;
                        put_pair(root, i, (k, TomlValue::Array(arr)));
                        proof {
                            assert(pairs_view(root@) =~= p.update(i as int, (kk, TomlData::Arr(a.push(TomlData::Tab(Seq::empty()))))));
                            assert(find_key(p, kp[0], 0) == Some(i as int));
                            assert(p[i as int].1 == TomlData::Arr(a));
                            assert(spec_insert_aot(p, kp).1 is None);
                            assert(spec_insert_aot(p, kp).0 == pairs_view(root@));
                        }
                        return Ok(());
                    },
                    other => {
                        proof {
                            assert(!(other@ is Arr));
                        }
                        put_pair(root, i, (k, other));
                        proof {
                            assert(pairs_view(root@) =~= p);
                        }
                        return Err(key_error(TomlErrorKind::NotArrayOfTables, last));
                    },
                }
            },
            None => {
                proof {
                    assert(kp[0] == last@);
                }
                let ghost before = root@;
                let mut arr: Vec<TomlValue> = Vec::new();
                arr.push(TomlValue::Table(Vec::new()));
                proof {
                    assert(pairs_view(Seq::<(Vec<u8>, TomlValue)>::empty()) =~= Seq::empty());
                    assert(items_view(arr@) =~= seq![TomlData::Tab(Seq::empty())]);
                    lemma_array_view(arr);
                }
                root.push((vstd::slice::slice_to_vec(last), TomlValue::Array(arr)));
                proof {
                    lemma_pairs_view_push(before, root@.last());
                }
                return Ok(());
            },
        }
    }
    let ghost p0 = pairs_view(root@);
    let i = match get_or_create_table(root, path[0].as_slice()) {
        Ok(i) => i,
        Err(x) => return Err(x),
    };
    let ghost p1 = pairs_view(root@);
    proof {
        assert(kp[0] == path[0]@);
        assert(spec_goc(p0, kp[0]) == Ok::<(Pairs, int), ErrModel>((p1, i as int)));
    }
    let (k, v) = take_pair(root, i);
    let mut child = into_table(v);
    let rest = &path[1..path.len()];
    proof {
        assert(keys_view(rest@) =~= kp.drop_first());
    }
    let r = insert_aot(&mut child, rest);
    let ghost kk = k@;
    put_pair(root, i, (k, TomlValue::Table(child)));
    proof {
        assert(pairs_view(root@) =~= p1.update(i as int, (kk, TomlData::Tab(pairs_view(child@)))));
    }
    r
}

/// The index of the first pair with key `key` whose value is an array
/// ending with a table, if any.
fn find_aot_index(pairs: &Vec<(Vec<u8>, TomlValue)>, key: &[u8]) -> (r: Option<usize>)
    ensures
        r matches Some(i) ==> find_aot(pairs_view(pairs@), key@, 0) == Some(i as int),
        r is None ==> find_aot(pairs_view(pairs@), key@, 0) is None,
        r matches Some(i) ==> i < pairs@.len() && pairs@[i as int].1 is Array
            && pairs@[i as int].1->Array_0@.len() > 0,
{
    proof {
        lemma_find_aot(pairs_view(pairs@), key@, 0);
    }
    let ghost p = pairs_view(pairs@);
    let mut i: usize = 0;
    while i < pairs.len()
        invariant
            i <= pairs@.len(),
            p == pairs_view(pairs@),
            find_aot(p, key@, 0) == find_aot(p, key@, i as int),
        decreases pairs@.len() - i,
    {
        let ends_with_table = match &pairs[i].1 {
            TomlValue::Array(arr) => {
                proof {
                    lemma_array_view(*arr);
                }
                arr.len() > 0 && match &arr[arr.len() - 1] {
                    TomlValue::Table(_) => true,
                    _ => false,
                }
            },
            _ => false,
        };
        if bytes_eq(pairs[i].0.as_slice(), key) && ends_with_table {
            return Some(i);
        }
        i = i + 1;
    }
    None
}

/// Inserts `val` at `key_parts` inside the last table of the array of
/// tables at `aot_path` (a `key = value` line after a `[[header]]`).
pub fn insert_into_last_aot(
    root: &mut Vec<(Vec<u8>, TomlValue)>,
    aot_path: &[Vec<u8>],
    key_parts: Vec<Vec<u8>>,
    val: TomlValue,
) -> (r: Result<(), TomlError>)
    requires
        aot_path@.len() >= 1,
    ensures
        ({
            let (p2, e) = spec_insert_last_aot(pairs_view(old(root)@), keys_view(aot_path@), keys_view(key_parts@), val@);
            &&& pairs_view(final(root)@) == p2
            &&& match (r, e) {
                (Ok(_), None) => true,
                (Err(x), Some(m)) => x@ == m,
                _ => false,
            }
        }),
    decreases aot_path@.len(),
{
    let ghost kp = keys_view(aot_path@);
    if aot_path.len() == 1 {
        let last = aot_path[0].as_slice();
        let ghost p = pairs_view(root@);
        match find_aot_index(root, last) {
            Some(i) => {
                let (k, v) = take_pair(root, i);
                let mut arr = match v {
                    TomlValue::Array(arr) => arr,
                    _ => Vec::new(),
                };
                proof {
                    lemma_array_view(arr);
                }
                let ghost a = items_view(arr@);
                proof {
                    assert(kp[0] == last@);
                    assert(p[i as int] == (k@, TomlValue::Array(arr)@));
                    lemma_find_aot(p, last@, 0);
                    assert(a.last() == arr@.last()@);
                }
                let last_value = arr.pop().unwrap();
                proof {
                    assert(last_value@ is Tab);
                    assert(last_value is Table);
                }
                let mut t = into_table(last_value);
                let r = insert_at(&mut t, key_parts.as_slice(), val);
                arr.push(TomlValue::Table(t));
                proof {
                    assert(items_view(arr@) =~= a.update(a.len() - 1, TomlData::Tab(pairs_view(t@))));
                    lemma_array_view(arr);
                }
                let ghost kk = k@;
                put_pair(root, i, (k, TomlValue::Array(arr)));
                proof {
                    assert(pairs_view(root@) =~= p.update(i as int, (kk, TomlData::Arr(a.update(a.len() - 1, TomlData::Tab(pairs_view(t@)))))));
                }
                return r;
            },
            None => {
                return Err(key_error(TomlErrorKind::ArrayOfTablesNotFound, last));
            },
        }
    }
    let ghost p0 = pairs_view(root@);
    let i = match get_or_create_table(root, aot_path[0].as_slice()) {
        Ok(i) => i,
        Err(x) => return Err(x),
    };
    let ghost p1 = pairs_view(root@);
    proof {
        assert(kp[0] == aot_path[0]@);
        assert(spec_goc(p0, kp[0]) == Ok::<(Pairs, int), ErrModel>((p1, i as int)));
    }
    let (k, v) = take_pair(root, i);
    let mut child = into_table(v);
    let rest = &aot_path[1..aot_path.len()];
    proof {
        assert(keys_view(rest@) =~= kp.drop_first());
    }
    let r = insert_into_last_aot(&mut child, rest, key_parts, val);
    let ghost kk = k@;
    put_pair(root, i, (k, TomlValue::Table(child)));
    proof {
        assert(pairs_view(root@) =~= p1.update(i as int, (kk, TomlData::Tab(pairs_view(child@)))));
    }
    r
}

// ─── Documents ───────────────────────────────────────────────────────────────

/// Where the rest of a line stops being read: after blanks, a comment, and
/// one newline or carriage return.
pub open spec fn line_tail(s: Seq<u8>, q: int) -> int {
    let q1 = blank_end(s, q);
    let q2 = if at(s, q1) == Some(35u8) {
        comment_end(s, q1)
    } else {
        q1
    };
    if at(s, q2) == Some(10u8) || at(s, q2) == Some(13u8) {
        q2 + 1
    } else {
        q2
    }
}

pub proof fn lemma_line_tail(s: Seq<u8>, q: int)
    requires
        0 <= q <= s.len(),
    ensures
        q <= line_tail(s, q) <= s.len(),
{
    lemma_blank_end(s, q);
    let q1 = blank_end(s, q);
    lemma_comment_end(s, q1);
}

/// The state of a document being read: the position, the tables read so
/// far, the path of the current `[header]`, and whether it named an array
/// of tables.
pub type DocState = (int, Pairs, Seq<Seq<u8>>, bool);

/// Reading a `[header]` or `[[header]]` line whose bracket is at `q`.
#[verifier::opaque]
pub open spec fn spec_header(s: Seq<u8>, q: int, root: Pairs) -> Result<DocState, ErrModel> {
    if at(s, q + 1) == Some(91u8) {
        match spec_key(s, q + 2) {
            Err(e) => Err(e),
            Ok((k, q2)) => match spec_expect(s, blank_end(s, q2), 93u8) {
                Err(e) => Err(e),
                Ok(q4) => match spec_expect(s, q4, 93u8) {
                    Err(e) => Err(e),
                    Ok(q5) => {
                        let (r2, e) = spec_insert_aot(root, k);
                        match e {
                            Some(x) => Err(x),
                            None => Ok((line_tail(s, q5), r2, k, true)),
                        }
                    },
                },
            },
        }
    } else {
        match spec_key(s, q + 1) {
            Err(e) => Err(e),
            Ok((k, q2)) => match spec_expect(s, blank_end(s, q2), 93u8) {
                Err(e) => Err(e),
                Ok(q4) => match spec_ensure(root, k) {
                    Ok(r2) => Ok((line_tail(s, q4), r2, k, false)),
                    Err(e) => Err(e),
                },
            },
        }
    }
}

/// Reading a `key = value` line that starts at `q`; the pair goes under the
/// current header (into the last table of an array of tables when `aot`).
#[verifier::opaque]
pub open spec fn spec_pair_line(s: Seq<u8>, q: int, root: Pairs, cur: Seq<Seq<u8>>, aot: bool) -> Result<(int, Pairs), ErrModel> {
    match spec_key(s, q) {
        Err(e) => Err(e),
        Ok((kp, q1)) => match spec_expect(s, blank_end(s, q1), 61u8) {
            Err(e) => Err(e),
            Ok(q3) => match spec_value(s, blank_end(s, q3)) {
                Err(e) => Err(e),
                Ok((v, q5)) => {
                    let (r2, e) = if aot {
                        spec_insert_last_aot(root, cur, kp, v)
                    } else {
                        spec_insert_at(root, cur + kp, v)
                    };
                    match e {
                        Some(x) => Err(x),
                        None => Ok((line_tail(s, q5), r2)),
                    }
                },
            },
        },
    }
}

/// Reading one line (or the blanks before the end) from `p`.
pub open spec fn spec_doc_step(s: Seq<u8>, p: int, root: Pairs, cur: Seq<Seq<u8>>, aot: bool) -> Result<DocState, ErrModel> {
    let q = blank_end(s, p);
    match at(s, q) {
        None => Ok((q, root, cur, aot)),
        Some(b) => if b == 35u8 {
            Ok((comment_end(s, q), root, cur, aot))
        } else if b == 10u8 || b == 13u8 {
            Ok((q + 1, root, cur, aot))
        } else if b == 91u8 {
            spec_header(s, q, root)
        } else {
            match spec_pair_line(s, q, root, cur, aot) {
                Ok((q2, r2)) => Ok((q2, r2, cur, aot)),
                Err(e) => Err(e),
            }
        },
    }
}

/// Reading the rest of a document from `p`.
pub open spec fn spec_doc(s: Seq<u8>, p: int, root: Pairs, cur: Seq<Seq<u8>>, aot: bool) -> Result<Pairs, ErrModel>
    decreases s.len() - p,
{
    if p < 0 || p >= s.len() {
        Ok(root)
    } else {
        match spec_doc_step(s, p, root, cur, aot) {
            Err(e) => Err(e),
            Ok((q, r2, c2, a2)) => if q <= p || q > s.len() {
                Err(stuck())
            } else {
                spec_doc(s, q, r2, c2, a2)
            },
        }
    }
}

/// Reading a whole document: its top-level pairs.
pub open spec fn spec_document(s: Seq<u8>) -> Result<Pairs, ErrModel> {
    spec_doc(s, space_end(s, 0), Seq::empty(), Seq::empty(), false)
}

/// A parsed document: its top-level key/value pairs in order.
#[derive(Debug)]
pub struct Document {
    pub root: Vec<(Vec<u8>, TomlValue)>,
}

/// A copy of a list of byte vectors.
fn clone_path(path: &Vec<Vec<u8>>) -> (r: Vec<Vec<u8>>)
    ensures
        keys_view(r@) == keys_view(path@),
        r@.len() == path@.len(),
{
    let mut out: Vec<Vec<u8>> = Vec::new();
    let mut i: usize = 0;
    while i < path.len()
        invariant
            i <= path@.len(),
            out@.len() == i,
            forall|j: int| 0 <= j < i ==> out@[j]@ == path@[j]@,
        decreases path@.len() - i,
    {
        out.push(vstd::slice::slice_to_vec(path[i].as_slice()));
        i = i + 1;
    }
    assert(keys_view(out@) =~= keys_view(path@));
    out
}

impl<'a> Parser<'a> {
    /// Reads the rest of a line: blanks, a comment, one line break.
    fn finish_line(&mut self)
        requires
            old(self).wf(),
        ensures
            final(self).moved_on(*old(self)),
            final(self).pos == line_tail(old(self).src@, old(self).pos as int),
    {
        proof {
            lemma_line_tail(self.src@, self.pos as int);
        }
        self.skip_whitespace();
        if self.peek() == Some(35u8) {
            self.skip_comment();
        }
        let nx = self.peek();
        if nx == Some(10u8) || nx == Some(13u8) {
            self.advance();
        }
    }

    /// Reads a `[header]` or `[[header]]` line whose bracket is at the
    /// current position, and records it in `root`, `current_path` and
    /// `in_array_table`.
    fn parse_header(
        &mut self,
        root: &mut Vec<(Vec<u8>, TomlValue)>,
        current_path: &mut Vec<Vec<u8>>,
        in_array_table: &mut bool,
    ) -> (r: Result<(), TomlError>)
        requires
            old(self).wf(),
            at(old(self).src@, old(self).pos as int) == Some(91u8),
        ensures
            final(self).moved_on(*old(self)),
            match (r, spec_header(old(self).src@, old(self).pos as int, pairs_view(old(root)@))) {
                (Ok(_), Ok((q, r2, c2, a2))) => final(self).pos == q && pairs_view(final(root)@) == r2
                    && keys_view(final(current_path)@) == c2 && *final(in_array_table) == a2
                    && final(current_path)@.len() >= 1 && old(self).pos < final(self).pos,
                (Err(x), Err(e)) => x@ == e,
                _ => false,
            },
    {
        reveal(spec_header);
        self.advance();
        if self.peek() == Some(91u8) {
            self.advance();
            let key = self.parse_key()?;
            self.skip_whitespace();
            self.expect(93u8)?;
            self.expect(93u8)?;
            *current_path = key;
            *in_array_table = true;
            insert_aot(root, current_path.as_slice())?;
        } else {
            let key = self.parse_key()?;
            self.skip_whitespace();
            self.expect(93u8)?;
            *current_path = key;
            *in_array_table = false;
            ensure_table(root, current_path.as_slice())?;
        }
        self.finish_line();
        Ok(())
    }

    /// Reads a `key = value` line and inserts the pair under the current
    /// header.
    fn parse_pair_line(
        &mut self,
        root: &mut Vec<(Vec<u8>, TomlValue)>,
        current_path: &Vec<Vec<u8>>,
        in_array_table: bool,
    ) -> (r: Result<(), TomlError>)
        requires
            old(self).wf(),
            in_array_table ==> current_path@.len() >= 1,
        ensures
            final(self).moved_on(*old(self)),
            match (r, spec_pair_line(old(self).src@, old(self).pos as int, pairs_view(old(root)@), keys_view(current_path@), in_array_table)) {
                (Ok(_), Ok((q, r2))) => final(self).pos == q && pairs_view(final(root)@) == r2
                    && old(self).pos < final(self).pos,
                (Err(x), Err(e)) => x@ == e,
                _ => false,
            },
    {
        reveal(spec_pair_line);
        let key_parts = self.parse_key()?;
        self.skip_whitespace();
        self.expect(61u8)?;
        self.skip_whitespace();
        let val = self.parse_value()?;
        self.finish_line();
        let mut full_path = clone_path(current_path);
        let ghost kp = keys_view(key_parts@);
        let ghost cp = keys_view(current_path@);
        if in_array_table {
            insert_into_last_aot(root, current_path.as_slice(), key_parts, val)
        } else {
            let mut kparts = key_parts;
            full_path.append(&mut kparts);
            proof {
                assert(keys_view(full_path@) =~= cp + kp);
            }
            insert_at(root, full_path.as_slice(), val)
        }
    }
}

impl Document {
    /// Parses a whole TOML document: `key = value` lines, `[table]` and
    /// `[[array of tables]]` headers, comments and blank lines.
    pub fn parse(src: &[u8]) -> (r: Result<Document, TomlError>)
        requires
            src@.len() < usize::MAX,
        ensures
            match (r, spec_document(src@)) {
                (Ok(d), Ok(m)) => pairs_view(d.root@) == m,
                (Err(x), Err(e)) => x@ == e,
                _ => false,
            },
    {
        let ghost s = src@;
        let mut p = Parser::new(src);
        let mut root: Vec<(Vec<u8>, TomlValue)> = Vec::new();
        let mut current_path: Vec<Vec<u8>> = Vec::new();
        let mut in_array_table: bool = false;
        proof {
            assert(pairs_view(root@) =~= Seq::empty());
            assert(keys_view(current_path@) =~= Seq::empty());
        }
        p.skip_whitespace_and_newlines();
        while p.pos < p.src.len()
            invariant
                p.wf(),
                p.src@ == s,
                src@ == s,
                in_array_table ==> current_path@.len() >= 1,
                spec_document(s) == spec_doc(s, p.pos as int, pairs_view(root@), keys_view(current_path@), in_array_table),
            ensures
                spec_document(s) == Ok::<Pairs, ErrModel>(pairs_view(root@)),
            decreases p.src@.len() - p.pos,
        {
            let ghost p0 = p.pos as int;
            let ghost r0 = pairs_view(root@);
            let ghost c0 = keys_view(current_path@);
            let ghost a0 = in_array_table;
            proof {
                lemma_blank_end(s, p0);
            }
            p.skip_whitespace();
            let ghost q = p.pos as int;
            match p.peek() {
                Some(b) => {
                    if b == 35u8 {
                        proof {
                            lemma_comment_end(s, q);
                        }
                        p.skip_comment();
                    } else if b == 10u8 || b == 13u8 {
                        p.advance();
                    } else if b == 91u8 {
                        proof {
                            assert(spec_doc_step(s, p0, r0, c0, a0) == spec_header(s, q, r0));
                        }
                        match p.parse_header(&mut root, &mut current_path, &mut in_array_table) {
                            Ok(_) => {},
                            Err(e) => {
                                proof {
                                    assert(spec_doc(s, p0, r0, c0, a0) == Err::<Pairs, ErrModel>(e@));
                                }
                                return Err(e);
                            },
                        }
                    } else {
                        proof {
                            assert(spec_doc_step(s, p0, r0, c0, a0) == match spec_pair_line(s, q, r0, c0, a0) {
                                Ok((q2, r2)) => Ok((q2, r2, c0, a0)),
                                Err(e) => Err(e),
                            });
                        }
                        match p.parse_pair_line(&mut root, &current_path, in_array_table) {
                            Ok(_) => {},
                            Err(e) => {
                                proof {
                                    assert(spec_doc(s, p0, r0, c0, a0) == Err::<Pairs, ErrModel>(e@));
                                }
                                return Err(e);
                            },
                        }
                    }
                },
                None => {
                    proof {
                        assert(spec_doc_step(s, p0, r0, c0, a0) == Ok::<DocState, ErrModel>((q, r0, c0, a0)));
                        assert(spec_doc(s, q, r0, c0, a0) == Ok::<Pairs, ErrModel>(r0));
                        assert(spec_doc(s, p0, r0, c0, a0) == Ok::<Pairs, ErrModel>(r0));
                    }
                    break;
                },
            }
        }
        Ok(Document { root })
    }
}


// ─── Error messages ──────────────────────────────────────────────────────────

/// A byte as the character of that code, in UTF-8.
pub open spec fn char_text(c: u8) -> Seq<u8> {
    if c < 128 {
        seq![c]
    } else {
        seq![(0xC0 + c / 64) as u8, (0x80 + c % 64) as u8]
    }
}

fn push_char(out: &mut Vec<u8>, c: u8)
    ensures
        final(out)@ == old(out)@ + char_text(c),
{
    if c < 128 {
        out.push(c);
        proof {
            assert(final(out)@ =~= old(out)@ + char_text(c));
        }
    } else {
        out.push(0xC0 + c / 64);
        out.push(0x80 + c % 64);
        proof {
            assert(final(out)@ =~= old(out)@ + char_text(c));
        }
    }
}

/// What an error says, after the line it was found on.
pub open spec fn spec_error_text(e: ErrModel) -> Seq<u8> {
    match e.kind {
        TomlErrorKind::ExpectedGot { expected, got } => seq![101u8, 120u8, 112u8, 101u8, 99u8, 116u8, 101u8, 100u8, 32u8, 39u8] + char_text(expected) + seq![39u8, 32u8, 103u8, 111u8, 116u8, 32u8, 39u8] + char_text(got) + seq![39u8],
        TomlErrorKind::ExpectedGotEof { expected } => seq![101u8, 120u8, 112u8, 101u8, 99u8, 116u8, 101u8, 100u8, 32u8, 39u8] + char_text(expected) + seq![39u8, 32u8, 103u8, 111u8, 116u8, 32u8, 69u8, 79u8, 70u8],
        TomlErrorKind::InvalidKeyChar(c) => seq![105u8, 110u8, 118u8, 97u8, 108u8, 105u8, 100u8, 32u8, 107u8, 101u8, 121u8, 32u8, 99u8, 104u8, 97u8, 114u8, 97u8, 99u8, 116u8, 101u8, 114u8, 32u8, 39u8] + char_text(c) + seq![39u8],
        TomlErrorKind::EofInKey => seq![117u8, 110u8, 101u8, 120u8, 112u8, 101u8, 99u8, 116u8, 101u8, 100u8, 32u8, 69u8, 79u8, 70u8, 32u8, 105u8, 110u8, 32u8, 107u8, 101u8, 121u8],
        TomlErrorKind::UnterminatedString => seq![117u8, 110u8, 116u8, 101u8, 114u8, 109u8, 105u8, 110u8, 97u8, 116u8, 101u8, 100u8, 32u8, 115u8, 116u8, 114u8, 105u8, 110u8, 103u8],
        TomlErrorKind::NewlineInBasicString => seq![110u8, 101u8, 119u8, 108u8, 105u8, 110u8, 101u8, 32u8, 105u8, 110u8, 32u8, 98u8, 97u8, 115u8, 105u8, 99u8, 32u8, 115u8, 116u8, 114u8, 105u8, 110u8, 103u8],
        TomlErrorKind::UnterminatedMultiLineString => seq![117u8, 110u8, 116u8, 101u8, 114u8, 109u8, 105u8, 110u8, 97u8, 116u8, 101u8, 100u8, 32u8, 109u8, 117u8, 108u8, 116u8, 105u8, 45u8, 108u8, 105u8, 110u8, 101u8, 32u8, 115u8, 116u8, 114u8, 105u8, 110u8, 103u8],
        TomlErrorKind::InvalidEscape(c) => seq![105u8, 110u8, 118u8, 97u8, 108u8, 105u8, 100u8, 32u8, 101u8, 115u8, 99u8, 97u8, 112u8, 101u8, 32u8, 39u8, 92u8] + char_text(c) + seq![39u8],
        TomlErrorKind::EofInEscape => seq![69u8, 79u8, 70u8, 32u8, 105u8, 110u8, 32u8, 101u8, 115u8, 99u8, 97u8, 112u8, 101u8],
        TomlErrorKind::InvalidHexDigit(c) => seq![105u8, 110u8, 118u8, 97u8, 108u8, 105u8, 100u8, 32u8, 104u8, 101u8, 120u8, 32u8, 100u8, 105u8, 103u8, 105u8, 116u8, 32u8, 39u8] + char_text(c) + seq![39u8],
        TomlErrorKind::EofInUnicodeEscape => seq![69u8, 79u8, 70u8, 32u8, 105u8, 110u8, 32u8, 117u8, 110u8, 105u8, 99u8, 111u8, 100u8, 101u8, 32u8, 101u8, 115u8, 99u8, 97u8, 112u8, 101u8],
        TomlErrorKind::UnterminatedLiteralString => seq![117u8, 110u8, 116u8, 101u8, 114u8, 109u8, 105u8, 110u8, 97u8, 116u8, 101u8, 100u8, 32u8, 108u8, 105u8, 116u8, 101u8, 114u8, 97u8, 108u8, 32u8, 115u8, 116u8, 114u8, 105u8, 110u8, 103u8],
        TomlErrorKind::NewlineInLiteralString => seq![110u8, 101u8, 119u8, 108u8, 105u8, 110u8, 101u8, 32u8, 105u8, 110u8, 32u8, 108u8, 105u8, 116u8, 101u8, 114u8, 97u8, 108u8, 32u8, 115u8, 116u8, 114u8, 105u8, 110u8, 103u8],
        TomlErrorKind::UnterminatedMultiLineLiteralString => seq![117u8, 110u8, 116u8, 101u8, 114u8, 109u8, 105u8, 110u8, 97u8, 116u8, 101u8, 100u8, 32u8, 109u8, 117u8, 108u8, 116u8, 105u8, 45u8, 108u8, 105u8, 110u8, 101u8, 32u8, 108u8, 105u8, 116u8, 101u8, 114u8, 97u8, 108u8, 32u8, 115u8, 116u8, 114u8, 105u8, 110u8, 103u8],
        TomlErrorKind::InvalidToken => seq![105u8, 110u8, 118u8, 97u8, 108u8, 105u8, 100u8, 32u8, 116u8, 111u8, 107u8, 101u8, 110u8, 32u8, 39u8] + crate::toml_writer::utf8_lossy(e.text) + seq![39u8],
        TomlErrorKind::EmptyInteger => seq![101u8, 109u8, 112u8, 116u8, 121u8, 32u8, 105u8, 110u8, 116u8, 101u8, 103u8, 101u8, 114u8, 32u8, 108u8, 105u8, 116u8, 101u8, 114u8, 97u8, 108u8],
        TomlErrorKind::UnexpectedCharInValue(c) => seq![117u8, 110u8, 101u8, 120u8, 112u8, 101u8, 99u8, 116u8, 101u8, 100u8, 32u8, 99u8, 104u8, 97u8, 114u8, 97u8, 99u8, 116u8, 101u8, 114u8, 32u8, 39u8] + char_text(c) + seq![39u8, 32u8, 105u8, 110u8, 32u8, 118u8, 97u8, 108u8, 117u8, 101u8],
        TomlErrorKind::EofInValue => seq![117u8, 110u8, 101u8, 120u8, 112u8, 101u8, 99u8, 116u8, 101u8, 100u8, 32u8, 69u8, 79u8, 70u8, 32u8, 105u8, 110u8, 32u8, 118u8, 97u8, 108u8, 117u8, 101u8],
        TomlErrorKind::ExpectedCommaOrBracket(c) => seq![101u8, 120u8, 112u8, 101u8, 99u8, 116u8, 101u8, 100u8, 32u8, 39u8, 44u8, 39u8, 32u8, 111u8, 114u8, 32u8, 39u8, 93u8, 39u8, 32u8, 105u8, 110u8, 32u8, 97u8, 114u8, 114u8, 97u8, 121u8, 44u8, 32u8, 103u8, 111u8, 116u8, 32u8, 39u8] + char_text(c) + seq![39u8],
        TomlErrorKind::EofInArray => seq![69u8, 79u8, 70u8, 32u8, 105u8, 110u8, 32u8, 97u8, 114u8, 114u8, 97u8, 121u8],
        TomlErrorKind::ExpectedCommaOrBrace(c) => seq![101u8, 120u8, 112u8, 101u8, 99u8, 116u8, 101u8, 100u8, 32u8, 39u8, 44u8, 39u8, 32u8, 111u8, 114u8, 32u8, 39u8, 125u8, 39u8, 32u8, 105u8, 110u8, 32u8, 105u8, 110u8, 108u8, 105u8, 110u8, 101u8, 32u8, 116u8, 97u8, 98u8, 108u8, 101u8, 44u8, 32u8, 103u8, 111u8, 116u8, 32u8, 39u8] + char_text(c) + seq![39u8],
        TomlErrorKind::EofInInlineTable => seq![69u8, 79u8, 70u8, 32u8, 105u8, 110u8, 32u8, 105u8, 110u8, 108u8, 105u8, 110u8, 101u8, 32u8, 116u8, 97u8, 98u8, 108u8, 101u8],
        TomlErrorKind::NotArrayOfTables => seq![107u8, 101u8, 121u8, 32u8, 39u8] + crate::toml_writer::utf8_lossy(e.text) + seq![39u8, 32u8, 105u8, 115u8, 32u8, 110u8, 111u8, 116u8, 32u8, 97u8, 110u8, 32u8, 97u8, 114u8, 114u8, 97u8, 121u8, 32u8, 111u8, 102u8, 32u8, 116u8, 97u8, 98u8, 108u8, 101u8, 115u8],
        TomlErrorKind::ArrayOfTablesNotFound => seq![97u8, 114u8, 114u8, 97u8, 121u8, 45u8, 111u8, 102u8, 45u8, 116u8, 97u8, 98u8, 108u8, 101u8, 115u8, 32u8, 39u8] + crate::toml_writer::utf8_lossy(e.text) + seq![39u8, 32u8, 110u8, 111u8, 116u8, 32u8, 102u8, 111u8, 117u8, 110u8, 100u8],
        TomlErrorKind::DuplicateKey => seq![100u8, 117u8, 112u8, 108u8, 105u8, 99u8, 97u8, 116u8, 101u8, 32u8, 107u8, 101u8, 121u8, 32u8, 39u8] + crate::toml_writer::utf8_lossy(e.text) + seq![39u8],
        TomlErrorKind::EmptyKeyPath => seq![101u8, 109u8, 112u8, 116u8, 121u8, 32u8, 107u8, 101u8, 121u8, 32u8, 112u8, 97u8, 116u8, 104u8],
    }
}

/// The message of an error: `line N: ` when it has a line, then what it
/// says (the token or key it names as `String::from_utf8_lossy` shows it).
pub open spec fn spec_error_message(e: ErrModel) -> Seq<u8> {
    match e.line {
        Some(n) => seq![108u8, 105u8, 110u8, 101u8, 32u8] + crate::lobject::spec_digits(n as nat) + seq![58u8, 32u8] + spec_error_text(e),
        None => spec_error_text(e),
    }
}

impl TomlError {
    /// The message the error is reported with (see `spec_error_message`).
    pub fn message(&self) -> (r: Vec<u8>)
        ensures
            r@ == spec_error_message(self@),
    {
        let mut out: Vec<u8> = Vec::new();
        match self.line {
            Some(n) => {
                crate::toml_writer::append(&mut out, &[108u8, 105u8, 110u8, 101u8, 32u8]);
                crate::lobject::push_digits(n as u64, &mut out);
                crate::toml_writer::append(&mut out, &[58u8, 32u8]);
            },
            None => {},
        }
        let ghost head = out@;
        match &self.kind {
            TomlErrorKind::ExpectedGot { expected, got } => {
                crate::toml_writer::append(&mut out, &[101u8, 120u8, 112u8, 101u8, 99u8, 116u8, 101u8, 100u8, 32u8, 39u8]);
                push_char(&mut out, *expected);
                crate::toml_writer::append(&mut out, &[39u8, 32u8, 103u8, 111u8, 116u8, 32u8, 39u8]);
                push_char(&mut out, *got);
                crate::toml_writer::append(&mut out, &[39u8]);
            },
            TomlErrorKind::ExpectedGotEof { expected } => {
                crate::toml_writer::append(&mut out, &[101u8, 120u8, 112u8, 101u8, 99u8, 116u8, 101u8, 100u8, 32u8, 39u8]);
                push_char(&mut out, *expected);
                crate::toml_writer::append(&mut out, &[39u8, 32u8, 103u8, 111u8, 116u8, 32u8, 69u8, 79u8, 70u8]);
            },
            TomlErrorKind::InvalidKeyChar(c) => {
                crate::toml_writer::append(&mut out, &[105u8, 110u8, 118u8, 97u8, 108u8, 105u8, 100u8, 32u8, 107u8, 101u8, 121u8, 32u8, 99u8, 104u8, 97u8, 114u8, 97u8, 99u8, 116u8, 101u8, 114u8, 32u8, 39u8]);
                push_char(&mut out, *c);
                crate::toml_writer::append(&mut out, &[39u8]);
            },
            TomlErrorKind::EofInKey => {
                crate::toml_writer::append(&mut out, &[117u8, 110u8, 101u8, 120u8, 112u8, 101u8, 99u8, 116u8, 101u8, 100u8, 32u8, 69u8, 79u8, 70u8, 32u8, 105u8, 110u8, 32u8, 107u8, 101u8, 121u8]);
            },
            TomlErrorKind::UnterminatedString => {
                crate::toml_writer::append(&mut out, &[117u8, 110u8, 116u8, 101u8, 114u8, 109u8, 105u8, 110u8, 97u8, 116u8, 101u8, 100u8, 32u8, 115u8, 116u8, 114u8, 105u8, 110u8, 103u8]);
            },
            TomlErrorKind::NewlineInBasicString => {
                crate::toml_writer::append(&mut out, &[110u8, 101u8, 119u8, 108u8, 105u8, 110u8, 101u8, 32u8, 105u8, 110u8, 32u8, 98u8, 97u8, 115u8, 105u8, 99u8, 32u8, 115u8, 116u8, 114u8, 105u8, 110u8, 103u8]);
            },
            TomlErrorKind::UnterminatedMultiLineString => {
                crate::toml_writer::append(&mut out, &[117u8, 110u8, 116u8, 101u8, 114u8, 109u8, 105u8, 110u8, 97u8, 116u8, 101u8, 100u8, 32u8, 109u8, 117u8, 108u8, 116u8, 105u8, 45u8, 108u8, 105u8, 110u8, 101u8, 32u8, 115u8, 116u8, 114u8, 105u8, 110u8, 103u8]);
            },
            TomlErrorKind::InvalidEscape(c) => {
                crate::toml_writer::append(&mut out, &[105u8, 110u8, 118u8, 97u8, 108u8, 105u8, 100u8, 32u8, 101u8, 115u8, 99u8, 97u8, 112u8, 101u8, 32u8, 39u8, 92u8]);
                push_char(&mut out, *c);
                crate::toml_writer::append(&mut out, &[39u8]);
            },
            TomlErrorKind::EofInEscape => {
                crate::toml_writer::append(&mut out, &[69u8, 79u8, 70u8, 32u8, 105u8, 110u8, 32u8, 101u8, 115u8, 99u8, 97u8, 112u8, 101u8]);
            },
            TomlErrorKind::InvalidHexDigit(c) => {
                crate::toml_writer::append(&mut out, &[105u8, 110u8, 118u8, 97u8, 108u8, 105u8, 100u8, 32u8, 104u8, 101u8, 120u8, 32u8, 100u8, 105u8, 103u8, 105u8, 116u8, 32u8, 39u8]);
                push_char(&mut out, *c);
                crate::toml_writer::append(&mut out, &[39u8]);
            },
            TomlErrorKind::EofInUnicodeEscape => {
                crate::toml_writer::append(&mut out, &[69u8, 79u8, 70u8, 32u8, 105u8, 110u8, 32u8, 117u8, 110u8, 105u8, 99u8, 111u8, 100u8, 101u8, 32u8, 101u8, 115u8, 99u8, 97u8, 112u8, 101u8]);
            },
            TomlErrorKind::UnterminatedLiteralString => {
                crate::toml_writer::append(&mut out, &[117u8, 110u8, 116u8, 101u8, 114u8, 109u8, 105u8, 110u8, 97u8, 116u8, 101u8, 100u8, 32u8, 108u8, 105u8, 116u8, 101u8, 114u8, 97u8, 108u8, 32u8, 115u8, 116u8, 114u8, 105u8, 110u8, 103u8]);
            },
            TomlErrorKind::NewlineInLiteralString => {
                crate::toml_writer::append(&mut out, &[110u8, 101u8, 119u8, 108u8, 105u8, 110u8, 101u8, 32u8, 105u8, 110u8, 32u8, 108u8, 105u8, 116u8, 101u8, 114u8, 97u8, 108u8, 32u8, 115u8, 116u8, 114u8, 105u8, 110u8, 103u8]);
            },
            TomlErrorKind::UnterminatedMultiLineLiteralString => {
                crate::toml_writer::append(&mut out, &[117u8, 110u8, 116u8, 101u8, 114u8, 109u8, 105u8, 110u8, 97u8, 116u8, 101u8, 100u8, 32u8, 109u8, 117u8, 108u8, 116u8, 105u8, 45u8, 108u8, 105u8, 110u8, 101u8, 32u8, 108u8, 105u8, 116u8, 101u8, 114u8, 97u8, 108u8, 32u8, 115u8, 116u8, 114u8, 105u8, 110u8, 103u8]);
            },
            TomlErrorKind::InvalidToken => {
                crate::toml_writer::append(&mut out, &[105u8, 110u8, 118u8, 97u8, 108u8, 105u8, 100u8, 32u8, 116u8, 111u8, 107u8, 101u8, 110u8, 32u8, 39u8]);
                let t = crate::toml_writer::lossy_text(self.text.as_slice());
                crate::toml_writer::append(&mut out, t.as_slice());
                crate::toml_writer::append(&mut out, &[39u8]);
            },
            TomlErrorKind::EmptyInteger => {
                crate::toml_writer::append(&mut out, &[101u8, 109u8, 112u8, 116u8, 121u8, 32u8, 105u8, 110u8, 116u8, 101u8, 103u8, 101u8, 114u8, 32u8, 108u8, 105u8, 116u8, 101u8, 114u8, 97u8, 108u8]);
            },
            TomlErrorKind::UnexpectedCharInValue(c) => {
                crate::toml_writer::append(&mut out, &[117u8, 110u8, 101u8, 120u8, 112u8, 101u8, 99u8, 116u8, 101u8, 100u8, 32u8, 99u8, 104u8, 97u8, 114u8, 97u8, 99u8, 116u8, 101u8, 114u8, 32u8, 39u8]);
                push_char(&mut out, *c);
                crate::toml_writer::append(&mut out, &[39u8, 32u8, 105u8, 110u8, 32u8, 118u8, 97u8, 108u8, 117u8, 101u8]);
            },
            TomlErrorKind::EofInValue => {
                crate::toml_writer::append(&mut out, &[117u8, 110u8, 101u8, 120u8, 112u8, 101u8, 99u8, 116u8, 101u8, 100u8, 32u8, 69u8, 79u8, 70u8, 32u8, 105u8, 110u8, 32u8, 118u8, 97u8, 108u8, 117u8, 101u8]);
            },
            TomlErrorKind::ExpectedCommaOrBracket(c) => {
                crate::toml_writer::append(&mut out, &[101u8, 120u8, 112u8, 101u8, 99u8, 116u8, 101u8, 100u8, 32u8, 39u8, 44u8, 39u8, 32u8, 111u8, 114u8, 32u8, 39u8, 93u8, 39u8, 32u8, 105u8, 110u8, 32u8, 97u8, 114u8, 114u8, 97u8, 121u8, 44u8, 32u8, 103u8, 111u8, 116u8, 32u8, 39u8]);
                push_char(&mut out, *c);
                crate::toml_writer::append(&mut out, &[39u8]);
            },
            TomlErrorKind::EofInArray => {
                crate::toml_writer::append(&mut out, &[69u8, 79u8, 70u8, 32u8, 105u8, 110u8, 32u8, 97u8, 114u8, 114u8, 97u8, 121u8]);
            },
            TomlErrorKind::ExpectedCommaOrBrace(c) => {
                crate::toml_writer::append(&mut out, &[101u8, 120u8, 112u8, 101u8, 99u8, 116u8, 101u8, 100u8, 32u8, 39u8, 44u8, 39u8, 32u8, 111u8, 114u8, 32u8, 39u8, 125u8, 39u8, 32u8, 105u8, 110u8, 32u8, 105u8, 110u8, 108u8, 105u8, 110u8, 101u8, 32u8, 116u8, 97u8, 98u8, 108u8, 101u8, 44u8, 32u8, 103u8, 111u8, 116u8, 32u8, 39u8]);
                push_char(&mut out, *c);
                crate::toml_writer::append(&mut out, &[39u8]);
            },
            TomlErrorKind::EofInInlineTable => {
                crate::toml_writer::append(&mut out, &[69u8, 79u8, 70u8, 32u8, 105u8, 110u8, 32u8, 105u8, 110u8, 108u8, 105u8, 110u8, 101u8, 32u8, 116u8, 97u8, 98u8, 108u8, 101u8]);
            },
            TomlErrorKind::NotArrayOfTables => {
                crate::toml_writer::append(&mut out, &[107u8, 101u8, 121u8, 32u8, 39u8]);
                let t = crate::toml_writer::lossy_text(self.text.as_slice());
                crate::toml_writer::append(&mut out, t.as_slice());
                crate::toml_writer::append(&mut out, &[39u8, 32u8, 105u8, 115u8, 32u8, 110u8, 111u8, 116u8, 32u8, 97u8, 110u8, 32u8, 97u8, 114u8, 114u8, 97u8, 121u8, 32u8, 111u8, 102u8, 32u8, 116u8, 97u8, 98u8, 108u8, 101u8, 115u8]);
            },
            TomlErrorKind::ArrayOfTablesNotFound => {
                crate::toml_writer::append(&mut out, &[97u8, 114u8, 114u8, 97u8, 121u8, 45u8, 111u8, 102u8, 45u8, 116u8, 97u8, 98u8, 108u8, 101u8, 115u8, 32u8, 39u8]);
                let t = crate::toml_writer::lossy_text(self.text.as_slice());
                crate::toml_writer::append(&mut out, t.as_slice());
                crate::toml_writer::append(&mut out, &[39u8, 32u8, 110u8, 111u8, 116u8, 32u8, 102u8, 111u8, 117u8, 110u8, 100u8]);
            },
            TomlErrorKind::DuplicateKey => {
                crate::toml_writer::append(&mut out, &[100u8, 117u8, 112u8, 108u8, 105u8, 99u8, 97u8, 116u8, 101u8, 32u8, 107u8, 101u8, 121u8, 32u8, 39u8]);
                let t = crate::toml_writer::lossy_text(self.text.as_slice());
                crate::toml_writer::append(&mut out, t.as_slice());
                crate::toml_writer::append(&mut out, &[39u8]);
            },
            TomlErrorKind::EmptyKeyPath => {
                crate::toml_writer::append(&mut out, &[101u8, 109u8, 112u8, 116u8, 121u8, 32u8, 107u8, 101u8, 121u8, 32u8, 112u8, 97u8, 116u8, 104u8]);
            },
        }
        proof {
            assert(out@ =~= head + spec_error_text(self@));
            assert(out@ =~= spec_error_message(self@));
        }
        out
    }
}


pub(crate) proof fn lemma_digits_read(m: nat)
    ensures
        spec_digits(m).len() > 0,
        all_digits(spec_digits(m)),
        dec_value(spec_digits(m)) == m,
    decreases m,
{
    if m >= 10 {
        lemma_digits_read(m / 10);
        let d = spec_digits(m);
        assert(d.drop_last() =~= spec_digits(m / 10));
        assert forall|i: int| 0 <= i < d.len() implies is_digit(#[trigger] d[i]) by {
            if i < d.len() - 1 {
                assert(d[i] == spec_digits(m / 10)[i]);
            }
        }
        assert(d.last() == (48 + m % 10) as u8);
        assert((m / 10) * 10 + m % 10 == m) by (nonlinear_arith);
        assert(dec_value(d) == dec_value(spec_digits(m / 10)) * 10 + (d.last() - 48));
    } else {
        let d = spec_digits(m);
        assert(d.drop_last() =~= Seq::<u8>::empty());
        assert(dec_value(d) == dec_value(d.drop_last()) * 10 + (d.last() - 48));
    }
}

/// Reading an integer gives back the number that the integer printer
/// wrote: for every 64-bit integer `n`, its decimal text (with `-` before a
/// negative one) reads as `n`.
pub proof fn lemma_parse_i64_reads_decimal(n: i64)
    ensures
        spec_parse_i64(spec_decimal(n as int)) == Some(n),
{
    if n < 0 {
        let d = spec_digits((-n) as nat);
        lemma_digits_read((-n) as nat);
        let t = seq![45u8] + d;
        assert(t.drop_first() =~= d);
        assert(t[0] == 45u8);
    } else {
        let d = spec_digits(n as nat);
        lemma_digits_read(n as nat);
        assert(is_digit(d[0]));
    }
}

/// A leading `+` changes nothing and a leading `-` negates: for every
/// non-empty run of decimal digits `d`, `+d` reads as `d` does, `-d` reads
/// as the negation of what `d` reads as, and `-d` reads as the smallest
/// integer when `d` is worth 2^63, one past the largest. `d` reads as an
/// integer exactly when its value is at most 2^63 - 1, `-d` exactly when it
/// is at most 2^63.
pub proof fn lemma_parse_i64_sign(d: Seq<u8>)
    requires
        d.len() > 0,
        all_digits(d),
    ensures
        spec_parse_i64(seq![43u8] + d) == spec_parse_i64(d),
        spec_parse_i64(d) matches Some(v) ==> spec_parse_i64(seq![45u8] + d) == Some((-v) as i64),
        dec_value(d) == 0x8000_0000_0000_0000 ==> spec_parse_i64(seq![45u8] + d) == Some(i64::MIN),
        spec_parse_i64(d) is Some <==> dec_value(d) <= 0x7FFF_FFFF_FFFF_FFFF,
        spec_parse_i64(seq![45u8] + d) is Some <==> dec_value(d) <= 0x8000_0000_0000_0000,
{
    assert((seq![43u8] + d).drop_first() =~= d);
    assert((seq![45u8] + d).drop_first() =~= d);
    assert(is_digit(d[0]));
    lemma_dec_value_nonneg(d);
}


proof fn lemma_no_underscores(t: Seq<u8>)
    requires
        forall|i: int| 0 <= i < t.len() ==> #[trigger] t[i] != 95u8,
    ensures
        without_underscores(t) == t,
    decreases t.len(),
{
    if t.len() > 0 {
        lemma_no_underscores(t.drop_last());
        assert(t.drop_last().push(t.last()) =~= t);
    }
}

proof fn lemma_num_end_run(s: Seq<u8>, p: int, n: int, i: int)
    requires
        0 <= p,
        0 <= i <= n,
        p + n <= s.len(),
        forall|j: int| p <= j < p + n ==> is_num_char(#[trigger] s[j]),
        p + n == s.len() || !is_num_char(s[p + n]),
    ensures
        num_end(s, p + i) == p + n,
    decreases n - i,
{
    if i < n {
        lemma_num_end_run(s, p, n, i + 1);
    }
}

/// Reading a number gives back every integer from its decimal text (with
/// `-` before a negative one): for every 64-bit integer `n`, its text, with
/// anything after it that cannot continue a number (no number byte and no
/// letter), reads as the integer `n` and ends where the text does.
#[verifier::spinoff_prover]
pub proof fn lemma_number_reads_decimal(pre: Seq<u8>, n: i64, post: Seq<u8>)
    requires
        post.len() > 0 ==> !is_num_char(post[0]) && !is_alpha(post[0]),
    ensures
        spec_number(pre + spec_decimal(n as int) + post, pre.len() as int) == Ok::<(TomlData, int), ErrModel>(
            (TomlData::Int(n), (pre.len() + spec_decimal(n as int).len()) as int),
        ),
{
    let t = spec_decimal(n as int);
    let s = pre + t + post;
    let p = pre.len() as int;
    let m = t.len() as int;
    let d = if n < 0 { spec_digits((-n) as nat) } else { spec_digits(n as nat) };
    lemma_digits_read(if n < 0 { (-n) as nat } else { n as nat });
    lemma_parse_i64_reads_decimal(n);
    let p1 = if n < 0 { p + 1 } else { p };
    assert forall|j: int| 0 <= j < m implies #[trigger] t[j] != 95u8 && is_num_char(t[j]) by {
        if n < 0 && j > 0 {
            assert(t[j] == d[j - 1]);
        } else if n >= 0 {
            assert(t[j] == d[j]);
        }
    }
    assert forall|j: int| p <= j < p + m implies is_num_char(#[trigger] s[j]) by {
        assert(s[j] == t[j - p]);
    }
    if post.len() > 0 {
        assert(s[p + m] == post[0]);
    }
    lemma_num_end_run(s, p, m, 0);
    lemma_num_end_run(s, p, m, p1 - p);
    assert(s.subrange(p, p + m) =~= t);
    lemma_no_underscores(t);
    assert(s[p1] == d[0]);
    assert(is_digit(d[0]));
    if d[0] == 48u8 {
        // only the integer 0 starts with the digit 0, and nothing follows it
        assert(d.len() == 1) by {
            reveal_with_fuel(spec_digits, 2);
            if (if n < 0 { (-n) as nat } else { n as nat }) >= 10 {
                lemma_digits_read((if n < 0 { (-n) as nat } else { n as nat }) / 10);
                assert(d[0] == spec_digits((if n < 0 { (-n) as nat } else { n as nat }) / 10)[0]);
                lemma_leading_digit((if n < 0 { (-n) as nat } else { n as nat }) / 10);
            }
        }
        if p1 + 1 < s.len() {
            assert(p1 + 1 == p + m);
            assert(s[p1 + 1] == post[0]);
        }
    }
    assert(!t.contains(46u8) && !t.contains(101u8) && !t.contains(69u8)) by {
        if t.contains(46u8) {
            let j = choose|j: int| 0 <= j < t.len() && t[j] == 46u8;
            if n < 0 && j > 0 {
                assert(t[j] == d[j - 1]);
            } else if n >= 0 {
                assert(t[j] == d[j]);
            }
        }
        if t.contains(101u8) {
            let j = choose|j: int| 0 <= j < t.len() && t[j] == 101u8;
            if n < 0 && j > 0 {
                assert(t[j] == d[j - 1]);
            } else if n >= 0 {
                assert(t[j] == d[j]);
            }
        }
        if t.contains(69u8) {
            let j = choose|j: int| 0 <= j < t.len() && t[j] == 69u8;
            if n < 0 && j > 0 {
                assert(t[j] == d[j - 1]);
            } else if n >= 0 {
                assert(t[j] == d[j]);
            }
        }
    }
}

/// The decimal text of a positive number does not start with 0.
proof fn lemma_leading_digit(m: nat)
    requires
        m > 0,
    ensures
        spec_digits(m)[0] != 48u8,
    decreases m,
{
    if m >= 10 {
        lemma_leading_digit(m / 10);
        assert(spec_digits(m)[0] == spec_digits(m / 10)[0]) by {
            lemma_digits_read(m / 10);
        }
    }
}


/// The digit of `v` (below 16): `0`-`9`, then lower-case `a`-`f`.
pub open spec fn base_char(v: int) -> u8 {
    if v < 10 {
        (48 + v) as u8
    } else {
        (87 + v) as u8
    }
}

/// `n` written in base `base`, most significant digit first.
pub open spec fn base_digits(n: nat, base: nat) -> Seq<u8>
    decreases n,
{
    if base < 2 || n < base {
        seq![base_char(n as int)]
    } else {
        proof {
            assert(n / base < n) by (nonlinear_arith)
                requires
                    base >= 2,
                    n >= base,
            ;
        }
        base_digits(n / base, base).push(base_char((n % base) as int))
    }
}

/// The value of digits in base `base`, as `digit_in_base` reads each one.
pub open spec fn base_value(d: Seq<u8>, base: u64) -> int
    decreases d.len(),
{
    if d.len() == 0 {
        0
    } else {
        base_value(d.drop_last(), base) * base + match digit_in_base(d.last(), base) {
            Some(v) => v,
            None => 0,
        }
    }
}

proof fn lemma_base_char(v: int, base: u64)
    requires
        base == 16 || base == 8 || base == 2,
        0 <= v < base,
    ensures
        digit_in_base(base_char(v), base) == Some(v),
        base_char(v) != 95u8,
{
}

proof fn lemma_base_digits(n: nat, base: u64)
    requires
        base == 16 || base == 8 || base == 2,
    ensures
        base_digits(n, base as nat).len() > 0,
        base_value(base_digits(n, base as nat), base) == n,
        forall|i: int| 0 <= i < base_digits(n, base as nat).len() ==> digit_in_base(
            #[trigger] base_digits(n, base as nat)[i],
            base,
        ) is Some && base_digits(n, base as nat)[i] != 95u8,
    decreases n,
{
    let d = base_digits(n, base as nat);
    if n < base {
        lemma_base_char(n as int, base);
        assert(d.drop_last() =~= Seq::<u8>::empty());
        assert(d.last() == base_char(n as int));
        assert(base_value(d, base) == base_value(d.drop_last(), base) * base + n);
    } else {
        lemma_base_digits(n / base as nat, base);
        lemma_base_char((n % base as nat) as int, base);
        assert(d.drop_last() =~= base_digits(n / base as nat, base as nat));
        assert((n / base as nat) * base + n % base as nat == n) by (nonlinear_arith)
            requires
                base > 0,
        ;
        assert forall|i: int| 0 <= i < d.len() implies digit_in_base(#[trigger] d[i], base) is Some && d[i] != 95u8 by {
            if i < d.len() - 1 {
                assert(d[i] == base_digits(n / base as nat, base as nat)[i]);
            }
        }
    }
}

proof fn lemma_base_value_prefix(d: Seq<u8>, base: u64, k: int)
    requires
        base == 16 || base == 8 || base == 2,
        0 <= k <= d.len(),
    ensures
        0 <= base_value(d.take(k), base) <= base_value(d, base),
    decreases d.len() - k,
{
    if k < d.len() {
        lemma_base_value_prefix(d, base, k + 1);
        assert(d.take(k + 1).drop_last() =~= d.take(k));
        let v = base_value(d.take(k), base);
        let dv = match digit_in_base(d[k], base) {
            Some(x) => x,
            None => 0,
        };
        assert(dv >= 0);
        lemma_base_value_nonneg(d.take(k), base);
        assert(v <= v * base + dv) by (nonlinear_arith)
            requires
                v >= 0,
                base >= 2,
                dv >= 0,
        ;
    } else {
        assert(d.take(k) =~= d);
        lemma_base_value_nonneg(d, base);
    }
}

proof fn lemma_base_value_nonneg(d: Seq<u8>, base: u64)
    requires
        base == 16 || base == 8 || base == 2,
    ensures
        0 <= base_value(d, base),
    decreases d.len(),
{
    if d.len() > 0 {
        lemma_base_value_nonneg(d.drop_last(), base);
        let v = base_value(d.drop_last(), base);
        assert(v * base >= 0) by (nonlinear_arith)
            requires
                v >= 0,
                base >= 2,
        ;
    }
}

proof fn lemma_int_base_run(s: Seq<u8>, q: int, d: Seq<u8>, base: u64, k: int)
    requires
        base == 16 || base == 8 || base == 2,
        0 <= q,
        0 <= k <= d.len(),
        d.len() > 0,
        q + d.len() <= s.len(),
        s.subrange(q, q + d.len()) == d,
        forall|i: int| 0 <= i < d.len() ==> digit_in_base(#[trigger] d[i], base) is Some && d[i] != 95u8,
        q + d.len() < s.len() ==> digit_in_base(s[q + d.len()], base) is None && s[q + d.len()] != 95u8,
        base_value(d, base) <= 0x7FFF_FFFF_FFFF_FFFF,
    ensures
        spec_int_base(s, q + k, base, base_value(d.take(k), base) as i64, k > 0) == Ok::<(TomlData, int), ErrModel>(
            (TomlData::Int(base_value(d, base) as i64), q + d.len()),
        ),
    decreases d.len() - k,
{
    lemma_base_value_prefix(d, base, k);
    if k == d.len() {
        assert(d.take(k) =~= d);
    } else {
        assert(s[q + k] == d[k]) by {
            assert(s.subrange(q, q + d.len())[k] == s[q + k]);
        }
        lemma_base_value_prefix(d, base, k + 1);
        assert(d.take(k + 1).drop_last() =~= d.take(k));
        let v = base_value(d.take(k), base);
        let dv = digit_in_base(d[k], base)->Some_0;
        assert(base_value(d.take(k + 1), base) == v * base + dv);
        assert(0 <= v * base <= v * base + dv) by (nonlinear_arith)
            requires
                v >= 0,
                base >= 2,
                dv >= 0,
        ;
        let m = vstd::wrapping::i64_specs::wrapping_mul(v as i64, base as i64);
        assert(m == v * base) by {
            assert((v * base) % 0x1_0000_0000_0000_0000int == v * base) by {
                vstd::arithmetic::div_mod::lemma_small_mod((v * base) as nat, 0x1_0000_0000_0000_0000nat);
            }
        }
        lemma_int_base_run(s, q, d, base, k + 1);
    }
}

/// Reading a number gives back every integer written in hexadecimal,
/// octal or binary: for every non-negative 64-bit integer `n`, `0x`, `0o`
/// or `0b` and its digits in that base, with anything after them that is
/// no digit of the base and no `_`, read as the integer `n` and end where
/// the digits do.
pub proof fn lemma_number_reads_base(pre: Seq<u8>, n: i64, base: u64, post: Seq<u8>)
    requires
        n >= 0,
        base == 16 || base == 8 || base == 2,
        post.len() > 0 ==> digit_in_base(post[0], base) is None && post[0] != 95u8,
    ensures
        ({
            let letter: u8 = if base == 16 { 120u8 } else if base == 8 { 111u8 } else { 98u8 };
            let d = base_digits(n as nat, base as nat);
            spec_number(pre + seq![48u8, letter] + d + post, pre.len() as int) == Ok::<(TomlData, int), ErrModel>(
                (TomlData::Int(n), (pre.len() + 2 + d.len()) as int),
            )
        }),
{
    let letter: u8 = if base == 16 { 120u8 } else if base == 8 { 111u8 } else { 98u8 };
    let d = base_digits(n as nat, base as nat);
    let s = pre + seq![48u8, letter] + d + post;
    let p = pre.len() as int;
    lemma_base_digits(n as nat, base);
    assert(s[p] == 48u8);
    assert(s[p + 1] == letter);
    assert(s.subrange(p + 2, p + 2 + d.len()) =~= d);
    if post.len() > 0 {
        assert(s[p + 2 + d.len()] == post[0]);
    }
    assert(d.take(0) =~= Seq::<u8>::empty());
    lemma_int_base_run(s, p + 2, d, base, 0);
}

} // verus!
