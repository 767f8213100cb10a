use vstd::prelude::*;
use crate::lobject::spec_digits;
use crate::lobject::push_digits;

verus! {

// ─── Conversion specifications of `string.format` ────────────────────────────

pub open spec fn is_digit(b: u8) -> bool {
    48u8 <= b <= 57u8
}

pub open spec fn is_alpha(b: u8) -> bool {
    (65u8 <= b <= 90u8) || (97u8 <= b <= 122u8)
}

/// A control byte: below 32, or 127.
pub open spec fn is_control(b: u8) -> bool {
    b < 32u8 || b == 127u8
}

/// The byte at `i`, or 0 past the end (the terminating zero of the string).
pub open spec fn at(s: Seq<u8>, i: int) -> u8 {
    if 0 <= i < s.len() {
        s[i]
    } else {
        0u8
    }
}

/// The index after at most two digits from `i`.
pub open spec fn spec_get2digits(s: Seq<u8>, i: int) -> int {
    if is_digit(at(s, i)) {
        if is_digit(at(s, i + 1)) {
            i + 2
        } else {
            i + 1
        }
    } else {
        i
    }
}

/// Skips at most two digits from `i`.
pub fn get2digits(s: &[u8], i: usize) -> (r: usize)
    requires
        i <= s@.len(),
    ensures
        r as int == spec_get2digits(s@, i as int),
        r <= s@.len(),
{
    let mut j = i;
    if j < s.len() && 48u8 <= s[j] && s[j] <= 57u8 {
        j = j + 1;
        if j < s.len() && 48u8 <= s[j] && s[j] <= 57u8 {
            j = j + 1;
        }
    }
    j
}

/// The index of the first byte from `i` on that is not in `set`.
pub open spec fn span(s: Seq<u8>, set: Seq<u8>, i: int) -> int
    decreases s.len() - i,
{
    if i < 0 || i >= s.len() || !set.contains(s[i]) {
        i
    } else {
        span(s, set, i + 1)
    }
}

pub fn span_of(s: &[u8], set: &[u8], i: usize) -> (r: usize)
    requires
        i <= s@.len(),
    ensures
        r as int == span(s@, set@, i as int),
        i <= r <= s@.len(),
{
    let mut j = i;
    while j < s.len()
        invariant
            i <= j <= s@.len(),
            span(s@, set@, i as int) == span(s@, set@, j as int),
        decreases s@.len() - j,
    {
        let mut k: usize = 0;
        let mut found: bool = false;
        while k < set.len()
            invariant
                k <= set@.len(),
                j < s@.len(),
                found == (exists|m: int| 0 <= m < k && set@[m] == s@[j as int]),
            decreases set@.len() - k,
        {
            if set[k] == s[j] {
                found = true;
            }
            k = k + 1;
        }
        proof {
            if found {
                let m = choose|m: int| 0 <= m < set@.len() && set@[m] == s@[j as int];
                assert(set@.contains(s@[j as int]));
            } else {
                assert(!set@.contains(s@[j as int]));
            }
        }
        if !found {
            return j;
        }
        j = j + 1;
    }
    j
}

/// A conversion specification `form` (starting with `%`, ending with the
/// conversion) is valid when, after `%`, flags from `flags` come first, then
/// (unless the next byte is `0`) a width of at most two digits and, where
/// `precision` is allowed, `.` and at most two digits, and then a letter.
pub open spec fn spec_checkformat(form: Seq<u8>, flags: Seq<u8>, precision: bool) -> bool {
    let a = span(form, flags, 1);
    let b = if at(form, a) != 48u8 {
        let w = spec_get2digits(form, a);
        if at(form, w) == 46u8 && precision {
            spec_get2digits(form, w + 1)
        } else {
            w
        }
    } else {
        a
    };
    is_alpha(at(form, b))
}

/// Checks a conversion specification (see `spec_checkformat`).
pub fn checkformat(form: &[u8], flags: &[u8], precision: bool) -> (r: bool)
    ensures
        r == spec_checkformat(form@, flags@, precision),
{
    if form.len() == 0 {
        return false;
    }
    let a = span_of(form, flags, 1);
    let b = if a < form.len() && form[a] == 48u8 {
        a
    } else {
        let w = get2digits(form, a);
        if w < form.len() && form[w] == 46u8 && precision {
            get2digits(form, w + 1)
        } else {
            w
        }
    };
    b < form.len() && ((65u8 <= form[b] && form[b] <= 90u8) || (97u8 <= form[b] && form[b] <= 122u8))
}

/// The flags, digits and `.` that may stand in a specification.
pub open spec fn format_chars() -> Seq<u8> {
    seq![45u8, 43u8, 35u8, 48u8, 32u8, 49u8, 50u8, 51u8, 52u8, 53u8, 54u8, 55u8, 56u8, 57u8, 46u8]
}

/// Why `string.format` refuses a format.
#[derive(Debug, PartialEq, Eq, Clone, Copy, Structural)]
pub enum FormatError {
    /// `invalid format (too long)`
    TooLong,
    /// `invalid conversion '...' to 'format'`
    InvalidConversion,
    /// `invalid conversion specification: '...'`
    InvalidSpecification,
    /// `specifier '%q' cannot have modifiers`
    QuotedModifiers,
    /// `no value`: a specification without an argument.
    NoValue,
    /// `string contains zeros`: a string for `%s` with modifiers.
    StringContainsZeros,
}

/// The specification that starts at `i` (just after `%`): `%`, the bytes
/// from `i` that are flags, digits or `.`, and the conversion byte (0 past
/// the end); refused when 22 bytes or more follow `%`. Also gives the index
/// of the conversion byte.
pub open spec fn spec_getformat(s: Seq<u8>, i: int) -> Result<(Seq<u8>, int), FormatError> {
    let n = span(s, format_chars(), i) - i + 1;
    if n >= 22 {
        Err(FormatError::TooLong)
    } else {
        Ok((seq![37u8] + s.subrange(i, i + n - 1) + seq![at(s, i + n - 1)], i + n - 1))
    }
}

/// Reads the specification that starts at `i` (just after `%`).
pub fn getformat(s: &[u8], i: usize) -> (r: Result<(Vec<u8>, usize), FormatError>)
    requires
        i <= s@.len(),
    ensures
        match spec_getformat(s@, i as int) {
            Ok((form, c)) => r matches Ok((f, cc)) && f@ == form && cc as int == c,
            Err(e) => r == Err::<(Vec<u8>, usize), FormatError>(e),
        },
{
    let chars: Vec<u8> = vec![45u8, 43u8, 35u8, 48u8, 32u8, 49u8, 50u8, 51u8, 52u8, 53u8, 54u8, 55u8, 56u8, 57u8, 46u8];
    proof {
        assert(chars@ =~= format_chars());
    }
    let end = span_of(s, chars.as_slice(), i);
    if end - i >= 21 {
        return Err(FormatError::TooLong);
    }
    let mut form: Vec<u8> = Vec::new();
    form.push(37u8);
    crate::toml_writer::append(&mut form, &s[i..end]);
    let c: u8 = if end < s.len() {
        s[end]
    } else {
        0u8
    };
    form.push(c);
    proof {
        assert(form@ =~= seq![37u8] + s@.subrange(i as int, end as int) + seq![at(s@, end as int)]);
    }
    Ok((form, end))
}

/// `form` with `lenmod` put before its conversion byte.
pub open spec fn spec_addlenmod(form: Seq<u8>, lenmod: Seq<u8>) -> Seq<u8> {
    form.drop_last() + lenmod + seq![form.last()]
}

/// Puts a length modifier before the conversion byte.
pub fn addlenmod(form: &[u8], lenmod: &[u8]) -> (r: Vec<u8>)
    requires
        form@.len() > 0,
    ensures
        r@ == spec_addlenmod(form@, lenmod@),
{
    let n = form.len();
    let mut r = vstd::slice::slice_to_vec(&form[0..n - 1]);
    crate::toml_writer::append(&mut r, lenmod);
    r.push(form[n - 1]);
    proof {
        assert(r@ =~= spec_addlenmod(form@, lenmod@));
    }
    r
}

// ─── `%q` ────────────────────────────────────────────────────────────────────

/// `n` in decimal, written with at least three digits.
pub open spec fn three_digits(n: nat) -> Seq<u8> {
    if n < 10 {
        seq![48u8, 48u8] + spec_digits(n)
    } else if n < 100 {
        seq![48u8] + spec_digits(n)
    } else {
        spec_digits(n)
    }
}

/// How byte `i` of `s` is written in a quoted string: `"`, `\` and newline
/// after a backslash, a control byte as `\` and its decimal value (three
/// digits when a digit follows it), any other byte as it is.
pub open spec fn quoted_piece(s: Seq<u8>, i: int) -> Seq<u8> {
    let b = s[i];
    if b == 34u8 || b == 92u8 || b == 10u8 {
        seq![92u8, b]
    } else if is_control(b) {
        if is_digit(at(s, i + 1)) {
            seq![92u8] + three_digits(b as nat)
        } else {
            seq![92u8] + spec_digits(b as nat)
        }
    } else {
        seq![b]
    }
}

pub open spec fn quoted_body(s: Seq<u8>, k: int) -> Seq<u8>
    decreases k,
{
    if k <= 0 {
        Seq::empty()
    } else {
        quoted_body(s, k - 1) + quoted_piece(s, k - 1)
    }
}

/// A string as `%q` writes it: between double quotes, escaped so that Lua
/// reads it back.
pub open spec fn spec_addquoted(s: Seq<u8>) -> Seq<u8> {
    seq![34u8] + quoted_body(s, s.len() as int) + seq![34u8]
}

/// Appends a string as `%q` writes it.
pub fn addquoted(out: &mut Vec<u8>, s: &[u8])
    ensures
        final(out)@ == old(out)@ + spec_addquoted(s@),
{
    out.push(34u8);
    let ghost start = out@;
    let mut i: usize = 0;
    while i < s.len()
        invariant
            i <= s@.len(),
            out@ == start + quoted_body(s@, i as int),
        decreases s@.len() - i,
    {
        let b = s[i];
        let ghost before = out@;
        if b == 34u8 || b == 92u8 || b == 10u8 {
            out.push(92u8);
            out.push(b);
        } else if b < 32u8 || b == 127u8 {
            out.push(92u8);
            let next_digit = i + 1 < s.len() && 48u8 <= s[i + 1] && s[i + 1] <= 57u8;
            if next_digit {
                if b < 10u8 {
                    out.push(48u8);
                    out.push(48u8);
                } else if b < 100u8 {
                    out.push(48u8);
                }
            }
            push_digits(b as u64, out);
        } else {
            out.push(b);
        }
        proof {
            assert(out@ =~= before + quoted_piece(s@, i as int));
        }
        i = i + 1;
    }
    out.push(34u8);
    proof {
        assert(out@ =~= old(out)@ + spec_addquoted(s@));
    }
}

/// How `%q` writes an integer: in decimal, except the smallest integer,
/// which has no decimal literal, in hexadecimal.
pub open spec fn spec_quote_integer(n: i64) -> Seq<u8> {
    if n == i64::MIN {
        seq![48u8, 120u8, 56u8, 48u8, 48u8, 48u8, 48u8, 48u8, 48u8, 48u8, 48u8, 48u8, 48u8, 48u8, 48u8, 48u8, 48u8, 48u8]
    } else {
        crate::lobject::spec_decimal(n as int)
    }
}

/// Writes an integer as `%q` does.
pub fn quote_integer(n: i64) -> (r: Vec<u8>)
    ensures
        r@ == spec_quote_integer(n),
{
    if n == i64::MIN {
        let r: Vec<u8> = vec![48u8, 120u8, 56u8, 48u8, 48u8, 48u8, 48u8, 48u8, 48u8, 48u8, 48u8, 48u8, 48u8, 48u8, 48u8, 48u8, 48u8, 48u8];
        proof {
            assert(r@ =~= spec_quote_integer(n));
        }
        r
    } else {
        crate::lobject::integer_to_string(n)
    }
}


// ─── Stepping through a format ───────────────────────────────────────────────

/// What a conversion writes.
#[derive(Debug, PartialEq, Eq, Clone, Copy, Structural)]
pub enum Conversion {
    /// `%c`: a byte from an integer.
    Char,
    /// `%d %i %u %o %x %X`: an integer (the form gets the `ll` modifier).
    Integer,
    /// `%a %A %f %e %E %g %G`: a float.
    Float,
    /// `%p`: a pointer.
    Pointer,
    /// `%q`: a Lua literal.
    Quoted,
    /// `%s`: a string.
    Str,
}

/// One step through a format: a byte to copy, or a conversion with its
/// final specification and whether that specification is valid.
#[derive(Debug)]
pub enum FormatPiece {
    Byte(u8),
    Directive { conv: Conversion, form: Vec<u8>, valid: bool },
}

pub enum PieceModel {
    Byte(u8),
    Directive { conv: Conversion, form: Seq<u8>, valid: bool },
}

pub open spec fn piece_view(p: FormatPiece) -> PieceModel {
    match p {
        FormatPiece::Byte(b) => PieceModel::Byte(b),
        FormatPiece::Directive { conv, form, valid } => PieceModel::Directive { conv, form: form@, valid },
    }
}

/// The step at `pos`: a byte other than `%` is copied, `%%` copies `%`;
/// otherwise a conversion needs an argument (`has_arg`), its specification
/// must not be too long, and its byte must name a conversion. Gives the
/// index after the step.
pub open spec fn spec_format_step(fmt: Seq<u8>, pos: int, has_arg: bool) -> Result<(PieceModel, int), FormatError> {
    if fmt[pos] != 37u8 {
        Ok((PieceModel::Byte(fmt[pos]), pos + 1))
    } else if at(fmt, pos + 1) == 37u8 {
        Ok((PieceModel::Byte(37u8), pos + 2))
    } else if !has_arg {
        Err(FormatError::NoValue)
    } else {
        match spec_getformat(fmt, pos + 1) {
            Err(e) => Err(e),
            Ok((form, c)) => {
                let conv = at(fmt, c);
                let next = c + 1;
                if conv == 99u8 {
                    Ok((PieceModel::Directive { conv: Conversion::Char, form, valid: spec_checkformat(form, seq![45u8], false) }, next))
                } else if conv == 100u8 || conv == 105u8 {
                    Ok((PieceModel::Directive { conv: Conversion::Integer, form: spec_addlenmod(form, seq![108u8, 108u8]),
                        valid: spec_checkformat(form, seq![45u8, 43u8, 48u8, 32u8], true) }, next))
                } else if conv == 117u8 {
                    Ok((PieceModel::Directive { conv: Conversion::Integer, form: spec_addlenmod(form, seq![108u8, 108u8]),
                        valid: spec_checkformat(form, seq![45u8, 48u8], true) }, next))
                } else if conv == 111u8 || conv == 120u8 || conv == 88u8 {
                    Ok((PieceModel::Directive { conv: Conversion::Integer, form: spec_addlenmod(form, seq![108u8, 108u8]),
                        valid: spec_checkformat(form, seq![45u8, 35u8, 48u8], true) }, next))
                } else if conv == 97u8 || conv == 65u8 || conv == 102u8 || conv == 101u8 || conv == 69u8 || conv == 103u8
                    || conv == 71u8 {
                    Ok((PieceModel::Directive { conv: Conversion::Float, form,
                        valid: spec_checkformat(form, seq![45u8, 43u8, 35u8, 48u8, 32u8], true) }, next))
                } else if conv == 112u8 {
                    Ok((PieceModel::Directive { conv: Conversion::Pointer, form, valid: spec_checkformat(form, seq![45u8], false) }, next))
                } else if conv == 113u8 {
                    if form.len() > 2 {
                        Err(FormatError::QuotedModifiers)
                    } else {
                        Ok((PieceModel::Directive { conv: Conversion::Quoted, form, valid: true }, next))
                    }
                } else if conv == 115u8 {
                    Ok((PieceModel::Directive { conv: Conversion::Str, form, valid: true }, next))
                } else {
                    Err(FormatError::InvalidConversion)
                }
            },
        }
    }
}

/// Takes one step through a format at `pos`; `has_arg` tells whether an
/// argument is left for a conversion.
pub fn format_step(fmt: &[u8], pos: usize, has_arg: bool) -> (r: Result<(FormatPiece, usize), FormatError>)
    requires
        pos < fmt@.len(),
    ensures
        match spec_format_step(fmt@, pos as int, has_arg) {
            Ok((p, n)) => r matches Ok((q, m)) && piece_view(q) == p && m as int == n,
            Err(e) => r == Err::<(FormatPiece, usize), FormatError>(e),
        },
{
    if fmt[pos] != 37u8 {
        return Ok((FormatPiece::Byte(fmt[pos]), pos + 1));
    }
    if pos + 1 < fmt.len() && fmt[pos + 1] == 37u8 {
        return Ok((FormatPiece::Byte(37u8), pos + 2));
    }
    if !has_arg {
        return Err(FormatError::NoValue);
    }
    let (form, c) = match getformat(fmt, pos + 1) {
        Err(e) => {
            return Err(e);
        },
        Ok(x) => x,
    };
    let conv: u8 = if c < fmt.len() {
        fmt[c]
    } else {
        0u8
    };
    let next = if c < fmt.len() {
        c + 1
    } else {
        c
    };
    if conv == 99u8 {
        let valid = checkformat(form.as_slice(), &[45u8], false);
        proof { assert(seq![45u8] =~= [45u8]@); }
        Ok((FormatPiece::Directive { conv: Conversion::Char, form, valid }, next))
    } else if conv == 100u8 || conv == 105u8 || conv == 117u8 || conv == 111u8 || conv == 120u8 || conv == 88u8 {
        let valid = if conv == 100u8 || conv == 105u8 {
            proof { assert(seq![45u8, 43u8, 48u8, 32u8] =~= [45u8, 43u8, 48u8, 32u8]@); }
            checkformat(form.as_slice(), &[45u8, 43u8, 48u8, 32u8], true)
        } else if conv == 117u8 {
            proof { assert(seq![45u8, 48u8] =~= [45u8, 48u8]@); }
            checkformat(form.as_slice(), &[45u8, 48u8], true)
        } else {
            proof { assert(seq![45u8, 35u8, 48u8] =~= [45u8, 35u8, 48u8]@); }
            checkformat(form.as_slice(), &[45u8, 35u8, 48u8], true)
        };
        let f = addlenmod(form.as_slice(), &[108u8, 108u8]);
        proof { assert(seq![108u8, 108u8] =~= [108u8, 108u8]@); }
        Ok((FormatPiece::Directive { conv: Conversion::Integer, form: f, valid }, next))
    } else if conv == 97u8 || conv == 65u8 || conv == 102u8 || conv == 101u8 || conv == 69u8 || conv == 103u8
        || conv == 71u8 {
        let valid = checkformat(form.as_slice(), &[45u8, 43u8, 35u8, 48u8, 32u8], true);
        proof { assert(seq![45u8, 43u8, 35u8, 48u8, 32u8] =~= [45u8, 43u8, 35u8, 48u8, 32u8]@); }
        Ok((FormatPiece::Directive { conv: Conversion::Float, form, valid }, next))
    } else if conv == 112u8 {
        let valid = checkformat(form.as_slice(), &[45u8], false);
        proof { assert(seq![45u8] =~= [45u8]@); }
        Ok((FormatPiece::Directive { conv: Conversion::Pointer, form, valid }, next))
    } else if conv == 113u8 {
        if form.len() > 2 {
            Err(FormatError::QuotedModifiers)
        } else {
            Ok((FormatPiece::Directive { conv: Conversion::Quoted, form, valid: true }, next))
        }
    } else if conv == 115u8 {
        Ok((FormatPiece::Directive { conv: Conversion::Str, form, valid: true }, next))
    } else {
        Err(FormatError::InvalidConversion)
    }
}

/// How `%s` with specification `form` writes a string.
#[derive(Debug, PartialEq, Eq, Clone, Copy, Structural)]
pub enum StringAction {
    /// The whole string, as it is.
    Whole,
    /// Through the C formatter with `form`.
    Formatted,
}

/// Why `%s` refuses a string, or how it writes it: a bare `%s` writes the
/// whole string; otherwise a string with a zero byte is refused, then an
/// invalid specification; a string of 100 bytes or more is written whole
/// when the specification has no precision.
pub open spec fn spec_string_action(form: Seq<u8>, s: Seq<u8>) -> Result<StringAction, FormatError> {
    if form.len() == 2 {
        Ok(StringAction::Whole)
    } else if s.contains(0u8) {
        Err(FormatError::StringContainsZeros)
    } else if !spec_checkformat(form, seq![45u8], true) {
        Err(FormatError::InvalidSpecification)
    } else if !form.contains(46u8) && s.len() >= 100 {
        Ok(StringAction::Whole)
    } else {
        Ok(StringAction::Formatted)
    }
}

/// Decides how `%s` writes a string (see `spec_string_action`).
pub fn string_action(form: &[u8], s: &[u8]) -> (r: Result<StringAction, FormatError>)
    ensures
        r == spec_string_action(form@, s@),
{
    if form.len() == 2 {
        return Ok(StringAction::Whole);
    }
    let mut i: usize = 0;
    while i < s.len()
        invariant
            i <= s@.len(),
            form@.len() != 2,
            forall|j: int| 0 <= j < i ==> s@[j] != 0u8,
        decreases s@.len() - i,
    {
        if s[i] == 0u8 {
            proof {
                assert(s@.contains(0u8));
            }
            return Err(FormatError::StringContainsZeros);
        }
        i = i + 1;
    }
    proof { assert(seq![45u8] =~= [45u8]@); }
    if !checkformat(form, &[45u8], true) {
        return Err(FormatError::InvalidSpecification);
    }
    let mut has_dot: bool = false;
    let mut k: usize = 0;
    while k < form.len()
        invariant
            k <= form@.len(),
            has_dot == (exists|j: int| 0 <= j < k && form@[j] == 46u8),
        decreases form@.len() - k,
    {
        if form[k] == 46u8 {
            has_dot = true;
        }
        k = k + 1;
    }
    proof {
        if has_dot {
            let j = choose|j: int| 0 <= j < form@.len() && form@[j] == 46u8;
            assert(form@.contains(46u8));
        }
    }
    if !has_dot && s.len() >= 100 {
        Ok(StringAction::Whole)
    } else {
        Ok(StringAction::Formatted)
    }
}


// ─── A whole format ──────────────────────────────────────────────────────────

pub proof fn lemma_span_bounds(s: Seq<u8>, set: Seq<u8>, i: int)
    requires
        0 <= i,
    ensures
        i <= span(s, set, i),
        i <= s.len() ==> span(s, set, i) <= s.len(),
    decreases s.len() - i,
{
    if i < s.len() && set.contains(s[i]) {
        lemma_span_bounds(s, set, i + 1);
    }
}

/// A step through a format moves forward and stays within it.
pub proof fn lemma_step_advances(fmt: Seq<u8>, pos: int, has_arg: bool)
    requires
        0 <= pos < fmt.len(),
    ensures
        spec_format_step(fmt, pos, has_arg) matches Ok((_, q)) ==> pos < q <= fmt.len(),
{
    lemma_span_bounds(fmt, format_chars(), pos + 1);
}

/// The pieces of a whole format, with `nargs` arguments for its
/// conversions: each step in turn (see `spec_format_step`), each conversion
/// taking the next argument; a conversion whose specification is invalid is
/// refused.
pub open spec fn spec_format_plan(fmt: Seq<u8>, pos: int, nargs: int) -> Result<Seq<PieceModel>, FormatError>
    decreases fmt.len() - pos,
{
    if pos < 0 || pos >= fmt.len() {
        Ok(Seq::empty())
    } else {
        match spec_format_step(fmt, pos, nargs > 0) {
            Err(e) => Err(e),
            Ok((pc, q)) => {
                proof {
                    lemma_step_advances(fmt, pos, nargs > 0);
                }
                match pc {
                    PieceModel::Directive { valid: false, .. } => Err(FormatError::InvalidSpecification),
                    _ => match spec_format_plan(fmt, q, if pc is Directive { nargs - 1 } else { nargs }) {
                        Ok(rest) => Ok(seq![pc] + rest),
                        Err(e) => Err(e),
                    },
                }
            },
        }
    }
}

pub open spec fn pieces_view(v: Seq<FormatPiece>) -> Seq<PieceModel> {
    v.map_values(|p: FormatPiece| piece_view(p))
}

/// Goes through a whole format for `string.format` with `nargs` arguments
/// (see `spec_format_plan`): the bytes to copy and the conversions to make.
pub fn format_plan(fmt: &[u8], nargs: usize) -> (r: Result<Vec<FormatPiece>, FormatError>)
    ensures
        match spec_format_plan(fmt@, 0, nargs as int) {
            Ok(ps) => r matches Ok(v) && pieces_view(v@) == ps,
            Err(e) => r matches Err(x) && x == e,
        },
{
    let mut pieces: Vec<FormatPiece> = Vec::new();
    let mut pos: usize = 0;
    let mut left: usize = nargs;
    proof {
        assert(pieces_view(pieces@) + Seq::<PieceModel>::empty() =~= Seq::<PieceModel>::empty());
    }
    while pos < fmt.len()
        invariant
            pos <= fmt@.len(),
            left <= nargs,
            spec_format_plan(fmt@, 0, nargs as int) == match spec_format_plan(fmt@, pos as int, left as int) {
                Ok(rest) => Ok(pieces_view(pieces@) + rest),
                Err(e) => Err(e),
            },
        decreases fmt@.len() - pos,
    {
        let ghost before = pieces_view(pieces@);
        proof {
            lemma_step_advances(fmt@, pos as int, left > 0);
        }
        let (pc, q) = match format_step(fmt, pos, left > 0) {
            Ok(x) => x,
            Err(e) => return Err(e),
        };
        let is_dir = match &pc {
            FormatPiece::Directive { valid, .. } => {
                if !*valid {
                    return Err(FormatError::InvalidSpecification);
                }
                true
            },
            FormatPiece::Byte(_) => false,
        };
        let ghost pm = piece_view(pc);
        pieces.push(pc);
        proof {
            assert(pieces_view(pieces@) =~= before.push(pm));
            match spec_format_plan(fmt@, q as int, if is_dir { left - 1 } else { left as int }) {
                Ok(rest) => {
                    assert(before.push(pm) + rest =~= before + (seq![pm] + rest));
                },
                Err(_) => {},
            }
        }
        if is_dir {
            left = left - 1;
        }
        pos = q;
    }
    proof {
        assert(pieces_view(pieces@) + Seq::<PieceModel>::empty() =~= pieces_view(pieces@));
    }
    Ok(pieces)
}


// ─── Reading `%q` back ───────────────────────────────────────────────────────

/// The number of line feeds in `s`.
pub open spec fn count_lf(s: Seq<u8>) -> int
    decreases s.len(),
{
    if s.len() == 0 {
        0
    } else {
        count_lf(s.drop_last()) + if s.last() == 10u8 { 1int } else { 0int }
    }
}

proof fn lemma_count_lf_step(x: Seq<u8>, k: int)
    requires
        0 <= k < x.len(),
    ensures
        count_lf(x.take(k + 1)) == count_lf(x.take(k)) + if x[k] == 10u8 { 1int } else { 0int },
        0 <= count_lf(x.take(k)),
{
    assert(x.take(k + 1).drop_last() =~= x.take(k));
    lemma_count_lf_mono(x, 0, k);
    assert(x.take(0) =~= Seq::<u8>::empty());
}

proof fn lemma_count_lf_mono(x: Seq<u8>, k: int, m: int)
    requires
        0 <= k <= m <= x.len(),
    ensures
        count_lf(x.take(k)) <= count_lf(x.take(m)),
    decreases m - k,
{
    if k < m {
        lemma_count_lf_mono(x, k, m - 1);
        assert(x.take(m).drop_last() =~= x.take(m - 1));
    }
}

proof fn lemma_quoted_prefix(x: Seq<u8>, k: int, m: int)
    requires
        0 <= k <= m,
    ensures
        quoted_body(x, m).len() >= quoted_body(x, k).len(),
        quoted_body(x, m).take(quoted_body(x, k).len() as int) == quoted_body(x, k),
    decreases m - k,
{
    if k < m {
        lemma_quoted_prefix(x, k, m - 1);
        let a = quoted_body(x, m - 1);
        let b = quoted_body(x, k);
        assert((a + quoted_piece(x, m - 1)).take(b.len() as int) =~= a.take(b.len() as int));
    } else {
        assert(quoted_body(x, m).take(quoted_body(x, k).len() as int) =~= quoted_body(x, k));
    }
}

/// A piece starts with a backslash, or is a byte that the lexer takes as
/// it stands (no quote, backslash, line break or other control byte).
proof fn lemma_piece_start(x: Seq<u8>, j: int)
    requires
        0 <= j < x.len(),
    ensures
        quoted_piece(x, j).len() > 0,
        quoted_piece(x, j)[0] == 92u8 || (quoted_piece(x, j)[0] == x[j] && !is_control(x[j]) && x[j] != 34u8
            && x[j] != 92u8),
{
    reveal_with_fuel(spec_digits, 3);
}

/// A backslash and a quote or backslash reads as that byte.
proof fn lemma_read_simple(doc: Seq<u8>, q: int, b: u8, line: int, buf: Seq<u8>)
    requires
        0 <= q,
        q + 2 <= doc.len(),
        doc[q] == 92u8,
        doc[q + 1] == b,
        b == 34u8 || b == 92u8,
    ensures
        crate::llex::str_from(doc, q, line, 34u8, buf) == crate::llex::str_from(doc, q + 2, line, 34u8, buf.push(b)),
{
    assert(crate::llex::cur(doc, q) == 92);
    assert(crate::llex::cur(doc, q + 1) == b as int);
    assert(buf + seq![b] =~= buf.push(b));
}

/// A backslash and a line feed (not followed by a carriage return) reads
/// as a line feed and counts a line.
proof fn lemma_read_lf(doc: Seq<u8>, q: int, line: int, buf: Seq<u8>)
    requires
        0 <= q,
        q + 2 < doc.len(),
        doc[q] == 92u8,
        doc[q + 1] == 10u8,
        doc[q + 2] != 13u8,
        line + 1 < 0x7fffffff,
    ensures
        crate::llex::str_from(doc, q, line, 34u8, buf) == crate::llex::str_from(doc, q + 2, line + 1, 34u8, buf.push(10u8)),
{
    assert(crate::llex::cur(doc, q) == 92);
    assert(crate::llex::cur(doc, q + 1) == 10);
    assert(crate::llex::spec_newline(doc, q + 1, line) == Ok::<(int, int), crate::llex::LexErrorModel>((q + 2, line + 1)));
    assert(buf + seq![10u8] =~= buf.push(10u8));
}

/// A backslash and `nd` decimal digits worth `b`, not followed by a
/// further digit unless there are three, reads as the byte `b`.
proof fn lemma_read_decimal(doc: Seq<u8>, q: int, nd: int, b: u8, line: int, buf: Seq<u8>)
    requires
        0 <= q,
        1 <= nd <= 3,
        q + 1 + nd < doc.len(),
        doc[q] == 92u8,
        forall|j: int| 1 <= j <= nd ==> is_digit(#[trigger] doc[q + j]),
        nd < 3 ==> !is_digit(doc[q + 1 + nd]),
        nd == 1 ==> b == doc[q + 1] - 48,
        nd == 2 ==> b == (doc[q + 1] - 48) * 10 + (doc[q + 2] - 48),
        nd == 3 ==> b == (doc[q + 1] - 48) * 100 + (doc[q + 2] - 48) * 10 + (doc[q + 3] - 48),
    ensures
        crate::llex::str_from(doc, q, line, 34u8, buf) == crate::llex::str_from(doc, q + 1 + nd, line, 34u8, buf.push(b)),
{
    assert(crate::llex::cur(doc, q) == 92);
    assert(is_digit(doc[q + 1]));
    assert(crate::llex::cur(doc, q + 1) == doc[q + 1] as int);
    if nd >= 2 {
        assert(is_digit(doc[q + 2]));
    }
    if nd >= 3 {
        assert(is_digit(doc[q + 3]));
    }
    assert(crate::llex::spec_escape(doc, q + 1, line) == Ok::<(Seq<u8>, int, int), (crate::llex::LexErrorKind, int, crate::llex::EscNear)>(
        (seq![b], q + 1 + nd, line)));
    assert(buf + seq![b] =~= buf.push(b));
}

/// A byte that the lexer takes as it stands reads as itself.
proof fn lemma_read_plain(doc: Seq<u8>, q: int, b: u8, line: int, buf: Seq<u8>)
    requires
        0 <= q < doc.len(),
        doc[q] == b,
        b != 34u8 && b != 92u8 && b != 10u8 && b != 13u8,
    ensures
        crate::llex::str_from(doc, q, line, 34u8, buf) == crate::llex::str_from(doc, q + 1, line, 34u8, buf.push(b)),
{
    assert(crate::llex::cur(doc, q) == b as int);
    assert(buf + seq![b] =~= buf.push(b));
}

/// Reading one piece of `%q` text gives back its byte.
#[verifier::spinoff_prover]
#[verifier::rlimit(40)]
proof fn lemma_piece_reads_back(doc: Seq<u8>, q: int, x: Seq<u8>, k: int, line: int, buf: Seq<u8>)
    requires
        0 <= k < x.len(),
        0 <= q,
        q + quoted_piece(x, k).len() < doc.len(),
        doc.subrange(q, q + quoted_piece(x, k).len()) == quoted_piece(x, k),
        !is_digit(at(x, k + 1)) ==> !is_digit(doc[q + quoted_piece(x, k).len()]),
        doc[q + quoted_piece(x, k).len()] != 13u8,
        line + 1 < 0x7fffffff,
    ensures
        crate::llex::str_from(doc, q, line, 34u8, buf) == crate::llex::str_from(
            doc,
            q + quoted_piece(x, k).len(),
            line + if x[k] == 10u8 { 1int } else { 0int },
            34u8,
            buf.push(x[k]),
        ),
{
    let b = x[k];
    let piece = quoted_piece(x, k);
    let n = piece.len() as int;
    reveal_with_fuel(spec_digits, 3);
    assert forall|j: int| 0 <= j < n implies doc[q + j] == #[trigger] piece[j] by {
        assert(doc.subrange(q, q + n)[j] == doc[q + j]);
    }
    if b == 34u8 || b == 92u8 {
        assert(piece =~= seq![92u8, b]);
        assert(doc[q] == piece[0] && doc[q + 1] == piece[1]);
        lemma_read_simple(doc, q, b, line, buf);
    } else if b == 10u8 {
        assert(piece =~= seq![92u8, 10u8]);
        assert(doc[q] == piece[0] && doc[q + 1] == piece[1]);
        lemma_read_lf(doc, q, line, buf);
    } else if is_control(b) {
        let d = if is_digit(at(x, k + 1)) { three_digits(b as nat) } else { spec_digits(b as nat) };
        assert(piece =~= seq![92u8] + d);
        if b < 10u8 {
            assert(spec_digits(b as nat) =~= seq![(48 + b) as u8]);
        } else if b < 100u8 {
            assert(spec_digits(b as nat) =~= seq![(48 + b / 10) as u8, (48 + b % 10) as u8]);
        } else {
            assert(b == 127u8);
            assert(spec_digits(b as nat) =~= seq![49u8, 50u8, 55u8]);
        }
        assert(doc[q] == piece[0]);
        assert forall|j: int| 1 <= j < n implies is_digit(#[trigger] doc[q + j]) by {
            assert(doc[q + j] == piece[j]);
        }
        if n >= 2 {
            assert(doc[q + 1] == piece[1]);
        }
        if n >= 3 {
            assert(doc[q + 2] == piece[2]);
        }
        if n >= 4 {
            assert(doc[q + 3] == piece[3]);
        }
        lemma_read_decimal(doc, q, n - 1, b, line, buf);
    } else {
        assert(piece =~= seq![b]);
        assert(doc[q] == piece[0]);
        lemma_read_plain(doc, q, b, line, buf);
    }
}

/// Where piece `k` of the quoted form of `x` stands in a text, and what
/// follows it: not a digit unless the next byte of `x` is one, never a
/// carriage return.
#[verifier::spinoff_prover]
#[verifier::rlimit(40)]
proof fn lemma_piece_layout(pre: Seq<u8>, x: Seq<u8>, post: Seq<u8>, k: int)
    requires
        0 <= k < x.len(),
    ensures
        ({
            let doc = pre + spec_addquoted(x) + post;
            let q = (pre.len() + 1 + quoted_body(x, k).len()) as int;
            let m = quoted_piece(x, k).len() as int;
            &&& q + m < doc.len()
            &&& doc.subrange(q, q + m) == quoted_piece(x, k)
            &&& (!is_digit(at(x, k + 1)) ==> !is_digit(doc[q + m]))
            &&& doc[q + m] != 13u8
            &&& q + m == pre.len() + 1 + quoted_body(x, k + 1).len()
        }),
{
    let doc = pre + spec_addquoted(x) + post;
    let n = x.len() as int;
    let body = quoted_body(x, n);
    let base = pre.len() + 1;
    let q = (base + quoted_body(x, k).len()) as int;
    lemma_quoted_prefix(x, k + 1, n);
    let before = quoted_body(x, k);
    let piece = quoted_piece(x, k);
    assert(quoted_body(x, k + 1) == before + piece);
    assert forall|j: int| 0 <= j < body.len() implies doc[base + j] == #[trigger] body[j] by {}
    assert forall|j: int| 0 <= j < piece.len() implies doc.subrange(q, q + piece.len())[j] == #[trigger] piece[j] by {
        assert(body.take((before + piece).len() as int)[before.len() + j] == (before + piece)[before.len() + j]);
    }
    assert(doc.subrange(q, q + piece.len()) =~= piece);
    let after = q + piece.len();
    if k + 1 < n {
        lemma_quoted_prefix(x, k + 2, n);
        lemma_piece_start(x, k + 1);
        let b2 = quoted_body(x, k + 1);
        let p2 = quoted_piece(x, k + 1);
        assert(quoted_body(x, k + 2) == b2 + p2);
        assert(body.take((b2 + p2).len() as int)[b2.len() as int] == (b2 + p2)[b2.len() as int]);
        assert(doc[after] == p2[0]);
        assert(at(x, k + 1) == x[k + 1]);
    } else {
        assert(doc[after] == 34u8);
    }
}

#[verifier::spinoff_prover]
#[verifier::rlimit(40)]
proof fn lemma_quoted_body_reads_back(pre: Seq<u8>, x: Seq<u8>, post: Seq<u8>, line: int, k: int)
    requires
        0 <= k <= x.len(),
        0 <= line,
        line + count_lf(x) + 1 < 0x7fffffff,
    ensures
        crate::llex::str_from(
            pre + spec_addquoted(x) + post,
            (pre.len() + 1 + quoted_body(x, k).len()) as int,
            line + count_lf(x.take(k)),
            34u8,
            seq![34u8] + x.take(k),
        ) == Ok::<(Seq<u8>, int, int), crate::llex::LexErrorModel>(
            (x, (pre.len() + spec_addquoted(x).len()) as int, line + count_lf(x)),
        ),
    decreases x.len() - k,
{
    let doc = pre + spec_addquoted(x) + post;
    let n = x.len() as int;
    let q = (pre.len() + 1 + quoted_body(x, k).len()) as int;
    assert(x.take(n) =~= x);
    if k == n {
        assert(doc[q] == 34u8);
        assert(crate::llex::cur(doc, q) == 34);
        assert((seq![34u8] + x.take(k)).skip(1) =~= x);
    } else {
        lemma_piece_layout(pre, x, post, k);
        lemma_count_lf_step(x, k);
        lemma_count_lf_mono(x, k + 1, n);
        lemma_piece_reads_back(doc, q, x, k, line + count_lf(x.take(k)), seq![34u8] + x.take(k));
        assert((seq![34u8] + x.take(k)).push(x[k]) =~= seq![34u8] + x.take(k + 1));
        lemma_quoted_body_reads_back(pre, x, post, line, k + 1);
    }
}

/// What `%q` writes, Lua reads back: lexing the quoted form of any bytes
/// `x` gives the string `x` itself, and lexing ends right after the closing
/// quote, the line count moved on by the line feeds of `x` (each written as
/// a backslash and a line break). Every control byte is written as a
/// decimal escape that the lexer reads whole and no further: three digits
/// when a digit follows it.
pub proof fn lemma_quoted_reads_back(pre: Seq<u8>, x: Seq<u8>, post: Seq<u8>, line: int)
    requires
        0 <= line,
        line + count_lf(x) + 1 < 0x7fffffff,
    ensures
        crate::llex::spec_llex(pre + spec_addquoted(x) + post, pre.len() as int, line) == Ok::<
            (crate::llex::TokenModel, int, int),
            crate::llex::LexErrorModel,
        >((crate::llex::TokenModel::Str(x), (pre.len() + spec_addquoted(x).len()) as int, line + count_lf(x))),
{
    let doc = pre + spec_addquoted(x) + post;
    let p = pre.len() as int;
    assert(doc[p] == 34u8);
    lemma_quoted_body_reads_back(pre, x, post, line, 0);
    assert(x.take(0) =~= Seq::<u8>::empty());
    assert(seq![34u8] + x.take(0) =~= seq![34u8]);
    assert(crate::llex::spec_read_string(doc, p, line) == crate::llex::str_from(doc, p + 1, line, 34u8, seq![34u8]));
    crate::llex::lemma_llex_string(doc, p, line);
}


/// The three decimal digits of a byte write its value.
proof fn lemma_three_digits(c: u8)
    ensures
        three_digits(c as nat).len() == 3,
        is_digit(three_digits(c as nat)[0]) && is_digit(three_digits(c as nat)[1]) && is_digit(three_digits(c as nat)[2]),
        c == (three_digits(c as nat)[0] - 48) * 100 + (three_digits(c as nat)[1] - 48) * 10 + (three_digits(c as nat)[2] - 48),
{
    let t = three_digits(c as nat);
    reveal_with_fuel(spec_digits, 3);
    if c < 10u8 {
        assert(t =~= seq![48u8, 48u8, (48 + c) as u8]);
    } else if c < 100u8 {
        assert(spec_digits(c as nat) =~= seq![(48 + c / 10) as u8, (48 + c % 10) as u8]);
        assert(t =~= seq![48u8, (48 + c / 10) as u8, (48 + c % 10) as u8]);
    } else {
        assert(spec_digits(c as nat) =~= seq![(48 + c / 100) as u8, (48 + (c / 10) % 10) as u8, (48 + c % 10) as u8]);
        assert(t =~= seq![(48 + c / 100) as u8, (48 + (c / 10) % 10) as u8, (48 + c % 10) as u8]);
    }
}

/// A decimal escape of three digits stands for the byte they write, and
/// whatever follows it is read as it stands, digits included: lexing a
/// string literal made of bytes `a` taken as they stand, `\` and the three
/// decimal digits of any byte `c` (with leading zeros), and more such bytes
/// `b`, between matching quotes, gives the string `a`, `c`, `b`.
#[verifier::spinoff_prover]
#[verifier::rlimit(40)]
pub proof fn lemma_decimal_escapes(pre: Seq<u8>, a: Seq<u8>, c: u8, b: Seq<u8>, post: Seq<u8>, del: u8, line: int)
    requires
        del == 34u8 || del == 39u8,
        crate::llex::plain_in_string(a, del),
        crate::llex::plain_in_string(b, del),
    ensures
        ({
            let s = pre + seq![del] + a + seq![92u8] + three_digits(c as nat) + b + seq![del] + post;
            crate::llex::spec_llex(s, pre.len() as int, line) == Ok::<
                (crate::llex::TokenModel, int, int),
                crate::llex::LexErrorModel,
            >((crate::llex::TokenModel::Str(a + seq![c] + b), (pre.len() + a.len() + b.len() + 6) as int, line))
        }),
{
    let t = three_digits(c as nat);
    let s = pre + seq![del] + a + seq![92u8] + t + b + seq![del] + post;
    let p = pre.len() as int;
    let pe = p + 1 + a.len();
    lemma_three_digits(c);
    assert(s[p] == del);
    assert(s.subrange(p + 1, p + 1 + a.len()) =~= a);
    assert(s[pe] == 92u8);
    assert(s[pe + 1] == t[0] && s[pe + 2] == t[1] && s[pe + 3] == t[2]);
    assert(s.subrange(pe + 4, pe + 4 + b.len()) =~= b);
    assert(s[pe + 4 + b.len()] == del);
    assert forall|j: int| 1 <= j <= 3 implies is_digit(#[trigger] s[pe + j]) by {}
    crate::llex::lemma_plain_run(s, p + 1, a, line, del, seq![del]);
    let buf1 = seq![del] + a;
    lemma_read_decimal_at(s, pe, c, line, buf1, del);
    let buf2 = buf1.push(c);
    crate::llex::lemma_plain_run(s, pe + 4, b, line, del, buf2);
    let pd = pe + 4 + b.len();
    assert(crate::llex::cur(s, pd) == del as int);
    assert((buf2 + b).skip(1) =~= a + seq![c] + b);
    assert(crate::llex::str_from(s, pd, line, del, buf2 + b) == Ok::<(Seq<u8>, int, int), crate::llex::LexErrorModel>(
        ((buf2 + b).skip(1), pd + 1, line)));
    assert(crate::llex::spec_read_string(s, p, line) == crate::llex::str_from(s, p + 1, line, del, seq![del]));
    crate::llex::lemma_llex_string(s, p, line);
}

/// A backslash and three decimal digits worth `c` reads as the byte `c`,
/// whatever the closing quote.
proof fn lemma_read_decimal_at(doc: Seq<u8>, q: int, c: u8, line: int, buf: Seq<u8>, del: u8)
    requires
        0 <= q,
        q + 4 < doc.len(),
        del == 34u8 || del == 39u8,
        doc[q] == 92u8,
        forall|j: int| 1 <= j <= 3 ==> is_digit(#[trigger] doc[q + j]),
        c == (doc[q + 1] - 48) * 100 + (doc[q + 2] - 48) * 10 + (doc[q + 3] - 48),
    ensures
        crate::llex::str_from(doc, q, line, del, buf) == crate::llex::str_from(doc, q + 4, line, del, buf.push(c)),
{
    assert(crate::llex::cur(doc, q) == 92);
    assert(is_digit(doc[q + 1]) && is_digit(doc[q + 2]) && is_digit(doc[q + 3]));
    assert(crate::llex::cur(doc, q + 1) == doc[q + 1] as int);
    assert(crate::llex::spec_escape(doc, q + 1, line) == Ok::<(Seq<u8>, int, int), (crate::llex::LexErrorKind, int, crate::llex::EscNear)>(
        (seq![c], q + 4, line)));
    assert(buf + seq![c] =~= buf.push(c));
}

} // verus!
