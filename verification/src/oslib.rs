use vstd::prelude::*;

verus! {

// ─── os.date ─────────────────────────────────────────────────────────────────

/// The conversions of one letter that `os.date` accepts.
pub open spec fn single_options() -> Seq<u8> {
    seq![97u8, 65u8, 98u8, 66u8, 99u8, 67u8, 100u8, 68u8, 101u8, 70u8, 103u8, 71u8, 104u8, 72u8, 73u8, 106u8, 109u8,
    77u8, 110u8, 112u8, 114u8, 82u8, 83u8, 116u8, 84u8, 117u8, 85u8, 86u8, 119u8, 87u8, 120u8, 88u8, 121u8, 89u8, 122u8,
    90u8, 37u8]
}

/// The conversions of two letters (`E` or `O` and a letter), in pairs.
pub open spec fn double_options() -> Seq<u8> {
    seq![69u8, 99u8, 69u8, 67u8, 69u8, 120u8, 69u8, 88u8, 69u8, 121u8, 69u8, 89u8, 79u8, 100u8, 79u8, 101u8, 79u8, 72u8,
    79u8, 73u8, 79u8, 109u8, 79u8, 77u8, 79u8, 83u8, 79u8, 117u8, 79u8, 85u8, 79u8, 86u8, 79u8, 119u8, 79u8, 87u8,
    79u8, 121u8]
}

/// The length of the conversion at the start of `conv` (what follows a
/// `%`): 1 for a letter of `single_options`, 2 for a pair of
/// `double_options`; `None` for anything else.
pub open spec fn spec_checkoption(conv: Seq<u8>) -> Option<nat> {
    if conv.len() >= 1 && single_options().contains(conv[0]) {
        Some(1)
    } else if conv.len() >= 2 && exists|k: int|
        0 <= k < 19 && #[trigger] double_options()[2 * k] == conv[0] && double_options()[2 * k + 1] == conv[1] {
        Some(2)
    } else {
        None
    }
}

/// Reads the conversion at the start of `conv`.
pub fn checkoption(conv: &[u8]) -> (r: Option<usize>)
    ensures
        match spec_checkoption(conv@) {
            Some(n) => r == Some(n as usize),
            None => r is None,
        },
{
    let single: Vec<u8> = vec![97u8, 65u8, 98u8, 66u8, 99u8, 67u8, 100u8, 68u8, 101u8, 70u8, 103u8, 71u8, 104u8, 72u8, 73u8, 106u8, 109u8,
    77u8, 110u8, 112u8, 114u8, 82u8, 83u8, 116u8, 84u8, 117u8, 85u8, 86u8, 119u8, 87u8, 120u8, 88u8, 121u8, 89u8, 122u8,
    90u8, 37u8];
    let double: Vec<u8> = vec![69u8, 99u8, 69u8, 67u8, 69u8, 120u8, 69u8, 88u8, 69u8, 121u8, 69u8, 89u8, 79u8, 100u8, 79u8, 101u8, 79u8, 72u8,
    79u8, 73u8, 79u8, 109u8, 79u8, 77u8, 79u8, 83u8, 79u8, 117u8, 79u8, 85u8, 79u8, 86u8, 79u8, 119u8, 79u8, 87u8,
    79u8, 121u8];
    proof {
        assert(single@ =~= single_options());
        assert(double@ =~= double_options());
    }
    if conv.len() >= 1 {
        let mut i: usize = 0;
        while i < single.len()
            invariant
                single@ == single_options(),
                conv@.len() >= 1,
                i <= single@.len(),
                forall|j: int| 0 <= j < i ==> single@[j] != conv@[0],
            decreases single@.len() - i,
        {
            if single[i] == conv[0] {
                proof {
                    assert(single_options().contains(conv@[0]));
                }
                return Some(1);
            }
            i = i + 1;
        }
        proof {
            assert(!single_options().contains(conv@[0]));
        }
    }
    if conv.len() >= 2 {
        let mut k: usize = 0;
        while k < 19
            invariant
                double@ == double_options(),
                conv@.len() >= 2,
                k <= 19,
                !single_options().contains(conv@[0]),
                forall|j: int| 0 <= j < k ==> !(#[trigger] double_options()[2 * j] == conv@[0] && double_options()[2 * j + 1] == conv@[1]),
            decreases 19 - k,
        {
            if double[2 * k] == conv[0] && double[2 * k + 1] == conv[1] {
                return Some(2);
            }
            k = k + 1;
        }
    }
    None
}

/// A piece of an `os.date` format: a byte to copy, or a conversion (its
/// letters, without the `%`) for `strftime`.
#[derive(Debug)]
pub enum DatePiece {
    Byte(u8),
    Conversion(Vec<u8>),
}

pub enum DatePieceModel {
    Byte(u8),
    Conversion(Seq<u8>),
}

pub open spec fn date_piece_view(p: DatePiece) -> DatePieceModel {
    match p {
        DatePiece::Byte(b) => DatePieceModel::Byte(b),
        DatePiece::Conversion(c) => DatePieceModel::Conversion(c@),
    }
}

/// The pieces of the format from index `i` on, or the index just after the
/// `%` of the first invalid conversion.
pub open spec fn date_pieces_from(f: Seq<u8>, i: int) -> Result<Seq<DatePieceModel>, int>
    decreases f.len() - i,
{
    if i < 0 || i >= f.len() {
        Ok(Seq::empty())
    } else if f[i] != 37u8 {
        match date_pieces_from(f, i + 1) {
            Ok(rest) => Ok(seq![DatePieceModel::Byte(f[i])] + rest),
            Err(e) => Err(e),
        }
    } else {
        match spec_checkoption(f.skip(i + 1)) {
            None => Err(i + 1),
            Some(n) => match date_pieces_from(f, i + 1 + n) {
                Ok(rest) => Ok(seq![DatePieceModel::Conversion(f.subrange(i + 1, i + 1 + n))] + rest),
                Err(e) => Err(e),
            },
        }
    }
}

/// How `os.date` reads its format.
#[derive(Debug)]
pub enum DateFormat {
    /// `*t` (or `!*t`): a table of the fields.
    Table { utc: bool },
    /// A text made of pieces.
    Text { utc: bool, pieces: Vec<DatePiece> },
}

pub enum DateFormatModel {
    Table { utc: bool },
    Text { utc: bool, pieces: Seq<DatePieceModel> },
}

/// A leading `!` asks for UTC; then `*t` asks for a table (compared as a C
/// string, so anything after a zero byte is ignored), and any other format
/// is split into pieces; `Err` gives the index just after the `%` of the
/// first invalid conversion (the message shows the format from there).
pub open spec fn spec_date_format(f: Seq<u8>) -> Result<DateFormatModel, int> {
    let utc = f.len() > 0 && f[0] == 33u8;
    let start: int = if utc { 1 } else { 0 };
    let rest = f.skip(start);
    if crate::lobject::cstr(rest) == seq![42u8, 116u8] {
        Ok(DateFormatModel::Table { utc })
    } else {
        match date_pieces_from(f, start) {
            Ok(p) => Ok(DateFormatModel::Text { utc, pieces: p }),
            Err(e) => Err(e),
        }
    }
}

pub open spec fn date_format_view(d: DateFormat) -> DateFormatModel {
    match d {
        DateFormat::Table { utc } => DateFormatModel::Table { utc },
        DateFormat::Text { utc, pieces } => DateFormatModel::Text {
            utc,
            pieces: pieces@.map_values(|p: DatePiece| date_piece_view(p)),
        },
    }
}

/// Reads the format of `os.date` (see `spec_date_format`).
pub fn date_format(f: &[u8]) -> (r: Result<DateFormat, usize>)
    ensures
        match spec_date_format(f@) {
            Ok(d) => r matches Ok(x) && date_format_view(x) == d,
            Err(e) => r == Err::<DateFormat, usize>(e as usize),
        },
{
    let utc = f.len() > 0 && f[0] == 33u8;
    let start: usize = if utc { 1 } else { 0 };
    let n = f.len();
    let rest = &f[start..n];
    let c = crate::lobject::cstr_exec(rest);
    proof {
        assert(rest@ =~= f@.skip(start as int));
    }
    if c.len() == 2 && c[0] == 42u8 && c[1] == 116u8 {
        proof {
            assert(c@ =~= seq![42u8, 116u8]);
        }
        return Ok(DateFormat::Table { utc });
    }
    proof {
        if c@ == seq![42u8, 116u8] {
            assert(c@.len() == 2 && c@[0] == 42u8 && c@[1] == 116u8);
        }
    }
    let mut pieces: Vec<DatePiece> = Vec::new();
    let mut i: usize = start;
    while i < n
        invariant
            start <= i <= n,
            n == f@.len(),
            utc == (f@.len() > 0 && f@[0] == 33u8),
            start == (if utc { 1int } else { 0int }),
            crate::lobject::cstr(f@.skip(start as int)) != seq![42u8, 116u8],
            date_pieces_from(f@, start as int) == (match date_pieces_from(f@, i as int) {
                Ok(rest) => Ok(pieces@.map_values(|p: DatePiece| date_piece_view(p)) + rest),
                Err(e) => Err::<Seq<DatePieceModel>, int>(e),
            }),
        decreases n - i,
    {
        let ghost before = pieces@;
        if f[i] != 37u8 {
            pieces.push(DatePiece::Byte(f[i]));
            proof {
                let r = date_pieces_from(f@, i + 1);
                if r is Ok {
                    assert(pieces@.map_values(|p: DatePiece| date_piece_view(p)) =~= before.map_values(|p: DatePiece| date_piece_view(p)).push(DatePieceModel::Byte(f@[i as int])));
                    assert(before.map_values(|p: DatePiece| date_piece_view(p)) + (seq![DatePieceModel::Byte(f@[i as int])] + r->Ok_0)
                        =~= pieces@.map_values(|p: DatePiece| date_piece_view(p)) + r->Ok_0);
                }
            }
            i = i + 1;
        } else {
            let tail = &f[i + 1..n];
            proof {
                assert(tail@ =~= f@.skip(i + 1));
            }
            match checkoption(tail) {
                None => {
                    return Err(i + 1);
                },
                Some(k) => {
                    let conv = vstd::slice::slice_to_vec(&f[i + 1..i + 1 + k]);
                    pieces.push(DatePiece::Conversion(conv));
                    proof {
                        let r = date_pieces_from(f@, i + 1 + k);
                        if r is Ok {
                            assert(pieces@.map_values(|p: DatePiece| date_piece_view(p)) =~= before.map_values(|p: DatePiece| date_piece_view(p)).push(DatePieceModel::Conversion(f@.subrange(i + 1, i + 1 + k))));
                            assert(before.map_values(|p: DatePiece| date_piece_view(p)) + (seq![DatePieceModel::Conversion(f@.subrange(i + 1, i + 1 + k))] + r->Ok_0)
                                =~= pieces@.map_values(|p: DatePiece| date_piece_view(p)) + r->Ok_0);
                        }
                    }
                    i = i + 1 + k;
                },
            }
        }
    }
    proof {
        assert(pieces@.map_values(|p: DatePiece| date_piece_view(p)) + Seq::<DatePieceModel>::empty() =~= pieces@.map_values(|p: DatePiece| date_piece_view(p)));
    }
    Ok(DateFormat::Text { utc, pieces })
}

// ─── os.time ─────────────────────────────────────────────────────────────────

/// A field of a date table.
#[derive(Debug, PartialEq, Eq, Clone, Copy, Structural)]
pub enum FieldValue {
    /// The field is absent (nil).
    Missing,
    /// The field holds something that is not an integer.
    NotInteger,
    Integer(i64),
}

/// Why `os.time` refuses a date table.
#[derive(Debug, PartialEq, Eq, Clone, Copy, Structural)]
pub enum FieldError {
    /// `field '...' is not an integer`
    NotInteger,
    /// `field '...' missing in date table`
    Missing,
    /// `field '...' is out-of-bound`
    OutOfBound,
}

/// A field of a date table as `struct tm` holds it: the value less
/// `delta`, which must fit in an `int`; an absent field takes the default
/// `d`, unless `d` is negative (the field is required).
pub open spec fn spec_getfield(v: FieldValue, d: i32, delta: i32) -> Result<i32, FieldError> {
    match v {
        FieldValue::NotInteger => Err(FieldError::NotInteger),
        FieldValue::Missing => if d < 0 {
            Err(FieldError::Missing)
        } else {
            Ok(d)
        },
        FieldValue::Integer(res) => if (res >= 0 && res - delta <= 0x7fffffff) || (res < 0 && -0x80000000 + delta <= res) {
            Ok((res - delta) as i32)
        } else {
            Err(FieldError::OutOfBound)
        },
    }
}

/// Reads a field of a date table (see `spec_getfield`).
pub fn getfield(v: FieldValue, d: i32, delta: i32) -> (r: Result<i32, FieldError>)
    requires
        0 <= delta <= 1900,
    ensures
        r == spec_getfield(v, d, delta),
{
    match v {
        FieldValue::NotInteger => Err(FieldError::NotInteger),
        FieldValue::Missing => {
            if d < 0 {
                Err(FieldError::Missing)
            } else {
                Ok(d)
            }
        },
        FieldValue::Integer(res) => {
            if (res >= 0 && res - delta as i64 <= 0x7fffffff) || (res < 0 && -0x80000000i64 + delta as i64 <= res) {
                Ok((res - delta as i64) as i32)
            } else {
                Err(FieldError::OutOfBound)
            }
        },
    }
}

/// The fields of a `struct tm` that `os.time` builds.
#[derive(Debug, PartialEq, Eq, Clone, Copy, Structural)]
pub struct TimeFields {
    pub year: i32,
    pub month: i32,
    pub day: i32,
    pub hour: i32,
    pub min: i32,
    pub sec: i32,
}

/// The date table's fields in the order `os.time` reads them: year (less
/// 1900), month (less 1) and day are required; hour defaults to 12, minute
/// and second to 0. The error names the first bad field (0 for the year).
pub open spec fn spec_time_fields(year: FieldValue, month: FieldValue, day: FieldValue, hour: FieldValue,
    min: FieldValue, sec: FieldValue) -> Result<TimeFields, (u8, FieldError)> {
    match spec_getfield(year, -1i32, 1900) {
        Err(e) => Err((0u8, e)),
        Ok(y) => match spec_getfield(month, -1i32, 1) {
            Err(e) => Err((1u8, e)),
            Ok(mo) => match spec_getfield(day, -1i32, 0) {
                Err(e) => Err((2u8, e)),
                Ok(dd) => match spec_getfield(hour, 12, 0) {
                    Err(e) => Err((3u8, e)),
                    Ok(h) => match spec_getfield(min, 0, 0) {
                        Err(e) => Err((4u8, e)),
                        Ok(mi) => match spec_getfield(sec, 0, 0) {
                            Err(e) => Err((5u8, e)),
                            Ok(s) => Ok(TimeFields { year: y, month: mo, day: dd, hour: h, min: mi, sec: s }),
                        },
                    },
                },
            },
        },
    }
}

/// Reads the fields of a date table for `os.time`.
pub fn time_fields(year: FieldValue, month: FieldValue, day: FieldValue, hour: FieldValue, min: FieldValue,
    sec: FieldValue) -> (r: Result<TimeFields, (u8, FieldError)>)
    ensures
        r == spec_time_fields(year, month, day, hour, min, sec),
{
    let y = match getfield(year, -1, 1900) {
        Err(e) => { return Err((0u8, e)); },
        Ok(v) => v,
    };
    let mo = match getfield(month, -1, 1) {
        Err(e) => { return Err((1u8, e)); },
        Ok(v) => v,
    };
    let dd = match getfield(day, -1, 0) {
        Err(e) => { return Err((2u8, e)); },
        Ok(v) => v,
    };
    let h = match getfield(hour, 12, 0) {
        Err(e) => { return Err((3u8, e)); },
        Ok(v) => v,
    };
    let mi = match getfield(min, 0, 0) {
        Err(e) => { return Err((4u8, e)); },
        Ok(v) => v,
    };
    let s = match getfield(sec, 0, 0) {
        Err(e) => { return Err((5u8, e)); },
        Ok(v) => v,
    };
    Ok(TimeFields { year: y, month: mo, day: dd, hour: h, min: mi, sec: s })
}

/// The fields that `os.date("*t")` and `os.time` put in a date table from a
/// `struct tm`: year (+1900), month (+1), day, hour, min, sec, yday (+1),
/// wday (+1), in that order.
pub fn date_table_fields(year: i32, mon: i32, mday: i32, hour: i32, min: i32, sec: i32, yday: i32, wday: i32) -> (r: [i64; 8])
    ensures
        r@.len() == 8,
        r@[0] == year + 1900,
        r@[1] == mon + 1,
        r@[2] == mday,
        r@[3] == hour,
        r@[4] == min,
        r@[5] == sec,
        r@[6] == yday + 1,
        r@[7] == wday + 1,
{
    [year as i64 + 1900, mon as i64 + 1, mday as i64, hour as i64, min as i64, sec as i64, yday as i64 + 1,
        wday as i64 + 1]
}


// ─── os.setlocale and os.exit ────────────────────────────────────────────────

/// The category names of `os.setlocale`, in order.
pub open spec fn locale_names() -> Seq<Seq<u8>> {
    seq![
        seq![97u8, 108u8, 108u8],
        seq![99u8, 111u8, 108u8, 108u8, 97u8, 116u8, 101u8],
        seq![99u8, 116u8, 121u8, 112u8, 101u8],
        seq![109u8, 111u8, 110u8, 101u8, 116u8, 97u8, 114u8, 121u8],
        seq![110u8, 117u8, 109u8, 101u8, 114u8, 105u8, 99u8],
        seq![116u8, 105u8, 109u8, 101u8],
    ]
}

/// The `LC_` codes of those categories: `LC_ALL` 6, `LC_COLLATE` 3,
/// `LC_CTYPE` 0, `LC_MONETARY` 4, `LC_NUMERIC` 1, `LC_TIME` 2.
pub open spec fn locale_codes() -> Seq<i32> {
    seq![6i32, 3i32, 0i32, 4i32, 1i32, 2i32]
}

/// The first category from the `k`-th on named `n`.
pub open spec fn locale_from(n: Seq<u8>, k: int) -> Option<i32>
    decreases 6 - k,
{
    if k < 0 || k >= 6 {
        None
    } else if locale_names()[k] == n {
        Some(locale_codes()[k])
    } else {
        locale_from(n, k + 1)
    }
}

/// The category `os.setlocale` sets for `name` (read as C reads it, up to a
/// zero byte; `all` when absent); `None` for an unknown name
/// (`invalid option`).
pub open spec fn spec_locale_category(name: Option<Seq<u8>>) -> Option<i32> {
    match name {
        None => Some(6i32),
        Some(n) => locale_from(crate::lobject::cstr(n), 0),
    }
}

/// Reads the category of `os.setlocale`.
pub fn locale_category(name: Option<&[u8]>) -> (r: Option<i32>)
    ensures
        r == spec_locale_category(
            match name {
                Some(n) => Some(n@),
                None => None,
            },
        ),
{
    match name {
        None => Some(6i32),
        Some(n) => {
            let c = crate::lobject::cstr_exec(n);
            locale_named(c.as_slice())
        },
    }
}

fn locale_named(c: &[u8]) -> (r: Option<i32>)
    ensures
        r == locale_from(c@, 0),
{
    let names: Vec<Vec<u8>> = vec![
        vec![97u8, 108u8, 108u8],
        vec![99u8, 111u8, 108u8, 108u8, 97u8, 116u8, 101u8],
        vec![99u8, 116u8, 121u8, 112u8, 101u8],
        vec![109u8, 111u8, 110u8, 101u8, 116u8, 97u8, 114u8, 121u8],
        vec![110u8, 117u8, 109u8, 101u8, 114u8, 105u8, 99u8],
        vec![116u8, 105u8, 109u8, 101u8],
    ];
    let codes: Vec<i32> = vec![6i32, 3i32, 0i32, 4i32, 1i32, 2i32];
    proof {
        assert forall|j: int| 0 <= j < 6 implies #[trigger] names@[j]@ == locale_names()[j] by {
            assert(names@[j]@ =~= locale_names()[j]);
        }
        assert(codes@ =~= locale_codes());
    }
    let mut k: usize = 0;
    while k < 6
        invariant
            k <= 6,
            names@.len() == 6,
            codes@ == locale_codes(),
            forall|j: int| 0 <= j < 6 ==> #[trigger] names@[j]@ == locale_names()[j],
            locale_from(c@, k as int) == locale_from(c@, 0),
        decreases 6 - k,
    {
        if crate::toml::bytes_eq(names[k].as_slice(), c) {
            return Some(codes[k]);
        }
        k = k + 1;
    }
    None
}

/// The argument of `os.exit`: absent, a boolean or an integer.
#[derive(Debug, PartialEq, Eq, Clone, Copy, Structural)]
pub enum ExitArg {
    Absent,
    Bool(bool),
    Integer(i64),
}

/// The status `os.exit` ends the process with: 0 for `true` or no
/// argument, 1 for `false`, else the integer (cut to 32 bits).
pub fn exit_status(arg: ExitArg) -> (r: i32)
    ensures
        r == (match arg {
            ExitArg::Absent => 0i32,
            ExitArg::Bool(b) => if b { 0i32 } else { 1i32 },
            ExitArg::Integer(n) => n as i32,
        }),
{
    match arg {
        ExitArg::Absent => 0,
        ExitArg::Bool(b) => if b { 0 } else { 1 },
        ExitArg::Integer(n) => n as i32,
    }
}

} // verus!
