use vstd::prelude::*;
use crate::lobject::spec_decimal;
use crate::lobject::integer_to_string;
use crate::toml::TomlFloat;
use crate::toml::spec_bare_key_char;
use crate::toml::is_bare_key_char;

verus! {

// ─── The Lua values that `toml.stringify` reads ──────────────────────────────

/// A key of a Lua table, as the serializer sees it.
#[derive(Debug)]
pub enum LuaKey {
    Int(i64),
    /// A float key (never integral: Lua keeps those as integers) with the
    /// text that `tostring` gives it.
    Float(Vec<u8>),
    /// A string key and the integer it converts to, if it converts to one.
    Str(Vec<u8>, Option<i64>),
    /// A key of any other type.
    Other,
}

/// A Lua value, as the serializer sees it.
#[derive(Debug)]
pub enum LuaData {
    Nil,
    Bool(bool),
    Int(i64),
    Float(TomlFloat),
    Str(Vec<u8>),
    Table(LuaTable),
    /// A value of another type, with its type tag.
    Other(u8),
}

/// A Lua table: its entries in traversal order, and its length (a border,
/// as the length operator gives it without metamethods).
#[derive(Debug)]
pub struct LuaTable {
    pub entries: Vec<(LuaKey, LuaData)>,
    pub border: usize,
}

/// The type tag of `nil`.
pub const NIL_TAG: u8 = 0;

/// The text of a key as `tostring` gives it; `None` for a key that is
/// neither a number nor a string.
pub open spec fn key_text(k: LuaKey) -> Option<Seq<u8>> {
    match k {
        LuaKey::Int(i) => Some(spec_decimal(i as int)),
        LuaKey::Float(t) => Some(t@),
        LuaKey::Str(s, _) => Some(s@),
        LuaKey::Other => None,
    }
}

/// The integer a key converts to, if any.
pub open spec fn key_int(k: LuaKey) -> Option<i64> {
    match k {
        LuaKey::Int(i) => Some(i),
        LuaKey::Str(_, n) => n,
        _ => None,
    }
}

/// The index of the first entry from `j` on whose key is the integer `i`.
pub open spec fn int_key_index(e: Seq<(LuaKey, LuaData)>, i: int, j: int) -> Option<int>
    decreases e.len() - j,
{
    if j < 0 || j >= e.len() {
        None
    } else if e[j].0 matches LuaKey::Int(k) && k == i {
        Some(j)
    } else {
        int_key_index(e, i, j + 1)
    }
}

/// The index of the entry at integer key `i`.
pub open spec fn raw_index(t: LuaTable, i: int) -> Option<int> {
    int_key_index(t.entries@, i, 0)
}

pub proof fn lemma_int_key_index(e: Seq<(LuaKey, LuaData)>, i: int, j: int)
    requires
        0 <= j,
    ensures
        int_key_index(e, i, j) matches Some(k) ==> j <= k < e.len() && (e[k].0 matches LuaKey::Int(
            x,
        ) && x == i),
        int_key_index(e, i, j) is None ==> forall|k: int|
            j <= k < e.len() ==> !(#[trigger] e[k].0 matches LuaKey::Int(x) && x == i),
    decreases e.len() - j,
{
    if j < e.len() {
        lemma_int_key_index(e, i, j + 1);
    }
}

/// A table is written as an array when it has no entries and length 0, or
/// when it has as many entries as its length and every key converts to an
/// integer between 1 and the length.
pub open spec fn spec_is_array(t: LuaTable) -> bool {
    if t.border == 0 {
        t.entries@.len() == 0
    } else {
        &&& t.entries@.len() == t.border
        &&& forall|j: int|
            0 <= j < t.entries@.len() ==> (key_int(#[trigger] t.entries@[j].0) matches Some(k) && 1
                <= k <= t.border)
    }
}

/// An array whose first element is a table: written as an array of tables.
pub open spec fn is_table_array(t: LuaTable) -> bool {
    &&& spec_is_array(t)
    &&& t.border > 0
    &&& raw_index(t, 1) matches Some(j) && t.entries@[j].1 is Table
}

/// An array that is not an array of tables: written inline as `[...]`.
pub open spec fn is_plain_array(t: LuaTable) -> bool {
    spec_is_array(t) && !is_table_array(t)
}

/// A value written as a `key = value` line in its table's section: anything
/// but a table, and plain arrays.
pub open spec fn written_inline(v: LuaData) -> bool {
    match v {
        LuaData::Table(sub) => is_plain_array(sub),
        _ => true,
    }
}

/// The entry at integer key `i` holds a table.
pub open spec fn table_at(t: LuaTable, i: int) -> bool {
    raw_index(t, i) matches Some(j) && 0 <= j < t.entries@.len() && t.entries@[j].1 is Table
}

/// Every array of tables under `t` (and `t` itself) holds a table at each
/// index from 1 to its length.
pub open spec fn table_arrays_hold_tables(t: LuaTable) -> bool
    decreases t,
{
    &&& is_table_array(t) ==> forall|i: int| 1 <= i <= t.border ==> #[trigger] table_at(t, i)
    &&& forall|j: int|
        0 <= j < t.entries@.len() ==> (#[trigger] t.entries@[j].1 matches LuaData::Table(s)
            ==> table_arrays_hold_tables(s))
}


// ─── Scalars ─────────────────────────────────────────────────────────────────

/// The upper-case hexadecimal digit of `n` (below 16).
pub open spec fn upper_hex(n: u8) -> u8 {
    if n < 10 {
        (48 + n) as u8
    } else {
        (55 + n) as u8
    }
}

/// How one byte of a string value is written between double quotes.
pub open spec fn string_piece(b: u8) -> Seq<u8> {
    if b == 34u8 {
        seq![92u8, 34u8]
    } else if b == 92u8 {
        seq![92u8, 92u8]
    } else if b == 10u8 {
        seq![92u8, 110u8]
    } else if b == 13u8 {
        seq![92u8, 114u8]
    } else if b == 9u8 {
        seq![92u8, 116u8]
    } else if b <= 31u8 || b == 127u8 {
        seq![92u8, 117u8, 48u8, 48u8, upper_hex(b / 16), upper_hex(b % 16)]
    } else {
        seq![b]
    }
}

pub open spec fn string_body(s: Seq<u8>) -> Seq<u8>
    decreases s.len(),
{
    if s.len() == 0 {
        Seq::empty()
    } else {
        string_body(s.drop_last()) + string_piece(s.last())
    }
}

/// A string value: in double quotes, with `"`, `\`, newline, carriage
/// return and tab escaped by a backslash and the other control bytes as
/// `\u00XX`.
pub open spec fn spec_toml_string(s: Seq<u8>) -> Seq<u8> {
    seq![34u8] + string_body(s) + seq![34u8]
}

/// How one byte of a quoted key is written.
pub open spec fn key_piece(b: u8) -> Seq<u8> {
    if b == 34u8 {
        seq![92u8, 34u8]
    } else if b == 92u8 {
        seq![92u8, 92u8]
    } else {
        seq![b]
    }
}

pub open spec fn key_body(s: Seq<u8>) -> Seq<u8>
    decreases s.len(),
{
    if s.len() == 0 {
        Seq::empty()
    } else {
        key_body(s.drop_last()) + key_piece(s.last())
    }
}

/// A key: bare when it is not empty and made of ASCII letters, digits, `-`
/// and `_`; else in double quotes with `"` and `\` escaped.
pub open spec fn spec_toml_key(k: Seq<u8>) -> Seq<u8> {
    if k.len() > 0 && forall|i: int| 0 <= i < k.len() ==> spec_bare_key_char(#[trigger] k[i]) {
        k
    } else {
        seq![34u8] + key_body(k) + seq![34u8]
    }
}

/// A float: `nan`, `inf`, `-inf`, or its decimal text with `.0` after it
/// when the text has neither `.` nor `e`.
pub open spec fn spec_float_text(f: TomlFloat) -> Seq<u8> {
    match f {
        TomlFloat::NaN => seq![110u8, 97u8, 110u8],
        TomlFloat::PosInfinity => seq![105u8, 110u8, 102u8],
        TomlFloat::NegInfinity => seq![45u8, 105u8, 110u8, 102u8],
        TomlFloat::Decimal(t) => if t@.contains(46u8) || t@.contains(101u8) {
            t@
        } else {
            t@ + seq![46u8, 48u8]
        },
    }
}

/// `toml.stringify: table keys must be strings`
pub open spec fn key_error() -> Seq<u8> {
    seq![116u8, 111u8, 109u8, 108u8, 46u8, 115u8, 116u8, 114u8, 105u8, 110u8, 103u8, 105u8, 102u8, 121u8, 58u8, 32u8,
    116u8, 97u8, 98u8, 108u8, 101u8, 32u8, 107u8, 101u8, 121u8, 115u8, 32u8, 109u8, 117u8, 115u8, 116u8, 32u8,
    98u8, 101u8, 32u8, 115u8, 116u8, 114u8, 105u8, 110u8, 103u8, 115u8]
}

/// `toml.stringify: cannot serialize value of type Some(TAG) at 'PATH'`
pub open spec fn type_error(tag: u8, path: Seq<u8>) -> Seq<u8> {
    seq![116u8, 111u8, 109u8, 108u8, 46u8, 115u8, 116u8, 114u8, 105u8, 110u8, 103u8, 105u8, 102u8, 121u8, 58u8, 32u8,
    99u8, 97u8, 110u8, 110u8, 111u8, 116u8, 32u8, 115u8, 101u8, 114u8, 105u8, 97u8, 108u8, 105u8, 122u8, 101u8, 32u8,
    118u8, 97u8, 108u8, 117u8, 101u8, 32u8, 111u8, 102u8, 32u8, 116u8, 121u8, 112u8, 101u8, 32u8,
    83u8, 111u8, 109u8, 101u8, 40u8] + spec_decimal(tag as int) + seq![41u8, 32u8, 97u8, 116u8, 32u8, 39u8] + path
        + seq![39u8]
}

/// Appends `bytes` to `out`.
pub fn append(out: &mut Vec<u8>, bytes: &[u8])
    ensures
        final(out)@ == old(out)@ + bytes@,
{
    let mut k: usize = 0;
    while k < bytes.len()
        invariant
            k <= bytes@.len(),
            out@ == old(out)@ + bytes@.take(k as int),
        decreases bytes@.len() - k,
    {
        out.push(bytes[k]);
        proof {
            assert(bytes@.take(k + 1) =~= bytes@.take(k as int).push(bytes@[k as int]));
            assert(out@ =~= old(out)@ + bytes@.take(k + 1));
        }
        k = k + 1;
    }
    proof {
        assert(bytes@.take(bytes@.len() as int) =~= bytes@);
    }
}

fn upper_hex_digit(n: u8) -> (r: u8)
    requires
        n < 16,
    ensures
        r == upper_hex(n),
{
    if n < 10 {
        48 + n
    } else {
        55 + n
    }
}

/// Appends a string value, quoted and escaped.
pub fn write_toml_string(out: &mut Vec<u8>, s: &[u8])
    ensures
        final(out)@ == old(out)@ + spec_toml_string(s@),
{
    out.push(34u8);
    let ghost start = out@;
    let mut i: usize = 0;
    while i < s.len()
        invariant
            i <= s@.len(),
            out@ == start + string_body(s@.take(i as int)),
        decreases s@.len() - i,
    {
        let b = s[i];
        if b == 34u8 {
            out.push(92u8);
            out.push(34u8);
        } else if b == 92u8 {
            out.push(92u8);
            out.push(92u8);
        } else if b == 10u8 {
            out.push(92u8);
            out.push(110u8);
        } else if b == 13u8 {
            out.push(92u8);
            out.push(114u8);
        } else if b == 9u8 {
            out.push(92u8);
            out.push(116u8);
        } else if b <= 31u8 || b == 127u8 {
            out.push(92u8);
            out.push(117u8);
            out.push(48u8);
            out.push(48u8);
            out.push(upper_hex_digit(b / 16));
            out.push(upper_hex_digit(b % 16));
        } else {
            out.push(b);
        }
        proof {
            assert(s@.take(i + 1).drop_last() =~= s@.take(i as int));
            assert(out@ =~= start + string_body(s@.take(i + 1)));
        }
        i = i + 1;
    }
    out.push(34u8);
    proof {
        assert(s@.take(s@.len() as int) =~= s@);
        assert(out@ =~= old(out)@ + spec_toml_string(s@));
    }
}

/// Appends a key: bare when it can be, else quoted.
pub fn write_toml_key(out: &mut Vec<u8>, key: &[u8])
    ensures
        final(out)@ == old(out)@ + spec_toml_key(key@),
{
    let mut bare: bool = key.len() > 0;
    let mut i: usize = 0;
    while i < key.len()
        invariant
            i <= key@.len(),
            bare == (key@.len() > 0 && forall|j: int| 0 <= j < i ==> spec_bare_key_char(#[trigger] key@[j])),
        decreases key@.len() - i,
    {
        if !is_bare_key_char(key[i]) {
            bare = false;
        }
        i = i + 1;
    }
    if bare {
        append(out, key);
    } else {
        out.push(34u8);
        let ghost start = out@;
        let mut i: usize = 0;
        while i < key.len()
            invariant
                i <= key@.len(),
                out@ == start + key_body(key@.take(i as int)),
            decreases key@.len() - i,
        {
            let b = key[i];
            if b == 34u8 {
                out.push(92u8);
                out.push(34u8);
            } else if b == 92u8 {
                out.push(92u8);
                out.push(92u8);
            } else {
                out.push(b);
            }
            proof {
                assert(key@.take(i + 1).drop_last() =~= key@.take(i as int));
                assert(out@ =~= start + key_body(key@.take(i + 1)));
            }
            i = i + 1;
        }
        out.push(34u8);
        proof {
            assert(key@.take(key@.len() as int) =~= key@);
            assert(out@ =~= old(out)@ + spec_toml_key(key@));
        }
    }
}

/// Appends a float.
pub fn write_float(out: &mut Vec<u8>, f: &TomlFloat)
    ensures
        final(out)@ == old(out)@ + spec_float_text(*f),
{
    match f {
        TomlFloat::NaN => {
            append(out, &[110u8, 97u8, 110u8]);
            proof { assert(final(out)@ =~= old(out)@ + spec_float_text(*f)); }
        },
        TomlFloat::PosInfinity => {
            append(out, &[105u8, 110u8, 102u8]);
            proof { assert(final(out)@ =~= old(out)@ + spec_float_text(*f)); }
        },
        TomlFloat::NegInfinity => {
            append(out, &[45u8, 105u8, 110u8, 102u8]);
            proof { assert(final(out)@ =~= old(out)@ + spec_float_text(*f)); }
        },
        TomlFloat::Decimal(t) => {
            let mut found: bool = false;
            let mut i: usize = 0;
            while i < t.len()
                invariant
                    i <= t@.len(),
                    found == (exists|j: int| 0 <= j < i && (t@[j] == 46u8 || t@[j] == 101u8)),
                decreases t@.len() - i,
            {
                if t[i] == 46u8 || t[i] == 101u8 {
                    found = true;
                }
                i = i + 1;
            }
            append(out, t.as_slice());
            if !found {
                out.push(46u8);
                out.push(48u8);
            }
            proof {
                if found {
                    let j = choose|j: int| 0 <= j < t@.len() && (t@[j] == 46u8 || t@[j] == 101u8);
                    if t@[j] == 46u8 {
                        assert(t@.contains(46u8));
                    } else {
                        assert(t@.contains(101u8));
                    }
                } else {
                    assert(!t@.contains(46u8));
                    assert(!t@.contains(101u8));
                }
                assert(final(out)@ =~= old(out)@ + spec_float_text(*f));
            }
        },
    }
}


// ─── The text of a table ─────────────────────────────────────────────────────

/// The name for what `String::from_utf8_lossy` makes of `bytes`, as bytes.
pub uninterp spec fn utf8_lossy(bytes: Seq<u8>) -> Seq<u8>;

/// Calls `String::from_utf8_lossy`, which keeps valid UTF-8 and puts U+FFFD
/// in place of each invalid sequence. Stated: the result is `utf8_lossy`
/// of the bytes, and the bytes themselves when they are valid UTF-8 (all
/// ASCII, in particular); which replacement text other bytes get is left
/// unsaid.
#[verifier::external_body]
pub(crate) fn lossy_text(bytes: &[u8]) -> (r: Vec<u8>)
    ensures
        r@ == utf8_lossy(bytes@),
        vstd::utf8::valid_utf8(bytes@) ==> r@ == bytes@,
        (forall|i: int| 0 <= i < bytes@.len() ==> bytes@[i] < 128u8) ==> r@ == bytes@,
{
    String::from_utf8_lossy(bytes).into_owned().into_bytes()
}

/// The text `a`, then the text `b`; the first error if either fails.
pub open spec fn chain(a: Result<Seq<u8>, Seq<u8>>, b: Result<Seq<u8>, Seq<u8>>) -> Result<
    Seq<u8>,
    Seq<u8>,
> {
    match a {
        Err(e) => Err(e),
        Ok(x) => match b {
            Err(e) => Err(e),
            Ok(y) => Ok(x + y),
        },
    }
}

/// `, ` between items, nothing before the first.
pub open spec fn item_sep(k: int) -> Seq<u8> {
    if k > 1 {
        seq![44u8, 32u8]
    } else {
        Seq::empty()
    }
}

/// The path of the table under key text `kt` in the table at `prefix`.
pub open spec fn child_path(prefix: Seq<u8>, kt: Seq<u8>) -> Seq<u8> {
    if prefix.len() == 0 {
        utf8_lossy(kt)
    } else {
        prefix + seq![46u8] + utf8_lossy(kt)
    }
}

/// The text of a value; `nested` is set inside arrays and inline tables,
/// where a table that is not an array is written inline.
pub open spec fn value_toml(v: LuaData, path: Seq<u8>, nested: bool) -> Result<Seq<u8>, Seq<u8>>
    decreases v, 2int, 0int,
{
    match v {
        LuaData::Nil => Err(type_error(NIL_TAG, path)),
        LuaData::Bool(b) => Ok(
            if b {
                seq![116u8, 114u8, 117u8, 101u8]
            } else {
                seq![102u8, 97u8, 108u8, 115u8, 101u8]
            },
        ),
        LuaData::Int(i) => Ok(spec_decimal(i as int)),
        LuaData::Float(f) => Ok(spec_float_text(f)),
        LuaData::Str(s) => Ok(spec_toml_string(s@)),
        LuaData::Other(tag) => Err(type_error(tag, path)),
        LuaData::Table(t) => if spec_is_array(t) {
            chain(chain(Ok(seq![91u8]), array_items(t, path, t.border as int)), Ok(seq![93u8]))
        } else if nested {
            chain(
                chain(Ok(seq![123u8]), inline_entries(t, path, t.entries@.len() as int)),
                Ok(seq![125u8]),
            )
        } else {
            emit_spec(t, path)
        },
    }
}

/// The elements at indices 1 to `k` of an array, separated by `, `.
pub open spec fn array_items(t: LuaTable, path: Seq<u8>, k: int) -> Result<Seq<u8>, Seq<u8>>
    decreases t, 1int, k,
{
    if k <= 0 {
        Ok(Seq::empty())
    } else {
        chain(
            array_items(t, path, k - 1),
            chain(
                Ok(item_sep(k)),
                match raw_index(t, k) {
                    Some(j) => {
                        proof {
                            lemma_int_key_index(t.entries@, k, 0);
                        }
                        value_toml(t.entries@[j].1, path, true)
                    },
                    None => Err(type_error(NIL_TAG, path)),
                },
            ),
        )
    }
}

/// The first `k` entries of an inline table, as `key = value` separated
/// by `, `.
pub open spec fn inline_entries(t: LuaTable, path: Seq<u8>, k: int) -> Result<Seq<u8>, Seq<u8>>
    decreases t, 1int, k,
{
    if k <= 0 || k > t.entries@.len() {
        Ok(Seq::empty())
    } else {
        let e = t.entries@[k - 1];
        chain(
            inline_entries(t, path, k - 1),
            chain(
                Ok(item_sep(k)),
                match key_text(e.0) {
                    None => Err(key_error()),
                    Some(kt) => chain(
                        Ok(spec_toml_key(kt) + seq![32u8, 61u8, 32u8]),
                        value_toml(e.1, path, true),
                    ),
                },
            ),
        )
    }
}

/// The lines `key = value` for the first `k` entries whose values are not
/// tables or are plain arrays.
pub open spec fn emit_scalars(t: LuaTable, prefix: Seq<u8>, k: int) -> Result<Seq<u8>, Seq<u8>>
    decreases t, 1int, k,
{
    if k <= 0 || k > t.entries@.len() {
        Ok(Seq::empty())
    } else {
        let e = t.entries@[k - 1];
        chain(
            emit_scalars(t, prefix, k - 1),
            if !written_inline(e.1) {
                Ok(Seq::empty())
            } else {
                match key_text(e.0) {
                    None => Err(key_error()),
                    Some(kt) => chain(
                        Ok(spec_toml_key(kt) + seq![32u8, 61u8, 32u8]),
                        chain(value_toml(e.1, prefix, true), Ok(seq![10u8])),
                    ),
                }
            },
        )
    }
}

/// The sections for the first `k` entries whose values are tables but not
/// plain arrays: an array of tables as one `[[path]]` section per element,
/// any other table as a `[path]` section.
pub open spec fn emit_subtables(t: LuaTable, prefix: Seq<u8>, k: int) -> Result<Seq<u8>, Seq<u8>>
    decreases t, 1int, k,
{
    if k <= 0 || k > t.entries@.len() {
        Ok(Seq::empty())
    } else {
        let e = t.entries@[k - 1];
        chain(
            emit_subtables(t, prefix, k - 1),
            match e.1 {
                LuaData::Table(sub) => if is_plain_array(sub) {
                    Ok(Seq::empty())
                } else {
                    match key_text(e.0) {
                    None => Err(key_error()),
                    Some(kt) => {
                        let child = child_path(prefix, kt);
                        if is_table_array(sub) {
                            aot_items(sub, child, sub.border as int)
                        } else {
                            chain(
                                Ok(seq![10u8, 91u8] + child + seq![93u8, 10u8]),
                                emit_spec(sub, child),
                            )
                        }
                    },
                    }
                },
                _ => Ok(Seq::empty()),
            },
        )
    }
}

/// The `[[path]]` sections for elements 1 to `k` of an array of tables
/// (whose elements the callers' contracts require to be tables).
pub open spec fn aot_items(t: LuaTable, path: Seq<u8>, k: int) -> Result<Seq<u8>, Seq<u8>>
    decreases t, 1int, k,
{
    if k <= 0 {
        Ok(Seq::empty())
    } else {
        chain(
            aot_items(t, path, k - 1),
            chain(
                Ok(seq![10u8, 91u8, 91u8] + path + seq![93u8, 93u8, 10u8]),
                match raw_index(t, k) {
                    Some(j) => {
                        proof {
                            lemma_int_key_index(t.entries@, k, 0);
                        }
                        match t.entries@[j].1 {
                            LuaData::Table(el) => emit_spec(el, path),
                            _ => Ok(Seq::empty()),
                        }
                    },
                    None => Ok(Seq::empty()),
                },
            ),
        )
    }
}

/// A table in section form: the lines of its other values first, then the
/// sections of its tables.
pub open spec fn emit_spec(t: LuaTable, prefix: Seq<u8>) -> Result<Seq<u8>, Seq<u8>>
    decreases t, 2int, 0int,
{
    chain(
        emit_scalars(t, prefix, t.entries@.len() as int),
        emit_subtables(t, prefix, t.entries@.len() as int),
    )
}


// ─── Writing ─────────────────────────────────────────────────────────────────

/// `r` and what was appended to the output agree with the text `s`: on
/// success the output grew by that text, on failure `r` holds its error.
pub open spec fn appended(
    r: Result<(), Vec<u8>>,
    before: Seq<u8>,
    after: Seq<u8>,
    s: Result<Seq<u8>, Seq<u8>>,
) -> bool {
    match s {
        Ok(b) => r is Ok && after == before + b,
        Err(e) => r matches Err(m) && m@ == e,
    }
}

/// Values whose tables are all fit to be written.
pub open spec fn data_ok(v: LuaData) -> bool {
    match v {
        LuaData::Table(t) => table_arrays_hold_tables(t),
        _ => true,
    }
}

proof fn lemma_array_items_err(t: LuaTable, p: Seq<u8>, j: int, k: int)
    requires
        array_items(t, p, j) is Err,
        0 <= j <= k,
    ensures
        array_items(t, p, k) == array_items(t, p, j),
    decreases k - j,
{
    if k > j {
        lemma_array_items_err(t, p, j, k - 1);
    }
}

proof fn lemma_inline_entries_err(t: LuaTable, p: Seq<u8>, j: int, k: int)
    requires
        inline_entries(t, p, j) is Err,
        0 <= j <= k <= t.entries@.len(),
    ensures
        inline_entries(t, p, k) == inline_entries(t, p, j),
    decreases k - j,
{
    if k > j {
        lemma_inline_entries_err(t, p, j, k - 1);
    }
}

proof fn lemma_emit_scalars_err(t: LuaTable, p: Seq<u8>, j: int, k: int)
    requires
        emit_scalars(t, p, j) is Err,
        0 <= j <= k <= t.entries@.len(),
    ensures
        emit_scalars(t, p, k) == emit_scalars(t, p, j),
    decreases k - j,
{
    if k > j {
        lemma_emit_scalars_err(t, p, j, k - 1);
    }
}

proof fn lemma_emit_subtables_err(t: LuaTable, p: Seq<u8>, j: int, k: int)
    requires
        emit_subtables(t, p, j) is Err,
        0 <= j <= k <= t.entries@.len(),
    ensures
        emit_subtables(t, p, k) == emit_subtables(t, p, j),
    decreases k - j,
{
    if k > j {
        lemma_emit_subtables_err(t, p, j, k - 1);
    }
}

proof fn lemma_aot_items_err(t: LuaTable, p: Seq<u8>, j: int, k: int)
    requires
        aot_items(t, p, j) is Err,
        0 <= j <= k,
    ensures
        aot_items(t, p, k) == aot_items(t, p, j),
    decreases k - j,
{
    if k > j {
        lemma_aot_items_err(t, p, j, k - 1);
    }
}

/// The error for a key that is neither a number nor a string.
pub fn key_error_text() -> (r: Vec<u8>)
    ensures
        r@ == key_error(),
{
    let r: Vec<u8> = vec![116u8, 111u8, 109u8, 108u8, 46u8, 115u8, 116u8, 114u8, 105u8, 110u8, 103u8, 105u8, 102u8, 121u8, 58u8, 32u8,
    116u8, 97u8, 98u8, 108u8, 101u8, 32u8, 107u8, 101u8, 121u8, 115u8, 32u8, 109u8, 117u8, 115u8, 116u8, 32u8,
    98u8, 101u8, 32u8, 115u8, 116u8, 114u8, 105u8, 110u8, 103u8, 115u8];
    proof {
        assert(r@ =~= key_error());
    }
    r
}

/// The error for a value of type `tag` at `path`.
pub fn type_error_text(tag: u8, path: &[u8]) -> (r: Vec<u8>)
    ensures
        r@ == type_error(tag, path@),
{
    let mut r: Vec<u8> = vec![116u8, 111u8, 109u8, 108u8, 46u8, 115u8, 116u8, 114u8, 105u8, 110u8, 103u8, 105u8, 102u8, 121u8, 58u8, 32u8,
    99u8, 97u8, 110u8, 110u8, 111u8, 116u8, 32u8, 115u8, 101u8, 114u8, 105u8, 97u8, 108u8, 105u8, 122u8, 101u8, 32u8,
    118u8, 97u8, 108u8, 117u8, 101u8, 32u8, 111u8, 102u8, 32u8, 116u8, 121u8, 112u8, 101u8, 32u8,
    83u8, 111u8, 109u8, 101u8, 40u8];
    let ghost head = r@;
    let digits = integer_to_string(tag as i64);
    append(&mut r, digits.as_slice());
    append(&mut r, &[41u8, 32u8, 97u8, 116u8, 32u8, 39u8]);
    append(&mut r, path);
    r.push(39u8);
    proof {
        assert(r@ =~= type_error(tag, path@));
    }
    r
}

/// The text of a key as `tostring` gives it, if it has one.
pub fn key_text_of(k: &LuaKey) -> (r: Option<Vec<u8>>)
    ensures
        match r {
            Some(v) => key_text(*k) == Some(v@),
            None => key_text(*k) is None,
        },
{
    match k {
        LuaKey::Int(i) => Some(integer_to_string(*i)),
        LuaKey::Float(t) => Some(vstd::slice::slice_to_vec(t.as_slice())),
        LuaKey::Str(s, _) => Some(vstd::slice::slice_to_vec(s.as_slice())),
        LuaKey::Other => None,
    }
}

/// Tells whether a table is written as an array.
pub fn is_lua_array(t: &LuaTable) -> (r: bool)
    ensures
        r == spec_is_array(*t),
{
    let n = t.border;
    if n == 0 {
        return t.entries.len() == 0;
    }
    let mut j: usize = 0;
    while j < t.entries.len()
        invariant
            n == t.border,
            n > 0,
            j <= t.entries@.len(),
            forall|jj: int|
                0 <= jj < j ==> (key_int(#[trigger] t.entries@[jj].0) matches Some(k) && 1 <= k
                    <= n),
        decreases t.entries@.len() - j,
    {
        let ok = match &t.entries[j].0 {
            LuaKey::Int(k) => *k >= 1 && (*k as u64) <= (n as u64),
            LuaKey::Str(_, Some(k)) => *k >= 1 && (*k as u64) <= (n as u64),
            _ => false,
        };
        if !ok {
            return false;
        }
        j = j + 1;
    }
    t.entries.len() == n
}

/// The index of the entry at integer key `i`.
fn raw_position(t: &LuaTable, i: usize) -> (r: Option<usize>)
    ensures
        match r {
            Some(j) => raw_index(*t, i as int) == Some(j as int) && j < t.entries@.len(),
            None => raw_index(*t, i as int) is None,
        },
{
    let mut j: usize = 0;
    while j < t.entries.len()
        invariant
            j <= t.entries@.len(),
            raw_index(*t, i as int) == int_key_index(t.entries@, i as int, j as int),
        decreases t.entries@.len() - j,
    {
        match &t.entries[j].0 {
            LuaKey::Int(k) => {
                if *k >= 0 && (*k as u64) == (i as u64) {
                    return Some(j);
                }
            },
            _ => {},
        }
        j = j + 1;
    }
    None
}

/// Tells whether a table is written as an array of tables.
fn is_table_array_of(t: &LuaTable) -> (r: bool)
    ensures
        r == is_table_array(*t),
{
    if !is_lua_array(t) || t.border == 0 {
        return false;
    }
    match raw_position(t, 1) {
        Some(j) => match &t.entries[j].1 {
            LuaData::Table(_) => true,
            _ => false,
        },
        None => false,
    }
}

/// Tells whether every array of tables in `t` holds only tables.
pub fn arrays_hold_tables(t: &LuaTable) -> (r: bool)
    ensures
        r == table_arrays_hold_tables(*t),
    decreases t,
{
    if is_table_array_of(t) {
        let n = t.border;
        let mut i: usize = 0;
        while i < n
            invariant
                n == t.border,
                is_table_array(*t),
                i <= n,
                forall|ii: int| 1 <= ii <= i ==> #[trigger] table_at(*t, ii),
            decreases n - i,
        {
            let found = match raw_position(t, i + 1) {
                Some(j) => match &t.entries[j].1 {
                    LuaData::Table(_) => true,
                    _ => false,
                },
                None => false,
            };
            if !found {
                proof {
                    assert(!table_at(*t, i + 1));
                    assert(!table_arrays_hold_tables(*t));
                }
                return false;
            }
            i = i + 1;
        }
    }
    let mut j: usize = 0;
    while j < t.entries.len()
        invariant
            j <= t.entries@.len(),
            is_table_array(*t) ==> forall|ii: int| 1 <= ii <= t.border ==> #[trigger] table_at(*t, ii),
            forall|jj: int|
                0 <= jj < j ==> (#[trigger] t.entries@[jj].1 matches LuaData::Table(s)
                    ==> table_arrays_hold_tables(s)),
        decreases t.entries@.len() - j,
    {
        match &t.entries[j].1 {
            LuaData::Table(s) => {
                if !arrays_hold_tables(s) {
                    return false;
                }
            },
            _ => {},
        }
        j = j + 1;
    }
    true
}


/// The path of the table under key text `kt` in the table at `prefix`.
fn child_path_of(prefix: &[u8], kt: &[u8]) -> (r: Vec<u8>)
    ensures
        r@ == child_path(prefix@, kt@),
{
    let name = lossy_text(kt);
    if prefix.len() == 0 {
        name
    } else {
        let mut r = vstd::slice::slice_to_vec(prefix);
        r.push(46u8);
        append(&mut r, name.as_slice());
        proof {
            assert(r@ =~= child_path(prefix@, kt@));
        }
        r
    }
}

/// Appends the text of a value: scalars as TOML values, arrays as `[...]`,
/// other tables inline (`{...}`) when `depth` is above 0 and in section form
/// otherwise; a value that cannot be written gives an error naming its type
/// and `path`.
pub fn lua_to_toml(v: &LuaData, out: &mut Vec<u8>, path: &[u8], depth: usize) -> (r: Result<(), Vec<u8>>)
    requires
        data_ok(*v),
    ensures
        appended(r, old(out)@, final(out)@, value_toml(*v, path@, depth > 0)),
        r is Err && !(*v is Table) ==> final(out)@ == old(out)@,
    decreases v,
{
    match v {
        LuaData::Nil => Err(type_error_text(NIL_TAG, path)),
        LuaData::Other(tag) => Err(type_error_text(*tag, path)),
        LuaData::Bool(b) => {
            if *b {
                append(out, &[116u8, 114u8, 117u8, 101u8]);
            } else {
                append(out, &[102u8, 97u8, 108u8, 115u8, 101u8]);
            }
            proof {
                assert(final(out)@ =~= old(out)@ + (if *b {
                    seq![116u8, 114u8, 117u8, 101u8]
                } else {
                    seq![102u8, 97u8, 108u8, 115u8, 101u8]
                }));
            }
            Ok(())
        },
        LuaData::Int(i) => {
            let s = integer_to_string(*i);
            append(out, s.as_slice());
            Ok(())
        },
        LuaData::Float(f) => {
            write_float(out, f);
            Ok(())
        },
        LuaData::Str(s) => {
            write_toml_string(out, s.as_slice());
            Ok(())
        },
        LuaData::Table(t) => {
            let d: usize = if depth < usize::MAX {
                depth + 1
            } else {
                depth
            };
            if is_lua_array(t) {
                out.push(91u8);
                let ghost start = out@;
                let n = t.border;
                let mut i: usize = 0;
                proof {
                    assert(start =~= start + Seq::<u8>::empty());
                }
                while i < n
                    invariant
                        n == t.border,
                        i <= n,
                        d > 0,
                        *v == LuaData::Table(*t),
                        spec_is_array(*t),
                        table_arrays_hold_tables(*t),
                        array_items(*t, path@, i as int) matches Ok(b) && out@ == start + b,
                    decreases n - i,
                {
                    let ghost before = out@;
                    if i >= 1 {
                        out.push(44u8);
                        out.push(32u8);
                    }
                    let ghost mid = out@;
                    proof {
                        assert(mid =~= before + item_sep(i + 1));
                    }
                    match raw_position(t, i + 1) {
                        None => {
                            proof {
                                lemma_array_items_err(*t, path@, i + 1, n as int);
                            }
                            return Err(type_error_text(NIL_TAG, path));
                        },
                        Some(j) => {
                            proof {
                                assert(t.entries@[j as int].1 matches LuaData::Table(s) ==> table_arrays_hold_tables(s));
                                assert(decreases_to!(*v => t.entries@[j as int].1));
                            }
                            let r = lua_to_toml(&t.entries[j].1, out, path, d);
                            match r {
                                Err(e) => {
                                    proof {
                                        lemma_array_items_err(*t, path@, i + 1, n as int);
                                    }
                                    return Err(e);
                                },
                                Ok(()) => {
                                    proof {
                                        let b = array_items(*t, path@, i as int)->Ok_0;
                                        let c = value_toml(t.entries@[j as int].1, path@, true)->Ok_0;
                                        assert(out@ =~= start + (b + (item_sep(i + 1) + c)));
                                    }
                                },
                            }
                        },
                    }
                    i = i + 1;
                }
                out.push(93u8);
                proof {
                    let b = array_items(*t, path@, n as int)->Ok_0;
                    assert(final(out)@ =~= old(out)@ + (seq![91u8] + b + seq![93u8]));
                }
                Ok(())
            } else if depth > 0 {
                out.push(123u8);
                let ghost start = out@;
                let n = t.entries.len();
                let mut k: usize = 0;
                proof {
                    assert(start =~= start + Seq::<u8>::empty());
                }
                while k < n
                    invariant
                        n == t.entries@.len(),
                        k <= n,
                        d > 0,
                        depth > 0,
                        *v == LuaData::Table(*t),
                        !spec_is_array(*t),
                        table_arrays_hold_tables(*t),
                        inline_entries(*t, path@, k as int) matches Ok(b) && out@ == start + b,
                    decreases n - k,
                {
                    let ghost before = out@;
                    if k >= 1 {
                        out.push(44u8);
                        out.push(32u8);
                    }
                    let ghost mid = out@;
                    proof {
                        assert(mid =~= before + item_sep(k + 1));
                    }
                    match key_text_of(&t.entries[k].0) {
                        None => {
                            proof {
                                lemma_inline_entries_err(*t, path@, k + 1, n as int);
                            }
                            return Err(key_error_text());
                        },
                        Some(kt) => {
                            write_toml_key(out, kt.as_slice());
                            append(out, &[32u8, 61u8, 32u8]);
                            let ghost mid2 = out@;
                            proof {
                                assert(t.entries@[k as int].1 matches LuaData::Table(s) ==> table_arrays_hold_tables(s));
                                assert(decreases_to!(*v => t.entries@[k as int].1));
                            }
                            let r = lua_to_toml(&t.entries[k].1, out, path, d);
                            match r {
                                Err(e) => {
                                    proof {
                                        lemma_inline_entries_err(*t, path@, k + 1, n as int);
                                    }
                                    return Err(e);
                                },
                                Ok(()) => {
                                    proof {
                                        let b = inline_entries(*t, path@, k as int)->Ok_0;
                                        let c = value_toml(t.entries@[k as int].1, path@, true)->Ok_0;
                                        assert(out@ =~= start + (b + (item_sep(k + 1) + ((spec_toml_key(kt@)
                                            + seq![32u8, 61u8, 32u8]) + c))));
                                    }
                                },
                            }
                        },
                    }
                    k = k + 1;
                }
                out.push(125u8);
                proof {
                    let b = inline_entries(*t, path@, n as int)->Ok_0;
                    assert(final(out)@ =~= old(out)@ + (seq![123u8] + b + seq![125u8]));
                }
                Ok(())
            } else {
                emit_table(t, out, path)
            }
        },
    }
}

/// Appends a table in section form: first `key = value` lines for its
/// values that are not tables, then for each table under it, in order, a
/// `[path]` section or, for an array of tables, one `[[path]]` section per
/// element.
pub fn emit_table(t: &LuaTable, out: &mut Vec<u8>, prefix: &[u8]) -> (r: Result<(), Vec<u8>>)
    requires
        table_arrays_hold_tables(*t),
    ensures
        appended(r, old(out)@, final(out)@, emit_spec(*t, prefix@)),
    decreases t,
{
    let n = t.entries.len();
    let ghost start = out@;
    proof {
        assert(start =~= start + Seq::<u8>::empty());
    }
    let mut k: usize = 0;
    while k < n
        invariant
            n == t.entries@.len(),
            k <= n,
            table_arrays_hold_tables(*t),
            emit_scalars(*t, prefix@, k as int) matches Ok(b) && out@ == start + b,
        decreases n - k,
    {
        let ghost before = out@;
        let inline = match &t.entries[k].1 {
            LuaData::Table(sub) => is_lua_array(sub) && !is_table_array_of(sub),
            _ => true,
        };
        match inline {
            false => {
                proof {
                    assert(out@ =~= before + Seq::<u8>::empty());
                }
            },
            true => {
                proof {
                    assert(t.entries@[k as int].1 matches LuaData::Table(s) ==> table_arrays_hold_tables(s));
                    assert(decreases_to!(*t => t.entries@[k as int].1));
                }
                match key_text_of(&t.entries[k].0) {
                    None => {
                        proof {
                            lemma_emit_scalars_err(*t, prefix@, k + 1, n as int);
                        }
                        return Err(key_error_text());
                    },
                    Some(kt) => {
                        write_toml_key(out, kt.as_slice());
                        append(out, &[32u8, 61u8, 32u8]);
                        let r = lua_to_toml(&t.entries[k].1, out, prefix, 1);
                        match r {
                            Err(e) => {
                                proof {
                                    lemma_emit_scalars_err(*t, prefix@, k + 1, n as int);
                                }
                                return Err(e);
                            },
                            Ok(()) => {
                                out.push(10u8);
                                proof {
                                    let c = value_toml(t.entries@[k as int].1, prefix@, true)->Ok_0;
                                    assert(out@ =~= before + ((spec_toml_key(kt@) + seq![32u8, 61u8, 32u8])
                                        + (c + seq![10u8])));
                                }
                            },
                        }
                    },
                }
            },
        }
        proof {
            let b = emit_scalars(*t, prefix@, k as int)->Ok_0;
            assert(out@ =~= start + emit_scalars(*t, prefix@, k + 1)->Ok_0);
        }
        k = k + 1;
    }
    let ghost start2 = out@;
    proof {
        assert(start2 =~= start2 + Seq::<u8>::empty());
    }
    let mut k: usize = 0;
    while k < n
        invariant
            n == t.entries@.len(),
            k <= n,
            table_arrays_hold_tables(*t),
            emit_scalars(*t, prefix@, n as int) matches Ok(a) && start2 == old(out)@ + a,
            emit_subtables(*t, prefix@, k as int) matches Ok(b) && out@ == start2 + b,
        decreases n - k,
    {
        let ghost before = out@;
        let plain = match &t.entries[k].1 {
            LuaData::Table(sub) => is_lua_array(sub) && !is_table_array_of(sub),
            _ => false,
        };
        if plain {
            proof {
                assert(out@ =~= before + Seq::<u8>::empty());
            }
        } else {
        match &t.entries[k].1 {
            LuaData::Table(sub) => {
                proof {
                    assert(t.entries@[k as int].1 matches LuaData::Table(s) ==> table_arrays_hold_tables(s));
                }
                match key_text_of(&t.entries[k].0) {
                    None => {
                        proof {
                            lemma_emit_subtables_err(*t, prefix@, k + 1, n as int);
                        }
                        return Err(key_error_text());
                    },
                    Some(kt) => {
                        let child = child_path_of(prefix, kt.as_slice());
                        if is_table_array_of(sub) {
                            proof {
                                assert(decreases_to!(*t => t.entries@[k as int].1));
                            }
                            let r = emit_table_array(sub, out, child.as_slice());
                            match r {
                                Err(e) => {
                                    proof {
                                        lemma_emit_subtables_err(*t, prefix@, k + 1, n as int);
                                    }
                                    return Err(e);
                                },
                                Ok(()) => {},
                            }
                        } else {
                            append(out, &[10u8, 91u8]);
                            append(out, child.as_slice());
                            append(out, &[93u8, 10u8]);
                            let ghost mid = out@;
                            let r = emit_table(sub, out, child.as_slice());
                            match r {
                                Err(e) => {
                                    proof {
                                        lemma_emit_subtables_err(*t, prefix@, k + 1, n as int);
                                    }
                                    return Err(e);
                                },
                                Ok(()) => {
                                    proof {
                                        assert(mid =~= before + (seq![10u8, 91u8] + child@ + seq![93u8, 10u8]));
                                    }
                                },
                            }
                        }
                    },
                }
            },
            _ => {
                proof {
                    assert(out@ =~= before + Seq::<u8>::empty());
                }
            },
        }
        }
        proof {
            assert(out@ =~= start2 + emit_subtables(*t, prefix@, k + 1)->Ok_0);
        }
        k = k + 1;
    }
    proof {
        let a = emit_scalars(*t, prefix@, n as int)->Ok_0;
        let b = emit_subtables(*t, prefix@, n as int)->Ok_0;
        assert(final(out)@ =~= old(out)@ + (a + b));
    }
    Ok(())
}

/// Appends one `[[path]]` section per element of an array of tables.
fn emit_table_array(sub: &LuaTable, out: &mut Vec<u8>, child: &[u8]) -> (r: Result<(), Vec<u8>>)
    requires
        is_table_array(*sub),
        table_arrays_hold_tables(*sub),
    ensures
        appended(r, old(out)@, final(out)@, aot_items(*sub, child@, sub.border as int)),
    decreases sub,
{
    let m = sub.border;
    let ghost astart = out@;
    proof {
        assert(astart =~= astart + Seq::<u8>::empty());
    }
    let mut i: usize = 0;
    while i < m
        invariant
            m == sub.border,
            i <= m,
            is_table_array(*sub),
            table_arrays_hold_tables(*sub),
            aot_items(*sub, child@, i as int) matches Ok(b) && out@ == astart + b,
        decreases m - i,
    {
        let ghost ibefore = out@;
        append(out, &[10u8, 91u8, 91u8]);
        append(out, child);
        append(out, &[93u8, 93u8, 10u8]);
        let ghost imid = out@;
        proof {
            assert(imid =~= ibefore + (seq![10u8, 91u8, 91u8] + child@ + seq![93u8, 93u8, 10u8]));
            assert(table_at(*sub, i + 1));
        }
        match raw_position(sub, i + 1) {
            Some(j) => {
                match &sub.entries[j].1 {
                    LuaData::Table(el) => {
                        proof {
                            assert(sub.entries@[j as int].1 matches LuaData::Table(s) ==> table_arrays_hold_tables(s));
                            assert(decreases_to!(*sub => sub.entries@[j as int].1));
                        }
                        let r = emit_table(el, out, child);
                        match r {
                            Err(e) => {
                                proof {
                                    lemma_aot_items_err(*sub, child@, i + 1, m as int);
                                }
                                return Err(e);
                            },
                            Ok(()) => {},
                        }
                    },
                    _ => {},
                }
            },
            None => {},
        }
        proof {
            assert(out@ =~= astart + aot_items(*sub, child@, i + 1)->Ok_0);
        }
        i = i + 1;
    }
    Ok(())
}

/// Writes a table as a TOML document, or gives the error that stops it.
pub fn toml_stringify(t: &LuaTable) -> (r: Result<Vec<u8>, Vec<u8>>)
    requires
        table_arrays_hold_tables(*t),
    ensures
        match emit_spec(*t, Seq::empty()) {
            Ok(b) => r matches Ok(o) && o@ == b,
            Err(e) => r matches Err(m) && m@ == e,
        },
{
    let mut out: Vec<u8> = Vec::new();
    let empty: Vec<u8> = Vec::new();
    proof {
        assert(empty@ =~= Seq::<u8>::empty());
    }
    match emit_table(t, &mut out, empty.as_slice()) {
        Ok(()) => {
            proof {
                assert(out@ =~= Seq::<u8>::empty() + emit_spec(*t, Seq::empty())->Ok_0);
            }
            Ok(out)
        },
        Err(e) => Err(e),
    }
}


/// `toml.stringify: expected table argument`
pub open spec fn not_table_error() -> Seq<u8> {
    seq![116u8, 111u8, 109u8, 108u8, 46u8, 115u8, 116u8, 114u8, 105u8, 110u8, 103u8, 105u8, 102u8, 121u8, 58u8, 32u8, 101u8, 120u8, 112u8, 101u8, 99u8, 116u8, 101u8, 100u8, 32u8, 116u8, 97u8, 98u8, 108u8, 101u8, 32u8, 97u8, 114u8, 103u8, 117u8, 109u8, 101u8, 110u8, 116u8]
}

/// Why `toml.stringify` gave no text.
#[derive(Debug, Clone, PartialEq, Eq)]
pub enum StringifyError {
    /// The argument is not a table: the call raises an error.
    NotATable,
    /// The table cannot be written: the call returns `nil` and this message.
    Unwritable(Vec<u8>),
}

impl StringifyError {
    /// The text of the error: what is raised for a value that is not a
    /// table, else the message returned beside `nil`.
    pub fn message(&self) -> (r: Vec<u8>)
        ensures
            r@ == match self {
                StringifyError::NotATable => not_table_error(),
                StringifyError::Unwritable(m) => m@,
            },
    {
        match self {
            StringifyError::NotATable => {
                let r: Vec<u8> = vec![116u8, 111u8, 109u8, 108u8, 46u8, 115u8, 116u8, 114u8, 105u8, 110u8, 103u8, 105u8, 102u8, 121u8, 58u8, 32u8, 101u8, 120u8, 112u8, 101u8, 99u8, 116u8, 101u8, 100u8, 32u8, 116u8, 97u8, 98u8, 108u8, 101u8, 32u8, 97u8, 114u8, 103u8, 117u8, 109u8, 101u8, 110u8, 116u8];
                proof {
                    assert(r@ =~= not_table_error());
                }
                r
            },
            StringifyError::Unwritable(m) => m.clone(),
        }
    }
}

/// `toml.stringify(v)` on any Lua value: a value that is not a table is
/// refused, a table is written as a TOML document, or the error that stops
/// its writing comes back.
pub fn toml_stringify_value(v: &LuaData) -> (r: Result<Vec<u8>, StringifyError>)
    requires
        data_ok(*v),
    ensures
        !(*v is Table) ==> r == Err::<Vec<u8>, StringifyError>(StringifyError::NotATable),
        *v matches LuaData::Table(t) ==> match emit_spec(t, Seq::empty()) {
            Ok(b) => r matches Ok(o) && o@ == b,
            Err(e) => r matches Err(StringifyError::Unwritable(m)) && m@ == e,
        },
{
    match v {
        LuaData::Table(t) => match toml_stringify(t) {
            Ok(o) => Ok(o),
            Err(e) => Err(StringifyError::Unwritable(e)),
        },
        _ => Err(StringifyError::NotATable),
    }
}


// ─── Reading back a written string ───────────────────────────────────────────

proof fn lemma_string_body_prefix(s: Seq<u8>, k: int, m: int)
    requires
        0 <= k <= m <= s.len(),
    ensures
        string_body(s.take(m)).len() >= string_body(s.take(k)).len(),
        string_body(s.take(m)).take(string_body(s.take(k)).len() as int) == string_body(s.take(k)),
    decreases m - k,
{
    if k < m {
        lemma_string_body_prefix(s, k, m - 1);
        assert(s.take(m).drop_last() =~= s.take(m - 1));
        let a = string_body(s.take(m - 1));
        let b = string_body(s.take(k));
        assert(string_body(s.take(m)) == a + string_piece(s[m - 1]));
        assert((a + string_piece(s[m - 1])).take(b.len() as int) =~= a.take(b.len() as int));
    } else {
        assert(string_body(s.take(m)).take(string_body(s.take(k)).len() as int) =~= string_body(s.take(k)));
    }
}

proof fn lemma_upper_hex(n: u8)
    requires
        n < 16,
    ensures
        crate::toml::is_hex(upper_hex(n)),
        crate::toml::spec_hex_digit(upper_hex(n)) == n,
{
}

/// The parser's basic-string reader takes the text that the writer gives
/// one byte `b` and reads `b` from it.
proof fn lemma_piece_reads_back(doc: Seq<u8>, q: int, b: u8, acc: Seq<u8>)
    requires
        0 <= q,
        q + string_piece(b).len() < doc.len(),
        doc.subrange(q, q + string_piece(b).len()) == string_piece(b),
    ensures
        crate::toml::spec_basic_body(doc, q, acc) == crate::toml::spec_basic_body(
            doc,
            q + string_piece(b).len(),
            acc.push(b),
        ),
{
    let piece = string_piece(b);
    assert forall|j: int| 0 <= j < piece.len() implies doc[q + j] == #[trigger] piece[j] by {
        assert(doc.subrange(q, q + piece.len())[j] == doc[q + j]);
    }
    if b == 34u8 || b == 92u8 || b == 10u8 || b == 13u8 || b == 9u8 {
        assert(doc[q] == 92u8);
        assert(acc + crate::toml::spec_escape(doc, q + 1)->Ok_0.0 =~= acc.push(b));
    } else if b <= 31u8 || b == 127u8 {
        assert(doc[q] == 92u8);
        assert(doc[q + 1] == 117u8);
        assert(doc[q + 2] == 48u8);
        assert(doc[q + 3] == 48u8);
        lemma_upper_hex(b / 16);
        lemma_upper_hex(b % 16);
        assert(doc[q + 4] == upper_hex(b / 16));
        assert(doc[q + 5] == upper_hex(b % 16));
        reveal_with_fuel(crate::toml::spec_hex_run, 5);
        assert(crate::toml::spec_hex4(doc, q + 2) == Ok::<(int, int), crate::toml::ErrModel>(
            ((b / 16) * 16 + b % 16, q + 6),
        ));
        assert((b / 16) * 16 + b % 16 == b);
        assert(crate::toml::spec_encode_utf8(b as u32) =~= seq![b]);
        assert(acc + seq![b] =~= acc.push(b));
    } else {
        assert(piece =~= seq![b]);
        assert(doc[q + 0] == piece[0]);
    }
}

proof fn lemma_body_reads_back(pre: Seq<u8>, s: Seq<u8>, post: Seq<u8>, k: int)
    requires
        0 <= k <= s.len(),
    ensures
        crate::toml::spec_basic_body(
            pre + spec_toml_string(s) + post,
            (pre.len() + 1 + string_body(s.take(k)).len()) as int,
            s.take(k),
        ) == Ok::<(Seq<u8>, int), crate::toml::ErrModel>((s, (pre.len() + spec_toml_string(s).len()) as int)),
    decreases s.len() - k,
{
    let doc = pre + spec_toml_string(s) + post;
    let body = string_body(s);
    let q = (pre.len() + 1 + string_body(s.take(k)).len()) as int;
    assert(s.take(s.len() as int) =~= s);
    lemma_string_body_prefix(s, k, s.len() as int);
    assert forall|j: int| 0 <= j < body.len() implies doc[pre.len() + 1 + j] == #[trigger] body[j] by {}
    if k == s.len() {
        assert(doc[q] == 34u8);
    } else {
        lemma_string_body_prefix(s, k + 1, s.len() as int);
        assert(s.take(k + 1).drop_last() =~= s.take(k));
        let before = string_body(s.take(k));
        let piece = string_piece(s[k]);
        assert(string_body(s.take(k + 1)) == before + piece);
        assert forall|j: int| 0 <= j < piece.len() implies doc.subrange(q, q + piece.len())[j] == #[trigger] piece[j] by {
            assert(body.take((before + piece).len() as int)[before.len() + j] == (before + piece)[before.len() + j]);
        }
        assert(doc.subrange(q, q + piece.len()) =~= piece);
        lemma_piece_reads_back(doc, q, s[k], s.take(k));
        assert(s.take(k).push(s[k]) =~= s.take(k + 1));
        lemma_body_reads_back(pre, s, post, k + 1);
    }
}

/// A string value as the writer quotes it reads back, through the parser's
/// basic-string reader, as the same bytes, and reading ends right after the
/// closing quote; the one exception is the empty string followed by a
/// third `"`, which opens a multi-line string.
pub proof fn lemma_string_reads_back(pre: Seq<u8>, s: Seq<u8>, post: Seq<u8>)
    requires
        s.len() > 0 || post.len() == 0 || post[0] != 34u8,
    ensures
        crate::toml::spec_basic_string(pre + spec_toml_string(s) + post, pre.len() as int) == Ok::<
            (Seq<u8>, int),
            crate::toml::ErrModel,
        >((s, (pre.len() + spec_toml_string(s).len()) as int)),
{
    let doc = pre + spec_toml_string(s) + post;
    let p = pre.len() as int;
    assert(doc[p] == 34u8);
    lemma_body_reads_back(pre, s, post, 0);
    assert(s.take(0) =~= Seq::<u8>::empty());
    if s.len() > 0 {
        assert(s.take(1).drop_last() =~= s.take(0));
        assert(s.take(s.len() as int) =~= s);
        lemma_string_body_prefix(s, 1, s.len() as int);
        let b1 = string_body(s.take(1));
        assert(b1 =~= string_piece(s[0]));
        assert(string_body(s).take(b1.len() as int)[0] == string_body(s)[0]);
        assert(doc[p + 1] == string_body(s)[0]);
        assert(doc[p + 1] != 34u8);
    } else {
        assert(doc[p + 1] == 34u8);
    }
}


proof fn lemma_key_body_prefix(s: Seq<u8>, k: int, m: int)
    requires
        0 <= k <= m <= s.len(),
    ensures
        key_body(s.take(m)).len() >= key_body(s.take(k)).len(),
        key_body(s.take(m)).take(key_body(s.take(k)).len() as int) == key_body(s.take(k)),
    decreases m - k,
{
    if k < m {
        lemma_key_body_prefix(s, k, m - 1);
        assert(s.take(m).drop_last() =~= s.take(m - 1));
        let a = key_body(s.take(m - 1));
        let b = key_body(s.take(k));
        assert(key_body(s.take(m)) == a + key_piece(s[m - 1]));
        assert((a + key_piece(s[m - 1])).take(b.len() as int) =~= a.take(b.len() as int));
    } else {
        assert(key_body(s.take(m)).take(key_body(s.take(k)).len() as int) =~= key_body(s.take(k)));
    }
}

proof fn lemma_key_piece_reads_back(doc: Seq<u8>, q: int, b: u8, acc: Seq<u8>)
    requires
        0 <= q,
        b != 10u8,
        b != 13u8,
        q + key_piece(b).len() < doc.len(),
        doc.subrange(q, q + key_piece(b).len()) == key_piece(b),
    ensures
        crate::toml::spec_basic_body(doc, q, acc) == crate::toml::spec_basic_body(
            doc,
            q + key_piece(b).len(),
            acc.push(b),
        ),
{
    let piece = key_piece(b);
    assert forall|j: int| 0 <= j < piece.len() implies doc[q + j] == #[trigger] piece[j] by {
        assert(doc.subrange(q, q + piece.len())[j] == doc[q + j]);
    }
    if b == 34u8 || b == 92u8 {
        assert(doc[q] == 92u8);
        assert(acc + crate::toml::spec_escape(doc, q + 1)->Ok_0.0 =~= acc.push(b));
    } else {
        assert(piece =~= seq![b]);
        assert(doc[q + 0] == piece[0]);
    }
}

/// The quoted form of a key.
pub open spec fn quoted_key(k: Seq<u8>) -> Seq<u8> {
    seq![34u8] + key_body(k) + seq![34u8]
}

proof fn lemma_key_body_reads_back(pre: Seq<u8>, s: Seq<u8>, post: Seq<u8>, k: int)
    requires
        0 <= k <= s.len(),
        forall|i: int| 0 <= i < s.len() ==> #[trigger] s[i] != 10u8 && s[i] != 13u8,
    ensures
        crate::toml::spec_basic_body(
            pre + quoted_key(s) + post,
            (pre.len() + 1 + key_body(s.take(k)).len()) as int,
            s.take(k),
        ) == Ok::<(Seq<u8>, int), crate::toml::ErrModel>((s, (pre.len() + quoted_key(s).len()) as int)),
    decreases s.len() - k,
{
    let doc = pre + quoted_key(s) + post;
    let body = key_body(s);
    let q = (pre.len() + 1 + key_body(s.take(k)).len()) as int;
    assert(s.take(s.len() as int) =~= s);
    lemma_key_body_prefix(s, k, s.len() as int);
    assert forall|j: int| 0 <= j < body.len() implies doc[pre.len() + 1 + j] == #[trigger] body[j] by {}
    if k == s.len() {
        assert(doc[q] == 34u8);
    } else {
        lemma_key_body_prefix(s, k + 1, s.len() as int);
        assert(s.take(k + 1).drop_last() =~= s.take(k));
        let before = key_body(s.take(k));
        let piece = key_piece(s[k]);
        assert(key_body(s.take(k + 1)) == before + piece);
        assert forall|j: int| 0 <= j < piece.len() implies doc.subrange(q, q + piece.len())[j] == #[trigger] piece[j] by {
            assert(body.take((before + piece).len() as int)[before.len() + j] == (before + piece)[before.len() + j]);
        }
        assert(doc.subrange(q, q + piece.len()) =~= piece);
        lemma_key_piece_reads_back(doc, q, s[k], s.take(k));
        assert(s.take(k).push(s[k]) =~= s.take(k + 1));
        lemma_key_body_reads_back(pre, s, post, k + 1);
    }
}

proof fn lemma_bare_run(doc: Seq<u8>, p: int, n: int, i: int)
    requires
        0 <= p,
        0 <= i <= n,
        p + n <= doc.len(),
        forall|j: int| p <= j < p + n ==> spec_bare_key_char(#[trigger] doc[j]),
        p + n == doc.len() || !spec_bare_key_char(doc[p + n]),
    ensures
        crate::toml::bare_end(doc, p + i) == p + n,
    decreases n - i,
{
    if i < n {
        lemma_bare_run(doc, p, n, i + 1);
    }
}

/// A key as the writer writes it reads back, through the parser's reader of
/// a key segment, as the same bytes, and reading ends right after it; this
/// holds for every key without a newline or carriage return (which the
/// writer leaves raw inside quotes and the parser refuses there), except
/// when what follows would extend it: a bare-key byte after a bare key, or
/// a third `"` after the empty key.
pub proof fn lemma_key_reads_back(pre: Seq<u8>, k: Seq<u8>, post: Seq<u8>)
    requires
        forall|i: int| 0 <= i < k.len() ==> #[trigger] k[i] != 10u8 && k[i] != 13u8,
        spec_toml_key(k) == k ==> post.len() == 0 || !spec_bare_key_char(post[0]),
        k.len() == 0 ==> post.len() == 0 || post[0] != 34u8,
    ensures
        crate::toml::spec_key_segment(pre + spec_toml_key(k) + post, pre.len() as int) == Ok::<
            (Seq<u8>, int),
            crate::toml::ErrModel,
        >((k, (pre.len() + spec_toml_key(k).len()) as int)),
{
    let doc = pre + spec_toml_key(k) + post;
    let p = pre.len() as int;
    if k.len() > 0 && forall|i: int| 0 <= i < k.len() ==> spec_bare_key_char(#[trigger] k[i]) {
        assert(spec_toml_key(k) == k);
        assert forall|j: int| p <= j < p + k.len() implies spec_bare_key_char(#[trigger] doc[j]) by {
            assert(doc[j] == k[j - p]);
        }
        assert(doc[p] == k[0]);
        assert(spec_bare_key_char(k[0]));
        lemma_bare_run(doc, p, k.len() as int, 0);
        assert(doc.subrange(p, p + k.len()) =~= k);
    } else {
        assert(spec_toml_key(k) == quoted_key(k));
        assert(doc[p] == 34u8);
        lemma_key_body_reads_back(pre, k, post, 0);
        assert(k.take(0) =~= Seq::<u8>::empty());
        if k.len() > 0 {
            assert(k.take(1).drop_last() =~= k.take(0));
            assert(k.take(k.len() as int) =~= k);
            lemma_key_body_prefix(k, 1, k.len() as int);
            let b1 = key_body(k.take(1));
            assert(b1 =~= key_piece(k[0]));
            assert(key_body(k).take(b1.len() as int)[0] == key_body(k)[0]);
            assert(doc[p + 1] == key_body(k)[0]);
            assert(doc[p + 1] != 34u8);
        } else {
            assert(doc[p + 1] == 34u8);
        }
    }
}


// ─── Section paths ───────────────────────────────────────────────────────────

/// The path of the section reached from the top of the document by the
/// keys `names`, one nesting at a time.
pub open spec fn section_path(names: Seq<Seq<u8>>) -> Seq<u8>
    decreases names.len(),
{
    if names.len() == 0 {
        Seq::empty()
    } else {
        child_path(section_path(names.drop_last()), names.last())
    }
}

/// `parts[i] . parts[i + 1] . ...`: the parts from `i` on, each after a dot.
pub open spec fn dotted_from(parts: Seq<Seq<u8>>, i: int) -> Seq<u8>
    decreases parts.len() - i,
{
    if i < 0 || i >= parts.len() {
        Seq::empty()
    } else {
        seq![46u8] + parts[i] + dotted_from(parts, i + 1)
    }
}

/// The parts joined by dots.
pub open spec fn dotted(parts: Seq<Seq<u8>>) -> Seq<u8> {
    if parts.len() == 0 {
        Seq::empty()
    } else {
        parts[0] + dotted_from(parts, 1)
    }
}

proof fn lemma_dotted_push(parts: Seq<Seq<u8>>, x: Seq<u8>, i: int)
    requires
        0 <= i <= parts.len(),
    ensures
        dotted_from(parts.push(x), i) == dotted_from(parts, i) + seq![46u8] + x,
    decreases parts.len() - i,
{
    if i < parts.len() {
        lemma_dotted_push(parts, x, i + 1);
        assert(parts.push(x)[i] == parts[i]);
        assert(seq![46u8] + parts[i] + (dotted_from(parts, i + 1) + seq![46u8] + x)
            =~= seq![46u8] + parts[i] + dotted_from(parts, i + 1) + seq![46u8] + x);
    } else {
        assert(parts.push(x)[i] == x);
        assert(dotted_from(parts.push(x), i + 1) =~= Seq::<u8>::empty());
        assert(seq![46u8] + x + Seq::<u8>::empty() =~= Seq::<u8>::empty() + seq![46u8] + x);
    }
}

/// A table nested under the key `k` inside the section at path `P` gets
/// the section path `P.k`, and a table at the top just the key's text; so
/// the section reached from the top by the keys `k1, ..., kn` is headed
/// `[k1.k2. ... .kn]`, the whole path from the top, each key by its text.
/// (A key whose text is empty leaves no trace at the top, so the law is
/// stated for keys whose texts are not empty.)
pub proof fn lemma_section_path(names: Seq<Seq<u8>>)
    ensures
        (forall|i: int| 0 <= i < names.len() ==> #[trigger] utf8_lossy(names[i]).len() > 0) ==> section_path(names)
            == dotted(names.map_values(|k: Seq<u8>| utf8_lossy(k))),
    decreases names.len(),
{
    if forall|i: int| 0 <= i < names.len() ==> #[trigger] utf8_lossy(names[i]).len() > 0 {
        if names.len() > 0 {
            let init = names.drop_last();
            assert forall|i: int| 0 <= i < init.len() implies #[trigger] utf8_lossy(init[i]).len() > 0 by {
                assert(init[i] == names[i]);
            }
            lemma_section_path(init);
            let parts = init.map_values(|k: Seq<u8>| utf8_lossy(k));
            let all = names.map_values(|k: Seq<u8>| utf8_lossy(k));
            assert(all =~= parts.push(utf8_lossy(names.last())));
            if init.len() == 0 {
                assert(dotted_from(all, 1) =~= Seq::<u8>::empty());
                assert(all[0] == utf8_lossy(names.last()));
                assert(all[0] + Seq::<u8>::empty() =~= all[0]);
            } else {
                assert(utf8_lossy(init[0]).len() > 0);
                assert(section_path(init).len() > 0);
                lemma_dotted_push(parts, utf8_lossy(names.last()), 1);
                assert(all[0] == parts[0]);
                assert(parts[0] + (dotted_from(parts, 1) + seq![46u8] + utf8_lossy(names.last()))
                    =~= parts[0] + dotted_from(parts, 1) + seq![46u8] + utf8_lossy(names.last()));
            }
        }
    }
}


/// What a boolean, integer or string value reads back as.
pub open spec fn scalar_data(v: LuaData) -> crate::toml::TomlData {
    match v {
        LuaData::Bool(b) => crate::toml::TomlData::Bool(b),
        LuaData::Int(i) => crate::toml::TomlData::Int(i),
        LuaData::Str(s) => crate::toml::TomlData::Str(s@),
        _ => crate::toml::TomlData::Arr(Seq::empty()),
    }
}

proof fn lemma_expect_lit(s: Seq<u8>, p: int, lit: Seq<u8>, i: int)
    requires
        0 <= p,
        0 <= i <= lit.len(),
        p + lit.len() - i <= s.len(),
        forall|j: int| i <= j < lit.len() ==> s[p + j - i] == #[trigger] lit[j],
    ensures
        crate::toml::spec_expect_lit(s, p, lit, i) == Ok::<int, crate::toml::ErrModel>(p + lit.len() - i),
    decreases lit.len() - i,
{
    if i < lit.len() {
        assert(s[p] == lit[i]);
        lemma_expect_lit(s, p + 1, lit, i + 1);
    }
}

proof fn lemma_bool_reads_back(pre: Seq<u8>, b: bool, post: Seq<u8>)
    ensures
        ({
            let lit = if b { seq![116u8, 114u8, 117u8, 101u8] } else { seq![102u8, 97u8, 108u8, 115u8, 101u8] };
            crate::toml::spec_value(pre + lit + post, pre.len() as int) == Ok::<(crate::toml::TomlData, int), crate::toml::ErrModel>(
                (crate::toml::TomlData::Bool(b), (pre.len() + lit.len()) as int))
        }),
{
    let lit = if b { seq![116u8, 114u8, 117u8, 101u8] } else { seq![102u8, 97u8, 108u8, 115u8, 101u8] };
    let s = pre + lit + post;
    let p = pre.len() as int;
    assert forall|j: int| 0 <= j < lit.len() implies s[p + j - 0] == #[trigger] lit[j] by {}
    lemma_expect_lit(s, p, lit, 0);
    assert(s[p] == lit[0]);
    assert(crate::toml::blank_end(s, p) == p);
}

proof fn lemma_int_reads_back(pre: Seq<u8>, n: i64, post: Seq<u8>)
    requires
        post.len() > 0,
        post[0] == 10u8,
    ensures
        crate::toml::spec_value(pre + spec_decimal(n as int) + post, pre.len() as int) == Ok::<
            (crate::toml::TomlData, int),
            crate::toml::ErrModel,
        >((crate::toml::TomlData::Int(n), (pre.len() + spec_decimal(n as int).len()) as int)),
{
    let t = spec_decimal(n as int);
    let s = pre + t + post;
    let p = pre.len() as int;
    crate::toml::lemma_number_reads_decimal(pre, n, post);
    crate::toml::lemma_digits_read(if n < 0 { (-n) as nat } else { n as nat });
    assert(s[p] == t[0]);
    if n >= 0 {
        assert(crate::toml::is_digit(crate::lobject::spec_digits(n as nat)[0]));
    }
    assert(crate::toml::blank_end(s, p) == p);
}

proof fn lemma_str_reads_back(pre: Seq<u8>, x: Seq<u8>, post: Seq<u8>)
    requires
        post.len() > 0,
        post[0] == 10u8,
    ensures
        crate::toml::spec_value(pre + spec_toml_string(x) + post, pre.len() as int) == Ok::<
            (crate::toml::TomlData, int),
            crate::toml::ErrModel,
        >((crate::toml::TomlData::Str(x), (pre.len() + spec_toml_string(x).len()) as int)),
{
    let s = pre + spec_toml_string(x) + post;
    let p = pre.len() as int;
    lemma_string_reads_back(pre, x, post);
    assert(s[p] == 34u8);
    assert(crate::toml::blank_end(s, p) == p);
}

/// A boolean, integer or string value that `toml.stringify` writes reads
/// back, through the parser's value reader, as the same value, and reading
/// ends where its text does (the text followed, as the writer follows it,
/// by a line break).
pub proof fn lemma_scalar_reads_back(pre: Seq<u8>, v: LuaData, path: Seq<u8>, nested: bool, post: Seq<u8>)
    requires
        v is Bool || v is Int || v is Str,
        post.len() > 0,
        post[0] == 10u8,
    ensures
        value_toml(v, path, nested) is Ok,
        crate::toml::spec_value(pre + value_toml(v, path, nested)->Ok_0 + post, pre.len() as int) == Ok::<
            (crate::toml::TomlData, int),
            crate::toml::ErrModel,
        >((scalar_data(v), (pre.len() + value_toml(v, path, nested)->Ok_0.len()) as int)),
{
    match v {
        LuaData::Bool(b) => {
            lemma_bool_reads_back(pre, b, post);
        },
        LuaData::Int(n) => {
            lemma_int_reads_back(pre, n, post);
        },
        LuaData::Str(x) => {
            lemma_str_reads_back(pre, x@, post);
        },
        _ => {},
    }
}

} // verus!
