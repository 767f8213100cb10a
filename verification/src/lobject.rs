use vstd::prelude::*;

verus! {

/// Header shared by every collectable object: the next object in the
/// collector's list, the type tag and the collector's mark bits.
#[derive(Debug)]
pub struct GCObject {
    pub next: Option<Box<GCObject>>,
    pub tt: u8,
    pub marked: u8,
}

/// An absolute line number recorded for the instruction at `pc`.
#[derive(Debug, Clone, Copy, PartialEq, Eq, Structural)]
pub struct AbsLineInfo {
    pub pc: i32,
    pub line: i32,
}


// ─── Integers as text ────────────────────────────────────────────────────────

/// The decimal digits of `n`, most significant first.
pub open spec fn spec_digits(n: nat) -> Seq<u8>
    decreases n,
{
    if n < 10 {
        seq![(48 + n) as u8]
    } else {
        spec_digits(n / 10).push((48 + n % 10) as u8)
    }
}

/// The decimal text of `n`, with `-` before a negative number.
pub open spec fn spec_decimal(n: int) -> Seq<u8> {
    if n < 0 {
        seq![45u8] + spec_digits((-n) as nat)
    } else {
        spec_digits(n as nat)
    }
}

/// Appends the decimal digits of `m` to `out`.
pub fn push_digits(m: u64, out: &mut Vec<u8>)
    ensures
        final(out)@ == old(out)@ + spec_digits(m as nat),
    decreases m,
{
    if m >= 10 {
        push_digits(m / 10, out);
    }
    out.push(48u8 + (m % 10) as u8);
    proof {
        assert(final(out)@ =~= old(out)@ + spec_digits(m as nat));
    }
}

/// The text of an integer as Lua writes it (`%lld`).
pub fn integer_to_string(n: i64) -> (r: Vec<u8>)
    ensures
        r@ == spec_decimal(n as int),
{
    let mut out: Vec<u8> = Vec::new();
    if n < 0 {
        out.push(45u8);
        let m: u64 = if n == i64::MIN {
            9223372036854775808u64
        } else {
            (-n) as u64
        };
        push_digits(m, &mut out);
        proof {
            assert(out@ =~= seq![45u8] + spec_digits((-n) as nat));
        }
    } else {
        push_digits(n as u64, &mut out);
        proof {
            assert(out@ =~= spec_digits(n as nat));
        }
    }
    out
}


// ─── UTF-8 escapes ───────────────────────────────────────────────────────────

/// 64 to the power `k`.
pub open spec fn pow64(k: nat) -> nat
    decreases k,
{
    if k == 0 {
        1
    } else {
        64 * pow64((k - 1) as nat)
    }
}

/// 2 to the power `k`.
pub open spec fn pow2(k: nat) -> nat
    decreases k,
{
    if k == 0 {
        1
    } else {
        2 * pow2((k - 1) as nat)
    }
}

/// How many continuation bytes the UTF-8 form of `x` (at least 0x80) has:
/// the fewest `k` for which `x` is below 2^(5k+6).
pub open spec fn esc_count(x: nat) -> nat {
    if x < 0x800 {
        1
    } else if x < 0x10000 {
        2
    } else if x < 0x200000 {
        3
    } else if x < 0x4000000 {
        4
    } else {
        5
    }
}

/// The UTF-8 form of `x` (extended to 31 bits): one byte below 0x80;
/// otherwise a lead byte with `k` high bits set above the top bits of `x`,
/// then `k` continuation bytes with six bits each, most significant first.
pub open spec fn spec_utf8esc(x: nat) -> Seq<u8> {
    if x < 0x80 {
        seq![x as u8]
    } else {
        let k = esc_count(x);
        seq![(256 - pow2((7 - k) as nat) + x / pow64(k)) as u8] + Seq::new(
            k,
            |p: int| (0x80 + (x / pow64((k - 1 - p) as nat)) % 64) as u8,
        )
    }
}

proof fn lemma_pow_values()
    ensures
        pow64(1) == 64,
        pow64(2) == 4096,
        pow64(3) == 262144,
        pow64(4) == 16777216,
        pow64(5) == 1073741824,
        pow2(1) == 2,
        pow2(2) == 4,
        pow2(3) == 8,
        pow2(4) == 16,
        pow2(5) == 32,
        pow2(6) == 64,
{
    reveal_with_fuel(pow64, 6);
    reveal_with_fuel(pow2, 7);
}

fn pow64_exec(e: usize) -> (r: u32)
    requires
        e <= 5,
    ensures
        r as nat == pow64(e as nat),
        r >= 1,
{
    let mut r: u32 = 1;
    let mut i: usize = 0;
    proof {
        lemma_pow_values();
        assert(pow64(0) == 1);
    }
    while i < e
        invariant
            i <= e <= 5,
            r as nat == pow64(i as nat),
            r >= 1,
        decreases e - i,
    {
        proof {
            lemma_pow_values();
            assert(pow64((i + 1) as nat) == 64 * pow64(i as nat));
        }
        r = r * 64;
        i = i + 1;
    }
    r
}

/// The UTF-8 bytes of `x`, as `luaO_utf8esc` writes them.
pub fn utf8esc(x: u32) -> (r: Vec<u8>)
    requires
        x <= 0x7fffffff,
    ensures
        r@ == spec_utf8esc(x as nat),
{
    if x < 0x80 {
        let r = vec![x as u8];
        proof {
            assert(r@ =~= spec_utf8esc(x as nat));
        }
        return r;
    }
    let k: usize = if x < 0x800 {
        1
    } else if x < 0x10000 {
        2
    } else if x < 0x200000 {
        3
    } else if x < 0x4000000 {
        4
    } else {
        5
    };
    proof {
        lemma_pow_values();
    }
    let d = pow64_exec(k);
    let top: u32 = if k == 1 {
        0xC0
    } else if k == 2 {
        0xE0
    } else if k == 3 {
        0xF0
    } else if k == 4 {
        0xF8
    } else {
        0xFC
    };
    proof {
        assert(top as nat == 256 - pow2((7 - k) as nat));
        assert(x as nat / pow64(k as nat) == (x / d) as nat);
    }
    let mut r: Vec<u8> = Vec::new();
    r.push((top + x / d) as u8);
    let mut p: usize = 0;
    while p < k
        invariant
            x >= 0x80,
            k == esc_count(x as nat),
            p <= k,
            r@.len() == 1 + p,
            r@[0] == (256 - pow2((7 - k) as nat) + x as nat / pow64(k as nat)) as u8,
            forall|q: int| 0 <= q < p ==> #[trigger] r@[1 + q] == (0x80 + (x as nat / pow64((k - 1 - q) as nat)) % 64) as u8,
        decreases k - p,
    {
        let e = pow64_exec(k - 1 - p);
        r.push((0x80 + (x / e) % 64) as u8);
        p = p + 1;
    }
    proof {
        let sp = spec_utf8esc(x as nat);
        let kk = esc_count(x as nat);
        assert(kk == k);
        assert(sp.len() == 1 + k);
        assert(sp[0] == r@[0]);
        assert forall|i: int| 1 <= i <= k implies #[trigger] sp[i] == r@[i] by {
            let q = i - 1;
            assert(r@[1 + q] == (0x80 + (x as nat / pow64((k - 1 - q) as nat)) % 64) as u8);
            assert(sp[1 + q] == (0x80 + (x as nat / pow64((kk - 1 - q) as nat)) % 64) as u8);
        }
        assert(r@ =~= sp);
    }
    r
}


/// The values of the small powers of 64 and of 2.
pub proof fn lemma_pow_values_pub()
    ensures
        pow64(0) == 1,
        pow64(1) == 64,
        pow64(2) == 4096,
        pow64(3) == 262144,
        pow64(4) == 16777216,
        pow64(5) == 1073741824,
        pow2(0) == 1,
        pow2(1) == 2,
        pow2(2) == 4,
        pow2(3) == 8,
        pow2(4) == 16,
        pow2(5) == 32,
        pow2(6) == 64,
{
    lemma_pow_values();
}

/// Powers of 64 grow with the exponent.
pub proof fn lemma_pow64_mono(a: nat, b: nat)
    requires
        a <= b,
    ensures
        pow64(a) <= pow64(b),
    decreases b,
{
    if a < b {
        lemma_pow64_mono(a, (b - 1) as nat);
        lemma_pow64_pos((b - 1) as nat);
    }
}

pub proof fn lemma_pow64_pos(a: nat)
    ensures
        pow64(a) >= 1,
    decreases a,
{
    if a > 0 {
        lemma_pow64_pos((a - 1) as nat);
    }
}


// ─── Numerals ────────────────────────────────────────────────────────────────

/// White space as the C library sees it.
pub open spec fn is_c_space(c: u8) -> bool {
    c == 32u8 || (9u8 <= c <= 13u8)
}

pub open spec fn is_c_digit(c: u8) -> bool {
    48u8 <= c <= 57u8
}

pub open spec fn is_c_xdigit(c: u8) -> bool {
    is_c_digit(c) || (97u8 <= c <= 102u8) || (65u8 <= c <= 70u8)
}

/// The value of a hexadecimal digit (a decimal one, or a letter of either
/// case).
pub open spec fn spec_hexavalue(c: u8) -> int {
    if is_c_digit(c) {
        c - 48
    } else {
        (c | 32u8) - 87
    }
}

/// The value of a hexadecimal digit.
pub fn hexavalue(c: u8) -> (r: i32)
    ensures
        r as int == spec_hexavalue(c),
{
    if 48u8 <= c && c <= 57u8 {
        c as i32 - 48
    } else {
        (c | 32u8) as i32 - 87
    }
}

/// The bytes of `s` before its first zero byte.
pub open spec fn cstr(s: Seq<u8>) -> Seq<u8> {
    match crate::urllib::first_index(s, 0u8, 0) {
        Some(z) => s.take(z),
        None => s,
    }
}

/// The index of the first byte from `i` on that is not white space.
pub open spec fn space_span(s: Seq<u8>, i: int) -> int
    decreases s.len() - i,
{
    if 0 <= i < s.len() && is_c_space(s[i]) {
        space_span(s, i + 1)
    } else {
        i
    }
}

/// The index of the first byte from `i` on that is not a digit (a
/// hexadecimal one when `hex`).
pub open spec fn digit_span(s: Seq<u8>, i: int, hex: bool) -> int
    decreases s.len() - i,
{
    if 0 <= i < s.len() && (if hex {
        is_c_xdigit(s[i])
    } else {
        is_c_digit(s[i])
    }) {
        digit_span(s, i + 1, hex)
    } else {
        i
    }
}

/// The value of digits in `base`, most significant first.
pub open spec fn digits_value(d: Seq<u8>, base: nat, hex: bool) -> nat
    decreases d.len(),
{
    if d.len() == 0 {
        0
    } else {
        digits_value(d.drop_last(), base, hex) * base + (if hex {
            spec_hexavalue(d.last())
        } else {
            d.last() - 48
        }) as nat
    }
}

/// What `l_str2int` makes of a string (read up to its first zero byte):
/// white space, a sign, then `0x` and hexadecimal digits (taken modulo
/// 2^64) or decimal digits (whose value must not pass the largest integer,
/// or its opposite for a negative numeral), then white space and the end.
/// Gives the integer and the index of the end.
pub open spec fn spec_str2int(s: Seq<u8>) -> Option<(int, int)> {
    let cs = cstr(s);
    let i0 = space_span(cs, 0);
    let neg = i0 < cs.len() && cs[i0] == 45u8;
    let i1 = if i0 < cs.len() && (cs[i0] == 45u8 || cs[i0] == 43u8) { i0 + 1 } else { i0 };
    let hex = i1 + 1 < cs.len() && cs[i1] == 48u8 && (cs[i1 + 1] == 120u8 || cs[i1 + 1] == 88u8);
    let ds = if hex { i1 + 2 } else { i1 };
    let de = digit_span(cs, ds, hex);
    let digits = cs.subrange(ds, de);
    let value = if hex {
        digits_value(digits, 16, true) % 0x10000000000000000
    } else {
        digits_value(digits, 10, false)
    };
    let k = space_span(cs, de);
    if !hex && value > 0x7fffffffffffffff + (if neg { 1int } else { 0int }) {
        None
    } else if digits.len() == 0 || k != cs.len() {
        None
    } else {
        let u: nat = if neg && value > 0 {
            (0x10000000000000000 - value) as nat
        } else {
            value
        };
        Some((crate::strpack::as_i64(u), k))
    }
}


pub(crate) fn space_end(s: &[u8], i: usize) -> (r: usize)
    requires
        i <= s@.len(),
    ensures
        r as int == space_span(s@, i as int),
        i <= r <= s@.len(),
{
    let mut j = i;
    while j < s.len() && (s[j] == 32u8 || (9u8 <= s[j] && s[j] <= 13u8))
        invariant
            i <= j <= s@.len(),
            space_span(s@, i as int) == space_span(s@, j as int),
        decreases s@.len() - j,
    {
        j = j + 1;
    }
    j
}

fn digit_of(c: u8, hex: bool) -> (r: bool)
    ensures
        r == (if hex {
            is_c_xdigit(c)
        } else {
            is_c_digit(c)
        }),
{
    if hex {
        (48u8 <= c && c <= 57u8) || (97u8 <= c && c <= 102u8) || (65u8 <= c && c <= 70u8)
    } else {
        48u8 <= c && c <= 57u8
    }
}

pub(crate) fn digits_end(s: &[u8], i: usize, hex: bool) -> (r: usize)
    requires
        i <= s@.len(),
    ensures
        r as int == digit_span(s@, i as int, hex),
        i <= r <= s@.len(),
{
    let mut j = i;
    while j < s.len() && digit_of(s[j], hex)
        invariant
            i <= j <= s@.len(),
            digit_span(s@, i as int, hex) == digit_span(s@, j as int, hex),
        decreases s@.len() - j,
    {
        j = j + 1;
    }
    j
}

proof fn lemma_digit_span(s: Seq<u8>, i: int, hex: bool, j: int)
    requires
        0 <= i <= j < digit_span(s, i, hex),
    ensures
        if hex {
            is_c_xdigit(s[j])
        } else {
            is_c_digit(s[j])
        },
    decreases j - i,
{
    if i < j {
        lemma_digit_span(s, i + 1, hex, j);
    }
}

/// The value of the digits of `cs` from `ds` to `de`: hexadecimal ones
/// modulo 2^64; decimal ones when the value does not pass the largest
/// integer (plus one when `neg`).
fn digits_accumulate(cs: &[u8], ds: usize, de: usize, hex: bool, neg: bool) -> (r: Option<u64>)
    requires
        ds <= de <= cs@.len(),
        de as int == digit_span(cs@, ds as int, hex),
    ensures
        hex ==> r == Some((digits_value(cs@.subrange(ds as int, de as int), 16, true) % 0x10000000000000000) as u64),
        !hex ==> match r {
            Some(v) => v as nat == digits_value(cs@.subrange(ds as int, de as int), 10, false)
                && v <= 0x7fffffffffffffff + (if neg { 1int } else { 0int }),
            None => digits_value(cs@.subrange(ds as int, de as int), 10, false) > 0x7fffffffffffffff + (if neg { 1int } else { 0int }),
        },
{
    let mut a: u64 = 0;
    let mut j: usize = ds;
    proof {
        assert(cs@.subrange(ds as int, ds as int) =~= Seq::<u8>::empty());
    }
    while j < de
        invariant
            ds <= j <= de <= cs@.len(),
            de as int == digit_span(cs@, ds as int, hex),
            hex ==> a as nat == digits_value(cs@.subrange(ds as int, j as int), 16, true) % 0x10000000000000000,
            !hex ==> a as nat == digits_value(cs@.subrange(ds as int, j as int), 10, false),
            !hex ==> a <= 0x7fffffffffffffff + (if neg { 1int } else { 0int }),
        decreases de - j,
    {
        let c = cs[j];
        proof {
            lemma_digit_span(cs@, ds as int, hex, j as int);
            assert(cs@.subrange(ds as int, j + 1).drop_last() =~= cs@.subrange(ds as int, j as int));
        }
        if hex {
            let h = hexavalue(c);
            proof {
                let v = digits_value(cs@.subrange(ds as int, j as int), 16, true);
                if 97u8 <= c <= 102u8 {
                    assert(c | 32u8 == c) by (bit_vector)
                        requires
                            97u8 <= c <= 102u8,
                    ;
                } else if 65u8 <= c <= 70u8 {
                    assert(c | 32u8 == c + 32) by (bit_vector)
                        requires
                            65u8 <= c <= 70u8,
                    ;
                }
                assert(0 <= h < 16);
                vstd::arithmetic::div_mod::lemma_add_mod_noop(v as int * 16, h as int, 0x10000000000000000);
                vstd::arithmetic::div_mod::lemma_mul_mod_noop_left(v as int, 16, 0x10000000000000000);
            }
            a = (((a as u128) * 16 + (h as u128)) % 0x10000000000000000u128) as u64;
        } else {
            let d = (c - 48) as u64;
            if a >= 922337203685477580u64 && (a > 922337203685477580u64 || d > 7 + (if neg { 1u64 } else { 0u64 })) {
                proof {
                    let dd = cs@.subrange(ds as int, de as int);
                    assert forall|i: int| 0 <= i < dd.len() implies is_c_digit(#[trigger] dd[i]) by {
                        lemma_digit_span(cs@, ds as int, false, ds + i);
                    }
                    assert(digits_value(cs@.subrange(ds as int, j + 1), 10, false) == a * 10 + d);
                    lemma_digits_value_mono(dd, (j + 1 - ds) as nat);
                    assert(dd.take((j + 1 - ds) as int) =~= cs@.subrange(ds as int, j + 1));
                }
                return None;
            }
            a = a * 10 + d;
        }
        j = j + 1;
    }
    Some(a)
}

/// Reads an integer numeral as `l_str2int` does (see `spec_str2int`).
pub fn l_str2int(s: &[u8]) -> (r: Option<(i64, usize)>)
    ensures
        match spec_str2int(s@) {
            Some((v, k)) => r == Some((v as i64, k as usize)),
            None => r is None,
        },
{
    let z = match crate::urllib::memchr(s, 0u8) {
        Some(z) => z,
        None => s.len(),
    };
    let cs = &s[0..z];
    proof {
        crate::urllib::lemma_first_index(s@, 0u8, 0);
        assert(cs@ =~= cstr(s@));
    }
    let n = cs.len();
    let i0 = space_end(cs, 0);
    let neg = i0 < n && cs[i0] == 45u8;
    let i1 = if i0 < n && (cs[i0] == 45u8 || cs[i0] == 43u8) { i0 + 1 } else { i0 };
    let hex = n - i1 > 1 && cs[i1] == 48u8 && (cs[i1 + 1] == 120u8 || cs[i1 + 1] == 88u8);
    let ds = if hex { i1 + 2 } else { i1 };
    let de = digits_end(cs, ds, hex);
    let a = match digits_accumulate(cs, ds, de, hex, neg) {
        Some(a) => a,
        None => {
            return None;
        },
    };
    let k = space_end(cs, de);
    if de == ds || k != n {
        return None;
    }
    let u: u64 = if neg && a > 0 {
        (0x10000000000000000u128 - (a as u128)) as u64
    } else {
        a
    };
    Some((crate::strpack::to_signed(u), k))
}

proof fn lemma_digits_value_mono(d: Seq<u8>, m: nat)
    requires
        m <= d.len(),
        forall|i: int| 0 <= i < d.len() ==> is_c_digit(#[trigger] d[i]),
    ensures
        digits_value(d.take(m as int), 10, false) <= digits_value(d, 10, false),
    decreases d.len() - m,
{
    if m < d.len() {
        lemma_digits_value_mono(d, m + 1);
        assert(d.take(m as int + 1).drop_last() =~= d.take(m as int));
        assert(digits_value(d.take(m as int + 1), 10, false) == digits_value(d.take(m as int), 10, false) * 10
            + (d.take(m as int + 1).last() - 48) as nat);
    } else {
        assert(d.take(m as int) =~= d);
    }
}


// ─── Logarithms ──────────────────────────────────────────────────────────────

/// The number of bits of `n`.
pub open spec fn bit_length(n: nat) -> nat
    decreases n,
{
    if n == 0 {
        0
    } else {
        1 + bit_length(n / 2)
    }
}

/// `ceil(log2(x))` for `x` from 1 on (the number of bits of `x - 1`); 32
/// for 0, whose predecessor wraps to the largest 32-bit value.
pub open spec fn spec_ceillog2(x: u32) -> nat {
    if x == 0 {
        32
    } else {
        bit_length((x - 1) as nat)
    }
}

/// The ceiling of the base-2 logarithm of `x`.
pub fn ceillog2(x: u32) -> (r: i32)
    ensures
        r as nat == spec_ceillog2(x),
{
    let mut v: u32 = x.wrapping_sub(1);
    let mut l: i32 = 0;
    proof {
        if x == 0 {
            assert(v == 0xffffffffu32);
            reveal_with_fuel(bit_length, 33);
        } else {
            lemma_bit_length_bound((x - 1) as nat);
        }
    }
    while v > 0
        invariant
            spec_ceillog2(x) <= 32,
            l <= 32,
            l + bit_length(v as nat) == spec_ceillog2(x),
        decreases v,
    {
        proof {
            assert(bit_length(v as nat) == 1 + bit_length((v / 2) as nat));
            lemma_bit_length_bound(v as nat);
        }
        v = v / 2;
        l = l + 1;
    }
    l
}

proof fn lemma_bit_length_bound(n: nat)
    requires
        n < 0x100000000,
    ensures
        bit_length(n) <= 32,
{
    lemma_bit_length_mono(n, 0xffffffff);
    reveal_with_fuel(bit_length, 33);
}

proof fn lemma_bit_length_mono(a: nat, b: nat)
    requires
        a <= b,
    ensures
        bit_length(a) <= bit_length(b),
    decreases b,
{
    if a > 0 {
        lemma_bit_length_mono(a / 2, b / 2);
    }
}

// ─── Chunk names ─────────────────────────────────────────────────────────────

/// `[string "`
pub open spec fn string_open() -> Seq<u8> {
    seq![91u8, 115u8, 116u8, 114u8, 105u8, 110u8, 103u8, 32u8, 34u8]
}

/// What `luaO_chunkid` writes for the chunk name `source`, before the zero
/// that ends it: `=name` gives the name (at most 59 bytes); `@file` gives
/// the file name, or `...` and its last 56 bytes when it is too long; any
/// other source gives `[string "` and the source itself when it is short
/// (below 45 bytes) and has no newline, else its first line cut to 45 bytes
/// and `...`, then `"]`.
pub open spec fn chunkid_text(source: Seq<u8>) -> Seq<u8> {
    let len = source.len();
    if len > 0 && source[0] == 61u8 {
        if len <= 60 {
            source.skip(1)
        } else {
            source.subrange(1, 60)
        }
    } else if len > 0 && source[0] == 64u8 {
        if len <= 60 {
            source.skip(1)
        } else {
            seq![46u8, 46u8, 46u8] + source.subrange(len - 56, len as int)
        }
    } else {
        let nl = crate::urllib::first_index(cstr(source), 10u8, 0);
        if len < 45 && nl is None {
            string_open() + source + seq![34u8, 93u8]
        } else {
            let l = match nl {
                Some(p) => p,
                None => len as int,
            };
            let l2 = if l > 45 { 45 } else { l };
            string_open() + source.take(l2) + seq![46u8, 46u8, 46u8] + seq![34u8, 93u8]
        }
    }
}

/// The chunk id as a C string: `chunkid_text` up to its first zero byte.
pub open spec fn spec_chunkid(source: Seq<u8>) -> Seq<u8> {
    cstr(chunkid_text(source))
}

fn cstr_of(s: &[u8]) -> (r: Vec<u8>)
    ensures
        r@ == cstr(s@),
{
    match crate::urllib::memchr(s, 0u8) {
        Some(z) => {
            proof {
                crate::urllib::lemma_first_index(s@, 0u8, 0);
            }
            let r = vstd::slice::slice_to_vec(&s[0..z]);
            proof {
                assert(s@.subrange(0, z as int) =~= s@.take(z as int));
            }
            r
        },
        None => vstd::slice::slice_to_vec(s),
    }
}

/// The name of a chunk as messages show it (see `spec_chunkid`).
pub fn chunkid(source: &[u8]) -> (r: Vec<u8>)
    ensures
        r@ == spec_chunkid(source@),
{
    let len = source.len();
    let mut out: Vec<u8> = Vec::new();
    if len > 0 && source[0] == 61u8 {
        if len <= 60 {
            crate::toml_writer::append(&mut out, &source[1..len]);
            proof {
                assert(source@.subrange(1, len as int) =~= source@.skip(1));
            }
        } else {
            crate::toml_writer::append(&mut out, &source[1..60]);
        }
    } else if len > 0 && source[0] == 64u8 {
        if len <= 60 {
            crate::toml_writer::append(&mut out, &source[1..len]);
            proof {
                assert(source@.subrange(1, len as int) =~= source@.skip(1));
            }
        } else {
            out.push(46u8);
            out.push(46u8);
            out.push(46u8);
            crate::toml_writer::append(&mut out, &source[len - 56..len]);
        }
    } else {
        let c = cstr_of(source);
        let nl = crate::urllib::memchr(c.as_slice(), 10u8);
        crate::toml_writer::append(&mut out, &[91u8, 115u8, 116u8, 114u8, 105u8, 110u8, 103u8, 32u8, 34u8]);
        if len < 45 && nl.is_none() {
            crate::toml_writer::append(&mut out, source);
        } else {
            let l: usize = match nl {
                Some(p) => {
                    proof {
                        crate::urllib::lemma_first_index(c@, 10u8, 0);
                        crate::urllib::lemma_first_index(source@, 0u8, 0);
                    }
                    p
                },
                None => len,
            };
            let l2: usize = if l > 45 { 45 } else { l };
            proof {
                if nl is Some {
                    assert(c@.len() <= source@.len());
                }
            }
            crate::toml_writer::append(&mut out, &source[0..l2]);
            proof {
                assert(source@.subrange(0, l2 as int) =~= source@.take(l2 as int));
            }
            out.push(46u8);
            out.push(46u8);
            out.push(46u8);
        }
        out.push(34u8);
        out.push(93u8);
    }
    proof {
        assert(out@ =~= chunkid_text(source@));
    }
    cstr_of(out.as_slice())
}


/// The bytes of `s` before its first zero byte.
pub fn cstr_exec(s: &[u8]) -> (r: Vec<u8>)
    ensures
        r@ == cstr(s@),
{
    cstr_of(s)
}


// ─── Integer arithmetic ─────────────────────────────────────────────────────

/// The arithmetic and bitwise operators, in the order of their numeric codes
/// (`Add` is 0, `BNot` is 13).
#[derive(Debug, Clone, Copy, PartialEq, Eq, Structural)]
pub enum ArithOp {
    Add,
    Sub,
    Mul,
    Mod,
    Pow,
    Div,
    IDiv,
    BAnd,
    BOr,
    BXor,
    Shl,
    Shr,
    Unm,
    BNot,
}

/// The operator with numeric code `code`, if there is one.
pub open spec fn spec_arith_op(code: int) -> Option<ArithOp> {
    if code == 0 { Some(ArithOp::Add) }
    else if code == 1 { Some(ArithOp::Sub) }
    else if code == 2 { Some(ArithOp::Mul) }
    else if code == 3 { Some(ArithOp::Mod) }
    else if code == 4 { Some(ArithOp::Pow) }
    else if code == 5 { Some(ArithOp::Div) }
    else if code == 6 { Some(ArithOp::IDiv) }
    else if code == 7 { Some(ArithOp::BAnd) }
    else if code == 8 { Some(ArithOp::BOr) }
    else if code == 9 { Some(ArithOp::BXor) }
    else if code == 10 { Some(ArithOp::Shl) }
    else if code == 11 { Some(ArithOp::Shr) }
    else if code == 12 { Some(ArithOp::Unm) }
    else if code == 13 { Some(ArithOp::BNot) }
    else { None }
}

/// Decodes an operator code.
pub fn arith_op(code: i32) -> (r: Option<ArithOp>)
    ensures
        r == spec_arith_op(code as int),
{
    match code {
        0 => Some(ArithOp::Add),
        1 => Some(ArithOp::Sub),
        2 => Some(ArithOp::Mul),
        3 => Some(ArithOp::Mod),
        4 => Some(ArithOp::Pow),
        5 => Some(ArithOp::Div),
        6 => Some(ArithOp::IDiv),
        7 => Some(ArithOp::BAnd),
        8 => Some(ArithOp::BOr),
        9 => Some(ArithOp::BXor),
        10 => Some(ArithOp::Shl),
        11 => Some(ArithOp::Shr),
        12 => Some(ArithOp::Unm),
        13 => Some(ArithOp::BNot),
        _ => None,
    }
}

/// The errors integer division raises.
#[derive(Debug, Clone, Copy, PartialEq, Eq, Structural)]
pub enum IntArithError {
    /// `n // 0`.
    DivideByZero,
    /// `n % 0`.
    ModuloByZero,
}

impl IntArithError {
    /// The message the error is raised with.
    pub fn message(&self) -> (r: &'static str)
        ensures
            *self == IntArithError::DivideByZero ==> r@ == "attempt to perform 'n//0'"@,
            *self == IntArithError::ModuloByZero ==> r@ == "attempt to perform 'n%0'"@,
    {
        match self {
            IntArithError::DivideByZero => "attempt to perform 'n//0'",
            IntArithError::ModuloByZero => "attempt to perform 'n%0'",
        }
    }
}

/// Division rounding the quotient towards minus infinity.
pub open spec fn floor_div(m: int, n: int) -> int {
    if n > 0 { m / n } else { (-m) / (-n) }
}

/// The remainder of `floor_div`: it has the sign of the divisor.
pub open spec fn floor_mod(m: int, n: int) -> int {
    if n > 0 { m % n } else { -((-m) % (-n)) }
}

/// A shift to the left by `y` bits, to the right (filling with zeros) for a
/// negative `y`; 0 once all bits are shifted out.
pub open spec fn spec_shift_left(x: i64, y: i64) -> i64 {
    if y <= -64 || y >= 64 {
        0
    } else if y >= 0 {
        ((x as u64) << (y as u64)) as i64
    } else {
        ((x as u64) >> ((-y) as u64)) as i64
    }
}

/// What an operator computes on two integers: additive and multiplicative
/// operators wrap around modulo 2^64, `//` and `%` round towards minus
/// infinity and refuse a zero divisor, the shifts are logical. `Pow` and
/// `Div` always give floats and have no integer result.
pub open spec fn spec_intarith(op: ArithOp, v1: i64, v2: i64) -> Option<Result<i64, IntArithError>> {
    match op {
        ArithOp::Add => Some(Ok(vstd::wrapping::i64_specs::wrapping_add(v1, v2))),
        ArithOp::Sub => Some(Ok(vstd::wrapping::i64_specs::wrapping_sub(v1, v2))),
        ArithOp::Mul => Some(Ok(vstd::wrapping::i64_specs::wrapping_mul(v1, v2))),
        ArithOp::Mod => Some(
            if v2 == 0 {
                Err(IntArithError::ModuloByZero)
            } else if v2 == -1 {
                Ok(0)
            } else {
                Ok(floor_mod(v1 as int, v2 as int) as i64)
            },
        ),
        ArithOp::IDiv => Some(
            if v2 == 0 {
                Err(IntArithError::DivideByZero)
            } else if v2 == -1 {
                Ok(vstd::wrapping::i64_specs::wrapping_sub(0, v1))
            } else {
                Ok(floor_div(v1 as int, v2 as int) as i64)
            },
        ),
        ArithOp::Pow | ArithOp::Div => None,
        ArithOp::BAnd => Some(Ok(v1 & v2)),
        ArithOp::BOr => Some(Ok(v1 | v2)),
        ArithOp::BXor => Some(Ok(v1 ^ v2)),
        ArithOp::Shl => Some(Ok(spec_shift_left(v1, v2))),
        ArithOp::Shr => Some(Ok(spec_shift_left(v1, vstd::wrapping::i64_specs::wrapping_sub(0, v2)))),
        ArithOp::Unm => Some(Ok(vstd::wrapping::i64_specs::wrapping_sub(0, v1))),
        ArithOp::BNot => Some(Ok(!v1)),
    }
}

fn magnitude(a: i64) -> (r: u64)
    ensures
        r as int == (if a < 0 { -a } else { a as int }),
{
    if a >= 0 {
        a as u64
    } else if a == i64::MIN {
        0x8000000000000000u64
    } else {
        (-a) as u64
    }
}

proof fn lemma_floor_in_range(m: i64, n: i64)
    requires
        n != 0,
        n != -1,
    ensures
        i64::MIN <= floor_div(m as int, n as int) <= i64::MAX,
        i64::MIN <= floor_mod(m as int, n as int) <= i64::MAX,
        n > 0 ==> 0 <= floor_mod(m as int, n as int) < n,
        n < 0 ==> n < floor_mod(m as int, n as int) <= 0,
        n * floor_div(m as int, n as int) + floor_mod(m as int, n as int) == m,
{
    let mi = m as int;
    let ni = n as int;
    let d = if ni > 0 { ni } else { -ni };
    let x = if ni > 0 { mi } else { -mi };
    vstd::arithmetic::div_mod::lemma_fundamental_div_mod(x, d);
    let q = x / d;
    let r = x % d;
    assert(0 <= r < d);
    assert(d >= 1);
    assert(x == d * q + r);
    assert(d * (q + 1) == d * q + d) by (nonlinear_arith);
    assert(floor_div(mi, ni) == q);
    assert(floor_mod(mi, ni) == if ni > 0 { r } else { -r });
    if q >= 0 {
        assert(d * q >= q) by (nonlinear_arith)
            requires d >= 1, q >= 0;
    } else {
        assert(d * (q + 1) <= q + 1) by (nonlinear_arith)
            requires d >= 1, q + 1 <= 0;
    }
    if ni < 0 {
        assert(d >= 2);
        if q >= 0 {
            assert(d * q >= 2 * q) by (nonlinear_arith)
                requires d >= 2, q >= 0;
        } else {
            assert(d * (q + 1) <= 2 * (q + 1)) by (nonlinear_arith)
                requires d >= 2, q + 1 <= 0;
        }
        assert(ni * q == -(d * q)) by (nonlinear_arith)
            requires ni == -d;
    }
}

/// Floor division and its remainder, for a divisor other than 0 and -1.
fn floor_divmod(m: i64, n: i64) -> (r: (i64, i64))
    requires
        n != 0,
        n != -1,
    ensures
        r.0 == floor_div(m as int, n as int),
        r.1 == floor_mod(m as int, n as int),
{
    proof {
        lemma_floor_in_range(m, n);
    }
    let a = magnitude(m);
    let b = magnitude(n);
    let q0 = a / b;
    let r0 = a % b;
    let ghost mi = m as int;
    let ghost ni = n as int;
    let ghost ai = a as int;
    let ghost bi = b as int;
    proof {
        vstd::arithmetic::div_mod::lemma_fundamental_div_mod(ai, bi);
        assert(ai == bi * (q0 as int) + (r0 as int));
        assert(q0 <= a) by {
            vstd::arithmetic::div_mod::lemma_div_is_ordered_by_denominator(ai, 1, bi);
        }
    }
    let qi: i128;
    let ri: i128;
    if (m >= 0) == (n > 0) {
        // Both signs agree: the quotient of the magnitudes.
        qi = q0 as i128;
        ri = if n > 0 { r0 as i128 } else { -(r0 as i128) };
        proof {
            assert(ai == (q0 as int) * bi + (r0 as int)) by (nonlinear_arith)
                requires ai == bi * (q0 as int) + (r0 as int);
            if ni > 0 {
                vstd::arithmetic::div_mod::lemma_fundamental_div_mod_converse(mi, ni, q0 as int, r0 as int);
            } else {
                vstd::arithmetic::div_mod::lemma_fundamental_div_mod_converse(-mi, -ni, q0 as int, r0 as int);
            }
        }
    } else if r0 == 0 {
        qi = -(q0 as i128);
        ri = 0;
        proof {
            if ni > 0 {
                assert(mi == -(bi * (q0 as int)));
                assert(mi == (-(q0 as int)) * ni + 0) by (nonlinear_arith)
                    requires mi == -(bi * (q0 as int)), ni == bi;
                vstd::arithmetic::div_mod::lemma_fundamental_div_mod_converse(mi, ni, -(q0 as int), 0);
            } else {
                assert(-mi == (-(q0 as int)) * bi + 0) by (nonlinear_arith)
                    requires mi == bi * (q0 as int) + 0;
                vstd::arithmetic::div_mod::lemma_fundamental_div_mod_converse(-mi, -ni, -(q0 as int), 0);
            }
        }
    } else {
        qi = -(q0 as i128) - 1;
        ri = if n > 0 { (b - r0) as i128 } else { r0 as i128 - (b as i128) };
        proof {
            if ni > 0 {
                assert(mi == (-(q0 as int) - 1) * ni + (bi - r0)) by (nonlinear_arith)
                    requires mi == -(bi * (q0 as int) + (r0 as int)), ni == bi;
                vstd::arithmetic::div_mod::lemma_fundamental_div_mod_converse(
                    mi, ni, -(q0 as int) - 1, bi - r0);
            } else {
                assert(-mi == (-(q0 as int) - 1) * bi + (bi - r0)) by (nonlinear_arith)
                    requires mi == bi * (q0 as int) + (r0 as int);
                vstd::arithmetic::div_mod::lemma_fundamental_div_mod_converse(
                    -mi, -ni, -(q0 as int) - 1, bi - r0);
            }
        }
    }
    (qi as i64, ri as i64)
}

/// A logical shift of `x` by `y` bits: to the left for a positive `y`, to
/// the right for a negative one.
pub fn shift_left(x: i64, y: i64) -> (r: i64)
    ensures
        r == spec_shift_left(x, y),
{
    if y <= -64 || y >= 64 {
        0
    } else if y >= 0 {
        ((x as u64) << (y as u64)) as i64
    } else {
        ((x as u64) >> ((-y) as u64)) as i64
    }
}

/// Applies an operator to two integers. `None` for `Pow` and `Div`, whose
/// result is never an integer.
pub fn intarith(op: ArithOp, v1: i64, v2: i64) -> (r: Option<Result<i64, IntArithError>>)
    ensures
        r == spec_intarith(op, v1, v2),
{
    match op {
        ArithOp::Add => Some(Ok(v1.wrapping_add(v2))),
        ArithOp::Sub => Some(Ok(v1.wrapping_sub(v2))),
        ArithOp::Mul => Some(Ok(v1.wrapping_mul(v2))),
        ArithOp::Mod => {
            if v2 == 0 {
                Some(Err(IntArithError::ModuloByZero))
            } else if v2 == -1 {
                Some(Ok(0))
            } else {
                Some(Ok(floor_divmod(v1, v2).1))
            }
        },
        ArithOp::IDiv => {
            if v2 == 0 {
                Some(Err(IntArithError::DivideByZero))
            } else if v2 == -1 {
                Some(Ok(0i64.wrapping_sub(v1)))
            } else {
                Some(Ok(floor_divmod(v1, v2).0))
            }
        },
        ArithOp::Pow | ArithOp::Div => None,
        ArithOp::BAnd => Some(Ok(v1 & v2)),
        ArithOp::BOr => Some(Ok(v1 | v2)),
        ArithOp::BXor => Some(Ok(v1 ^ v2)),
        ArithOp::Shl => Some(Ok(shift_left(v1, v2))),
        ArithOp::Shr => Some(Ok(shift_left(v1, 0i64.wrapping_sub(v2)))),
        ArithOp::Unm => Some(Ok(0i64.wrapping_sub(v1))),
        ArithOp::BNot => Some(Ok(!v1)),
    }
}

/// Integer division and modulo go together: for a nonzero divisor (and
/// leaving out `i64::MIN // -1`, which wraps around), `(m // n) * n + m % n`
/// gives `m` back, and `m % n` has the sign of `n` and is smaller than it.
pub proof fn lemma_idiv_mod(m: i64, n: i64, q: i64, r: i64)
    requires
        n != 0,
        !(m == i64::MIN && n == -1),
        spec_intarith(ArithOp::IDiv, m, n) == Some(Ok::<i64, IntArithError>(q)),
        spec_intarith(ArithOp::Mod, m, n) == Some(Ok::<i64, IntArithError>(r)),
    ensures
        q * n + r == m,
        n > 0 ==> 0 <= r < n,
        n < 0 ==> n < r <= 0,
{
    if n == -1 {
        assert(q == -m);
    } else {
        lemma_floor_in_range(m, n);
        assert(q * n == n * q) by (nonlinear_arith);
    }
}


// ─── Formatted messages ─────────────────────────────────────────────────────

/// An argument of a formatted message, by the directive that takes it.
#[derive(Debug, Clone, PartialEq, Eq)]
pub enum FmtArg {
    /// `%s`: a string, up to its first zero byte; none shows as `(null)`.
    Str(Option<Vec<u8>>),
    /// `%c`: a byte.
    Char(i32),
    /// `%d`: an `int`.
    Int(i32),
    /// `%I`: an integer.
    Integer(i64),
    /// `%f`: a float, already written out.
    Number(Vec<u8>),
    /// `%p`: an address, already written out.
    Pointer(Vec<u8>),
    /// `%U`: a code point, written in UTF-8.
    Code(u32),
}

pub enum FmtArgModel {
    Str(Option<Seq<u8>>),
    Char(i32),
    Int(i32),
    Integer(i64),
    Number(Seq<u8>),
    Pointer(Seq<u8>),
    Code(u32),
}

impl FmtArg {
    pub open spec fn model(&self) -> FmtArgModel {
        match self {
            FmtArg::Str(Some(b)) => FmtArgModel::Str(Some(b@)),
            FmtArg::Str(None) => FmtArgModel::Str(None),
            FmtArg::Char(c) => FmtArgModel::Char(*c),
            FmtArg::Int(n) => FmtArgModel::Int(*n),
            FmtArg::Integer(n) => FmtArgModel::Integer(*n),
            FmtArg::Number(t) => FmtArgModel::Number(t@),
            FmtArg::Pointer(t) => FmtArgModel::Pointer(t@),
            FmtArg::Code(x) => FmtArgModel::Code(*x),
        }
    }
}

pub open spec fn fmt_args_model(args: Seq<FmtArg>) -> Seq<FmtArgModel> {
    args.map_values(|a: FmtArg| a.model())
}

/// `(null)`.
pub open spec fn null_text() -> Seq<u8> {
    seq![40u8, 110u8, 117u8, 108u8, 108u8, 41u8]
}

/// What argument `a` writes for the directive letter `c`, or none when it
/// is not an argument for that directive.
pub open spec fn fmt_piece(c: u8, a: FmtArgModel) -> Option<Seq<u8>> {
    match a {
        FmtArgModel::Str(o) => if c == 115 {
            Some(match o {
                Some(b) => cstr(b),
                None => null_text(),
            })
        } else {
            None
        },
        FmtArgModel::Char(x) => if c == 99 { Some(seq![x as u8]) } else { None },
        FmtArgModel::Int(x) => if c == 100 { Some(spec_decimal(x as int)) } else { None },
        FmtArgModel::Integer(x) => if c == 73 { Some(spec_decimal(x as int)) } else { None },
        FmtArgModel::Number(t) => if c == 102 { Some(t) } else { None },
        FmtArgModel::Pointer(t) => if c == 112 { Some(t) } else { None },
        FmtArgModel::Code(x) => if c == 85 && x <= 0x7fffffff { Some(spec_utf8esc(x as nat)) } else { None },
    }
}

/// The directive letters that take an argument: `s c d I f p U`.
pub open spec fn takes_arg(c: u8) -> bool {
    c == 115 || c == 99 || c == 100 || c == 73 || c == 102 || c == 112 || c == 85
}

/// `o` in front of the text of an outcome.
pub open spec fn prefixed(o: Seq<u8>, r: Option<Result<Seq<u8>, u8>>) -> Option<Result<Seq<u8>, u8>> {
    match r {
        Some(Ok(t)) => Some(Ok(o + t)),
        _ => r,
    }
}

/// The message that `fmt` (up to its first zero byte) gives from byte `i`
/// on, with the arguments from `j` on: bytes other than `%` are copied,
/// `%%` gives `%`, each of `%s %c %d %I %f %p %U` writes the next argument,
/// and any other letter after `%` is refused (`Err` with that letter).
/// `None` when an argument is missing or is not one for its directive.
pub open spec fn spec_pushvfstring(fmt: Seq<u8>, i: int, args: Seq<FmtArgModel>, j: int) -> Option<Result<Seq<u8>, u8>>
    decreases fmt.len() - i,
{
    if i < 0 || i >= fmt.len() || fmt[i] == 0 {
        Some(Ok(Seq::empty()))
    } else if fmt[i] != 37 {
        prefixed(seq![fmt[i]], spec_pushvfstring(fmt, i + 1, args, j))
    } else {
        let c: u8 = if i + 1 < fmt.len() { fmt[i + 1] } else { 0 };
        if c == 37 {
            prefixed(seq![37u8], spec_pushvfstring(fmt, i + 2, args, j))
        } else if takes_arg(c) {
            if 0 <= j < args.len() {
                match fmt_piece(c, args[j]) {
                    Some(piece) => prefixed(piece, spec_pushvfstring(fmt, i + 2, args, j + 1)),
                    None => None,
                }
            } else {
                None
            }
        } else {
            Some(Err(c))
        }
    }
}

/// Writes what argument `a` gives for directive `c` at the end of `out`.
fn push_piece(c: u8, a: &FmtArg, out: &mut Vec<u8>)
    requires
        fmt_piece(c, a.model()) is Some,
    ensures
        final(out)@ == old(out)@ + fmt_piece(c, a.model())->0,
{
    match a {
        FmtArg::Str(Some(b)) => {
            let t = cstr_exec(b.as_slice());
            out.extend_from_slice(t.as_slice());
        },
        FmtArg::Str(None) => {
            let t: Vec<u8> = vec![40u8, 110u8, 117u8, 108u8, 108u8, 41u8];
            proof {
                assert(t@ =~= null_text());
            }
            out.extend_from_slice(t.as_slice());
        },
        FmtArg::Char(x) => {
            out.push(#[verifier::truncate] (*x as u8));
            proof {
                assert(final(out)@ =~= old(out)@ + seq![*x as u8]);
            }
        },
        FmtArg::Int(x) => {
            let t = integer_to_string(*x as i64);
            out.extend_from_slice(t.as_slice());
        },
        FmtArg::Integer(x) => {
            let t = integer_to_string(*x);
            out.extend_from_slice(t.as_slice());
        },
        FmtArg::Number(t) => {
            out.extend_from_slice(t.as_slice());
        },
        FmtArg::Pointer(t) => {
            out.extend_from_slice(t.as_slice());
        },
        FmtArg::Code(x) => {
            let t = utf8esc(*x);
            out.extend_from_slice(t.as_slice());
        },
    }
}

/// Formats a message (see `spec_pushvfstring`); the arguments must fit the
/// directives. `Err` carries the letter of a directive that does not exist.
pub fn pushvfstring(fmt: &[u8], args: &[FmtArg]) -> (r: Result<Vec<u8>, u8>)
    requires
        spec_pushvfstring(fmt@, 0, fmt_args_model(args@), 0) is Some,
    ensures
        match spec_pushvfstring(fmt@, 0, fmt_args_model(args@), 0) {
            Some(Ok(t)) => r matches Ok(v) && v@ == t,
            Some(Err(c)) => r == Err::<Vec<u8>, u8>(c),
            None => false,
        },
{
    let ghost am = fmt_args_model(args@);
    let mut out: Vec<u8> = Vec::new();
    let mut i: usize = 0;
    let mut j: usize = 0;
    proof {
        assert(out@ + Seq::<u8>::empty() =~= Seq::<u8>::empty());
    }
    while i < fmt.len() && fmt[i] != 0
        invariant
            am == fmt_args_model(args@),
            am.len() == args.len(),
            i <= fmt.len(),
            j <= args.len(),
            spec_pushvfstring(fmt@, 0, am, 0) == prefixed(out@, spec_pushvfstring(fmt@, i as int, am, j as int)),
            spec_pushvfstring(fmt@, 0, am, 0) is Some,
        decreases fmt.len() - i,
    {
        let ghost before = out@;
        if fmt[i] != 37 {
            out.push(fmt[i]);
            proof {
                match spec_pushvfstring(fmt@, i + 1, am, j as int) {
                    Some(Ok(t)) => {
                        assert(before + (seq![fmt@[i as int]] + t) =~= out@ + t);
                    },
                    _ => {},
                }
            }
            i = i + 1;
        } else {
            let c: u8 = if i + 1 < fmt.len() { fmt[i + 1] } else { 0 };
            if c == 37 {
                out.push(37u8);
                proof {
                    match spec_pushvfstring(fmt@, i + 2, am, j as int) {
                        Some(Ok(t)) => {
                            assert(before + (seq![37u8] + t) =~= out@ + t);
                        },
                        _ => {},
                    }
                }
                i = i + 2;
            } else if c == 115 || c == 99 || c == 100 || c == 73 || c == 102 || c == 112 || c == 85 {
                proof {
                    assert(am[j as int] == args@[j as int].model());
                }
                push_piece(c, &args[j], &mut out);
                proof {
                    let piece = fmt_piece(c, am[j as int])->0;
                    match spec_pushvfstring(fmt@, i + 2, am, j + 1) {
                        Some(Ok(t)) => {
                            assert(before + (piece + t) =~= out@ + t);
                        },
                        _ => {},
                    }
                }
                i = i + 2;
                j = j + 1;
            } else {
                return Err(c);
            }
        }
    }
    proof {
        assert(out@ + Seq::<u8>::empty() =~= out@);
    }
    Ok(out)
}

/// The message for a directive that does not exist:
/// `invalid option '%<c>' to 'lua_pushfstring'`.
pub open spec fn spec_invalid_option_message(c: u8) -> Seq<u8> {
    seq![105u8, 110u8, 118u8, 97u8, 108u8, 105u8, 100u8, 32u8, 111u8, 112u8, 116u8, 105u8, 111u8, 110u8, 32u8, 39u8, 37u8]
        + seq![c]
        + seq![39u8, 32u8, 116u8, 111u8, 32u8, 39u8, 108u8, 117u8, 97u8, 95u8, 112u8, 117u8, 115u8, 104u8, 102u8, 115u8,
        116u8, 114u8, 105u8, 110u8, 103u8, 39u8]
}

pub fn invalid_option_message(c: u8) -> (r: Vec<u8>)
    ensures
        r@ == spec_invalid_option_message(c),
{
    let mut v: Vec<u8> = vec![105u8, 110u8, 118u8, 97u8, 108u8, 105u8, 100u8, 32u8, 111u8, 112u8, 116u8, 105u8, 111u8, 110u8, 32u8, 39u8, 37u8];
    v.push(c);
    let tail: Vec<u8> = vec![39u8, 32u8, 116u8, 111u8, 32u8, 39u8, 108u8, 117u8, 97u8, 95u8, 112u8, 117u8, 115u8, 104u8, 102u8, 115u8,
        116u8, 114u8, 105u8, 110u8, 103u8, 39u8];
    v.extend_from_slice(tail.as_slice());
    proof {
        assert(v@ =~= spec_invalid_option_message(c));
    }
    v
}

} // verus!
