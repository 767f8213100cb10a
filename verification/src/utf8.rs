use vstd::prelude::*;
use crate::lobject::pow64;
use crate::lobject::pow2;
use crate::lobject::esc_count;
use crate::lobject::spec_utf8esc;
use crate::strformat::at;

verus! {

// ─── Positions ───────────────────────────────────────────────────────────────

/// A position counted from the end when negative (-1 is the last byte),
/// 0 when it lies before the start.
pub open spec fn spec_posrelat(pos: int, len: int) -> int {
    if pos >= 0 {
        pos
    } else if -pos > len {
        0
    } else {
        len + pos + 1
    }
}

/// Turns a position that may count from the end into one from the start.
pub fn u_posrelat(position: i64, length: usize) -> (r: i64)
    requires
        length <= i64::MAX,
    ensures
        r as int == spec_posrelat(position as int, length as int),
{
    if position >= 0 {
        position
    } else if position == i64::MIN || -position > length as i64 {
        0
    } else {
        length as i64 + position + 1
    }
}

// ─── Decoding ────────────────────────────────────────────────────────────────

/// How many continuation bytes a lead byte `c` (from 0x80 up) announces:
/// the number of 1 bits after its top bit, before the first 0.
pub open spec fn lead_count(c: u8) -> nat {
    if c < 0xC0u8 {
        0
    } else if c < 0xE0u8 {
        1
    } else if c < 0xF0u8 {
        2
    } else if c < 0xF8u8 {
        3
    } else if c < 0xFCu8 {
        4
    } else if c < 0xFEu8 {
        5
    } else if c < 0xFFu8 {
        6
    } else {
        7
    }
}

/// The smallest value that needs `k` continuation bytes.
pub open spec fn utf8_limit(k: nat) -> nat {
    if k == 1 {
        0x80
    } else if k == 2 {
        0x800
    } else if k == 3 {
        0x10000
    } else if k == 4 {
        0x200000
    } else {
        0x4000000
    }
}

/// The value of a sequence: the lead byte's payload `v0`, then six bits from
/// each of the `j` bytes after position `i`.
pub open spec fn cont_value(s: Seq<u8>, i: int, v0: nat, j: nat) -> nat
    decreases j,
{
    if j == 0 {
        v0
    } else {
        cont_value(s, i, v0, (j - 1) as nat) * 64 + (at(s, i + j) % 64) as nat
    }
}

/// The code point encoded at `i` (reading the terminating 0 past the end)
/// and the index after it; `None` for a byte sequence that is not a
/// shortest encoding of a value of at most 31 bits, and, when `strict`, for
/// a surrogate or a value above 0x10FFFF.
pub open spec fn spec_utf8_decode(s: Seq<u8>, i: int, strict: bool) -> Option<(nat, int)> {
    let c = s[i];
    let r: Option<(nat, int)> = if c < 0x80u8 {
        Some((c as nat, i + 1))
    } else {
        let k = lead_count(c);
        if k == 0 || k > 5 {
            None
        } else if !(forall|j: int| 1 <= j <= k ==> 0x80u8 <= #[trigger] at(s, i + j) < 0xC0u8) {
            None
        } else {
            let v = cont_value(s, i, (c as nat) % pow2((6 - k) as nat), k);
            if v > 0x7fffffff || v < utf8_limit(k) {
                None
            } else {
                Some((v, i + k + 1))
            }
        }
    };
    match r {
        Some((v, n)) => if strict && (v > 0x10FFFF || (0xD800 <= v <= 0xDFFF)) {
            None
        } else {
            Some((v, n))
        },
        None => None,
    }
}

/// Decodes the UTF-8 sequence at `i`: its code point and the index after it.
pub fn utf8_decode(s: &[u8], i: usize, strict: bool) -> (r: Option<(u32, usize)>)
    requires
        i < s@.len(),
    ensures
        match spec_utf8_decode(s@, i as int, strict) {
            Some((v, n)) => r == Some((v as u32, n as usize)) && v <= 0x7fffffff && n <= s@.len() + 1,
            None => r is None,
        },
{
    proof {
        crate::lobject::lemma_pow_values_pub();
    }
    let n = s.len();
    let c = s[i];
    let res: u32;
    let next: usize;
    if c < 0x80u8 {
        res = c as u32;
        next = i + 1;
    } else {
        let k: usize = if c < 0xC0u8 {
            0
        } else if c < 0xE0u8 {
            1
        } else if c < 0xF0u8 {
            2
        } else if c < 0xF8u8 {
            3
        } else if c < 0xFCu8 {
            4
        } else if c < 0xFEu8 {
            5
        } else if c < 0xFFu8 {
            6
        } else {
            7
        };
        if k == 0 || k > 5 {
            return None;
        }
        let m: u32 = if k == 1 {
            32
        } else if k == 2 {
            16
        } else if k == 3 {
            8
        } else if k == 4 {
            4
        } else {
            2
        };
        let mut v: u32 = (c as u32) % m;
        let mut j: usize = 1;
        while j <= k
            invariant
                1 <= j <= k + 1,
                k <= 5,
                k == lead_count(c),
                n == s@.len(),
                i < n,
                c == s@[i as int],
                m as nat == pow2((6 - k) as nat),
                v as nat == cont_value(s@, i as int, (c as nat) % pow2((6 - k) as nat), (j - 1) as nat),
                v < pow2((6 - k) as nat) * pow64((j - 1) as nat),
                forall|jj: int| 1 <= jj < j ==> 0x80u8 <= #[trigger] at(s@, i + jj) < 0xC0u8,
            decreases k + 1 - j,
        {
            let cc: u8 = if i + j < n {
                s[i + j]
            } else {
                0u8
            };
            if !(0x80u8 <= cc && cc < 0xC0u8) {
                proof {
                    assert(!(0x80u8 <= at(s@, i + j) < 0xC0u8));
                }
                return None;
            }
            proof {
                crate::lobject::lemma_pow_values_pub();
                assert(pow64(j as nat) == 64 * pow64((j - 1) as nat));
                assert(pow2((6 - k) as nat) * pow64((j - 1) as nat) <= 0x2000000) by {
                    if k == 1 {
                        assert(pow2((6 - k) as nat) * pow64((k - 1) as nat) == 32 * 1);
                    } else if k == 2 {
                        assert(pow2((6 - k) as nat) * pow64((k - 1) as nat) == 16 * 64);
                    } else if k == 3 {
                        assert(pow2((6 - k) as nat) * pow64((k - 1) as nat) == 8 * 4096);
                    } else if k == 4 {
                        assert(pow2((6 - k) as nat) * pow64((k - 1) as nat) == 4 * 262144);
                    } else {
                        assert(pow2((6 - k) as nat) * pow64((k - 1) as nat) == 2 * 16777216);
                    }
                    crate::lobject::lemma_pow64_mono((j - 1) as nat, (k - 1) as nat);
                    vstd::arithmetic::mul::lemma_mul_inequality(pow64((j - 1) as nat) as int, pow64((k - 1) as nat) as int, pow2((6 - k) as nat) as int);
                    vstd::arithmetic::mul::lemma_mul_is_commutative(pow64((j - 1) as nat) as int, pow2((6 - k) as nat) as int);
                    vstd::arithmetic::mul::lemma_mul_is_commutative(pow64((k - 1) as nat) as int, pow2((6 - k) as nat) as int);
                }
                assert(v * 64 + ((cc % 64) as nat) < pow2((6 - k) as nat) * pow64(j as nat)) by (nonlinear_arith)
                    requires
                        v < pow2((6 - k) as nat) * pow64((j - 1) as nat),
                        pow64(j as nat) == 64 * pow64((j - 1) as nat),
                        cc % 64 < 64,
                ;
            }
            v = v * 64 + (cc % 64) as u32;
            j = j + 1;
        }
        proof {
            crate::lobject::lemma_pow_values_pub();
            if k == 1 {
                assert(pow2((6 - k) as nat) * pow64(k as nat) == 32 * 64);
            } else if k == 2 {
                assert(pow2((6 - k) as nat) * pow64(k as nat) == 16 * 4096);
            } else if k == 3 {
                assert(pow2((6 - k) as nat) * pow64(k as nat) == 8 * 262144);
            } else if k == 4 {
                assert(pow2((6 - k) as nat) * pow64(k as nat) == 4 * 16777216);
            } else {
                assert(pow2((6 - k) as nat) * pow64(k as nat) == 2 * 1073741824);
            }
        }
        let lim: u32 = if k == 1 {
            0x80
        } else if k == 2 {
            0x800
        } else if k == 3 {
            0x10000
        } else if k == 4 {
            0x200000
        } else {
            0x4000000
        };
        if v > 0x7fffffff || v < lim {
            return None;
        }
        res = v;
        next = i + k + 1;
    }
    if strict && (res > 0x10FFFF || (0xD800 <= res && res <= 0xDFFF)) {
        return None;
    }
    Some((res, next))
}


proof fn lemma_cont_zero(s: Seq<u8>, i: int, v0: nat)
    ensures
        cont_value(s, i, v0, 0) == v0,
{
    reveal_with_fuel(cont_value, 1);
}

proof fn lemma_cont_unfold(s: Seq<u8>, i: int, v0: nat, j: nat)
    requires
        j > 0,
    ensures
        cont_value(s, i, v0, j) == cont_value(s, i, v0, (j - 1) as nat) * 64 + (at(s, i + j) % 64) as nat,
{
}

proof fn lemma_cont_value_esc(x: nat, k: nat, s: Seq<u8>, j: nat)
    requires
        1 <= k <= 5,
        j <= k,
        s.len() > k,
        forall|jj: int| 1 <= jj <= k ==> #[trigger] s[jj] == (0x80 + (x / pow64((k - jj) as nat)) % 64) as u8,
    ensures
        cont_value(s, 0, x / pow64(k), j) == x / pow64((k - j) as nat),
    decreases j,
{
    if j > 0 {
        lemma_cont_value_esc(x, k, s, (j - 1) as nat);
        let q = x / pow64((k - j) as nat);
        let c = pow64((k - j) as nat);
        crate::lobject::lemma_pow64_pos((k - j) as nat);
        assert(pow64((k - (j - 1)) as nat) == 64 * c);
        assert(x / pow64((k - (j - 1)) as nat) == q / 64) by {
            vstd::arithmetic::div_mod::lemma_div_denominator(x as int, c as int, 64);
            vstd::arithmetic::mul::lemma_mul_is_commutative(64, c as int);
        }
        assert(at(s, j as int) == s[j as int]);
        assert(at(s, j as int) % 64 == q % 64);
        let v0 = x / pow64(k);
        let prev = cont_value(s, 0, v0, (j - 1) as nat);
        assert(prev == q / 64);
        lemma_cont_unfold(s, 0, v0, j);
        assert(cont_value(s, 0, v0, j) == (q / 64) * 64 + q % 64);
        vstd::arithmetic::div_mod::lemma_fundamental_div_mod(q as int, 64);
        assert(q == 64 * (q / 64) + q % 64);
        assert((at(s, 0 + j as int) % 64) as nat == q % 64);
        assert(cont_value(s, 0, v0, j) == q);
    } else {
        assert((k - j) as nat == k);
        lemma_cont_zero(s, 0, x / pow64(k));
    }
}

/// Decoding the UTF-8 form that `utf8esc` gives a value of at most 31 bits,
/// whatever follows it, gives back the value and the index after the form;
/// so does strict decoding when the value is a Unicode scalar value.
pub proof fn lemma_decode_utf8esc(x: nat, rest: Seq<u8>, strict: bool)
    requires
        x <= 0x7fffffff,
        strict ==> x <= 0x10FFFF && !(0xD800 <= x <= 0xDFFF),
    ensures
        spec_utf8_decode(spec_utf8esc(x) + rest, 0, strict) == Some((x, spec_utf8esc(x).len() as int)),
{
    let e = spec_utf8esc(x);
    let s = e + rest;
    crate::lobject::lemma_pow_values_pub();
    if x < 0x80 {
        assert(s[0] == x as u8);
    } else {
        let k = esc_count(x);
        let y = x / pow64(k);
        let lead = s[0];
        assert(lead == e[0]);
        if k == 1 {
            assert(y < 32) by (nonlinear_arith)
                requires
                    x < 0x800,
                    y == x / 64,
            ;
            assert(pow64(k) == 64);
            assert(pow2((7 - k) as nat) == 64);
            assert(pow2((6 - k) as nat) == 32);
            assert(lead as nat == 192 + y);
            assert((192 + y) % 32 == y) by (nonlinear_arith)
                requires
                    y < 32,
            ;
            assert(lead_count(lead) == 1 && (lead as nat) % pow2((6 - k) as nat) == y);
        } else if k == 2 {
            assert(y < 16) by (nonlinear_arith)
                requires
                    x < 65536,
                    y == x / 4096,
            ;
            assert(pow64(k) == 4096);
            assert(pow2((7 - k) as nat) == 32);
            assert(pow2((6 - k) as nat) == 16);
            assert(lead as nat == 224 + y);
            assert((224 + y) % 16 == y) by (nonlinear_arith)
                requires
                    y < 16,
            ;
            assert(lead_count(lead) == 2 && (lead as nat) % pow2((6 - k) as nat) == y);
        } else if k == 3 {
            assert(y < 8) by (nonlinear_arith)
                requires
                    x < 2097152,
                    y == x / 262144,
            ;
            assert(pow64(k) == 262144);
            assert(pow2((7 - k) as nat) == 16);
            assert(pow2((6 - k) as nat) == 8);
            assert(lead as nat == 240 + y);
            assert((240 + y) % 8 == y) by (nonlinear_arith)
                requires
                    y < 8,
            ;
            assert(lead_count(lead) == 3 && (lead as nat) % pow2((6 - k) as nat) == y);
        } else if k == 4 {
            assert(y < 4) by (nonlinear_arith)
                requires
                    x < 67108864,
                    y == x / 16777216,
            ;
            assert(pow64(k) == 16777216);
            assert(pow2((7 - k) as nat) == 8);
            assert(pow2((6 - k) as nat) == 4);
            assert(lead as nat == 248 + y);
            assert((248 + y) % 4 == y) by (nonlinear_arith)
                requires
                    y < 4,
            ;
            assert(lead_count(lead) == 4 && (lead as nat) % pow2((6 - k) as nat) == y);
        } else {
            assert(y < 2) by (nonlinear_arith)
                requires
                    x < 2147483648,
                    y == x / 1073741824,
            ;
            assert(pow64(k) == 1073741824);
            assert(pow2((7 - k) as nat) == 4);
            assert(pow2((6 - k) as nat) == 2);
            assert(lead as nat == 252 + y);
            assert((252 + y) % 2 == y) by (nonlinear_arith)
                requires
                    y < 2,
            ;
            assert(lead_count(lead) == 5 && (lead as nat) % pow2((6 - k) as nat) == y);
        }
        assert forall|jj: int| 1 <= jj <= k implies #[trigger] s[jj] == (0x80 + (x / pow64((k - jj) as nat)) % 64) as u8 by {
            assert(s[jj] == e[jj]);
        }
        assert forall|jj: int| 1 <= jj <= k implies 0x80u8 <= #[trigger] at(s, 0 + jj) < 0xC0u8 by {
            assert(at(s, 0 + jj) == s[jj]);
        }
        lemma_cont_value_esc(x, k, s, k);
        assert(pow64(0) == 1);
        assert(x / pow64(0) == x);
    }
}


pub proof fn lemma_decode_next(s: Seq<u8>, i: int, strict: bool)
    requires
        0 <= i < s.len(),
    ensures
        spec_utf8_decode(s, i, strict) is Some ==> i < spec_utf8_decode(s, i, strict)->Some_0.1 <= s.len(),
{
    if spec_utf8_decode(s, i, strict) is Some && s[i] >= 0x80u8 {
        let k = lead_count(s[i]);
        assert(0x80u8 <= at(s, i + k) < 0xC0u8);
    }
}

pub open spec fn is_cont(b: u8) -> bool {
    0x80u8 <= b < 0xC0u8
}

// ─── utf8.len ────────────────────────────────────────────────────────────────

/// Why a `utf8` function refuses its arguments.
#[derive(Debug, PartialEq, Eq, Clone, Copy, Structural)]
pub enum Utf8Error {
    /// `initial position out of bounds`, `out of bounds`, `position out of
    /// bounds`: the argument at this index.
    OutOfBounds(u8),
    /// `final position out of bounds` (the third argument of `len`).
    FinalOutOfBounds,
    /// `string slice too long`
    SliceTooLong,
    /// `invalid UTF-8 code`
    InvalidCode,
    /// `initial position is a continuation byte`
    ContinuationByte,
    /// `value out of range`: the argument at this index (from 1).
    ValueOutOfRange(usize),
}

/// The number of characters that start from `p` up to `j` (inclusive), or
/// the position (from 1) of the first invalid sequence.
pub open spec fn count_codes(s: Seq<u8>, p: int, j: int, strict: bool) -> Result<int, int>
    decreases s.len() - p,
{
    if p > j || p < 0 || p >= s.len() {
        Ok(0)
    } else {
        match spec_utf8_decode(s, p, strict) {
            None => Err(p + 1),
            Some((_, nx)) => {
                proof {
                    lemma_decode_next(s, p, strict);
                }
                match count_codes(s, nx, j, strict) {
                    Ok(c) => Ok(c + 1),
                    Err(e) => Err(e),
                }
            },
        }
    }
}

/// `utf8.len(s, i, j, lax)`: the number of characters that start between
/// positions `i` and `j` (both may count from the end), or `Err` with the
/// position of the first invalid sequence.
pub open spec fn spec_utf8_len(s: Seq<u8>, i: int, j: int, lax: bool) -> Result<Result<int, int>, Utf8Error> {
    let posi = spec_posrelat(i, s.len() as int);
    let posj = spec_posrelat(j, s.len() as int);
    if !(1 <= posi && posi - 1 <= s.len()) {
        Err(Utf8Error::OutOfBounds(2))
    } else if !(posj - 1 < s.len()) {
        Err(Utf8Error::FinalOutOfBounds)
    } else {
        Ok(count_codes(s, posi - 1, posj - 1, !lax))
    }
}

/// Counts the characters of `s` between positions `i` and `j`.
pub fn utf8_len(s: &[u8], i: i64, j: i64, lax: bool) -> (r: Result<Result<i64, i64>, Utf8Error>)
    requires
        s@.len() < i64::MAX,
    ensures
        match spec_utf8_len(s@, i as int, j as int, lax) {
            Ok(Ok(n)) => r == Ok::<Result<i64, i64>, Utf8Error>(Ok(n as i64)),
            Ok(Err(p)) => r == Ok::<Result<i64, i64>, Utf8Error>(Err(p as i64)),
            Err(e) => r == Err::<Result<i64, i64>, Utf8Error>(e),
        },
{
    let len = s.len();
    let posi = u_posrelat(i, len);
    let posj = u_posrelat(j, len);
    if !(1 <= posi && posi - 1 <= len as i64) {
        return Err(Utf8Error::OutOfBounds(2));
    }
    if !(posj - 1 < len as i64) {
        return Err(Utf8Error::FinalOutOfBounds);
    }
    let jj = posj - 1;
    let mut p: i64 = posi - 1;
    let mut n: i64 = 0;
    while p <= jj
        invariant
            0 <= p,
            jj < len,
            len == s@.len(),
            len < i64::MAX,
            0 <= n <= p,
            spec_utf8_len(s@, i as int, j as int, lax) == Ok::<Result<int, int>, Utf8Error>(count_codes(s@, posi - 1, jj as int, !lax)),
            count_codes(s@, posi - 1, jj as int, !lax) == (match count_codes(s@, p as int, jj as int, !lax) {
                Ok(c) => Ok(c + n),
                Err(e) => Err(e),
            }),
        decreases len - p,
    {
        match utf8_decode(s, p as usize, !lax) {
            None => {
                return Ok(Err(p + 1));
            },
            Some((_, nx)) => {
                proof {
                    lemma_decode_next(s@, p as int, !lax);
                    assert(spec_utf8_decode(s@, p as int, !lax) is Some);
                    assert(nx as int == spec_utf8_decode(s@, p as int, !lax)->Some_0.1);
                    assert(nx as int > p as int);
                }
                p = nx as i64;
                n = n + 1;
            },
        }
    }
    Ok(Ok(n))
}

// ─── utf8.codepoint ──────────────────────────────────────────────────────────

/// The code points of the characters that start from index `p` up to, but
/// not including, `e`; `None` when one is invalid.
pub open spec fn codes_from(s: Seq<u8>, p: int, e: int, strict: bool) -> Option<Seq<u32>>
    decreases s.len() - p,
{
    if p >= e || p < 0 || p >= s.len() {
        Some(Seq::empty())
    } else {
        match spec_utf8_decode(s, p, strict) {
            None => None,
            Some((v, nx)) => {
                proof {
                    lemma_decode_next(s, p, strict);
                }
                match codes_from(s, nx, e, strict) {
                    Some(rest) => Some(seq![v as u32] + rest),
                    None => None,
                }
            },
        }
    }
}

/// `utf8.codepoint(s, i, j, lax)` with `j` given (it defaults to `i`).
pub open spec fn spec_codepoint(s: Seq<u8>, i: int, j: int, lax: bool) -> Result<Seq<u32>, Utf8Error> {
    let posi = spec_posrelat(i, s.len() as int);
    let pose = spec_posrelat(j, s.len() as int);
    if !(posi >= 1) {
        Err(Utf8Error::OutOfBounds(2))
    } else if !(pose <= s.len()) {
        Err(Utf8Error::OutOfBounds(3))
    } else if posi > pose {
        Ok(Seq::empty())
    } else if pose - posi >= 0x7fffffff {
        Err(Utf8Error::SliceTooLong)
    } else {
        match codes_from(s, posi - 1, pose, !lax) {
            Some(c) => Ok(c),
            None => Err(Utf8Error::InvalidCode),
        }
    }
}

/// The code points of the characters of `s` between positions `i` and `j`.
pub fn codepoint(s: &[u8], i: i64, j: i64, lax: bool) -> (r: Result<Vec<u32>, Utf8Error>)
    requires
        s@.len() < i64::MAX,
    ensures
        match spec_codepoint(s@, i as int, j as int, lax) {
            Ok(c) => r matches Ok(v) && v@ == c,
            Err(e) => r == Err::<Vec<u32>, Utf8Error>(e),
        },
{
    let len = s.len();
    let posi = u_posrelat(i, len);
    let pose = u_posrelat(j, len);
    if !(posi >= 1) {
        return Err(Utf8Error::OutOfBounds(2));
    }
    if !(pose <= len as i64) {
        return Err(Utf8Error::OutOfBounds(3));
    }
    let mut out: Vec<u32> = Vec::new();
    if posi > pose {
        return Ok(out);
    }
    if pose - posi >= 0x7fffffff {
        return Err(Utf8Error::SliceTooLong);
    }
    let mut p: usize = (posi - 1) as usize;
    let e: usize = pose as usize;
    while p < e
        invariant
            e <= len,
            len == s@.len(),
            spec_codepoint(s@, i as int, j as int, lax) == (match codes_from(s@, posi - 1, e as int, !lax) {
                Some(c) => Ok::<Seq<u32>, Utf8Error>(c),
                None => Err(Utf8Error::InvalidCode),
            }),
            codes_from(s@, posi - 1, e as int, !lax) == (match codes_from(s@, p as int, e as int, !lax) {
                Some(c) => Some(out@ + c),
                None => None,
            }),
        decreases len - p,
    {
        match utf8_decode(s, p, !lax) {
            None => {
                return Err(Utf8Error::InvalidCode);
            },
            Some((v, nx)) => {
                proof {
                    lemma_decode_next(s@, p as int, !lax);
                    let rest = codes_from(s@, nx as int, e as int, !lax);
                    if rest is Some {
                        assert(out@ + (seq![v] + rest->Some_0) =~= out@.push(v) + rest->Some_0);
                    }
                }
                out.push(v);
                p = nx;
            },
        }
    }
    proof {
        assert(out@ + Seq::<u32>::empty() =~= out@);
    }
    Ok(out)
}

// ─── utf8.char ───────────────────────────────────────────────────────────────

/// The UTF-8 forms of `codes`, one after another.
pub open spec fn chars_of(codes: Seq<i64>) -> Seq<u8>
    decreases codes.len(),
{
    if codes.len() == 0 {
        Seq::empty()
    } else {
        chars_of(codes.drop_last()) + spec_utf8esc(codes.last() as nat)
    }
}

/// `utf8.char(...)`: the UTF-8 forms of the codes, or the first code (from
/// 1) that is negative or above 0x7FFFFFFF.
pub open spec fn spec_utfchar(codes: Seq<i64>) -> Result<Seq<u8>, Utf8Error> {
    if exists|k: int| 0 <= k < codes.len() && !(0 <= #[trigger] codes[k] <= 0x7fffffff) {
        let k = choose|k: int|
            0 <= k < codes.len() && !(0 <= #[trigger] codes[k] <= 0x7fffffff) && forall|m: int|
                0 <= m < k ==> 0 <= #[trigger] codes[m] <= 0x7fffffff;
        Err(Utf8Error::ValueOutOfRange((k + 1) as usize))
    } else {
        Ok(chars_of(codes))
    }
}

/// Writes the characters with the given codes.
pub fn utfchar(codes: &[i64]) -> (r: Result<Vec<u8>, Utf8Error>)
    ensures
        match spec_utfchar(codes@) {
            Ok(b) => r matches Ok(v) && v@ == b,
            Err(e) => r == Err::<Vec<u8>, Utf8Error>(e),
        },
{
    let mut out: Vec<u8> = Vec::new();
    let mut k: usize = 0;
    while k < codes.len()
        invariant
            k <= codes@.len(),
            forall|m: int| 0 <= m < k ==> 0 <= #[trigger] codes@[m] <= 0x7fffffff,
            out@ == chars_of(codes@.take(k as int)),
        decreases codes@.len() - k,
    {
        let c = codes[k];
        if !(0 <= c && c <= 0x7fffffff) {
            proof {
                let kk = choose|kk: int|
                    0 <= kk < codes@.len() && !(0 <= #[trigger] codes@[kk] <= 0x7fffffff) && forall|m: int|
                        0 <= m < kk ==> 0 <= #[trigger] codes@[m] <= 0x7fffffff;
                if kk < k {
                    assert(false);
                } else if kk > k {
                    assert(0 <= codes@[k as int] <= 0x7fffffff);
                }
            }
            return Err(Utf8Error::ValueOutOfRange(k + 1));
        }
        let b = crate::lobject::utf8esc(c as u32);
        crate::toml_writer::append(&mut out, b.as_slice());
        proof {
            assert(codes@.take(k + 1).drop_last() =~= codes@.take(k as int));
        }
        k = k + 1;
    }
    proof {
        assert(codes@.take(codes@.len() as int) =~= codes@);
    }
    Ok(out)
}


// ─── utf8.offset ─────────────────────────────────────────────────────────────

/// Moving back from `q` over continuation bytes (not past index 0).
pub open spec fn step_back(s: Seq<u8>, q: int) -> int
    decreases q,
{
    if q > 0 && is_cont(at(s, q)) {
        step_back(s, q - 1)
    } else {
        q
    }
}

/// Moving forward from `q` over continuation bytes (the terminating 0 past
/// the end stops it).
pub open spec fn step_fwd(s: Seq<u8>, q: int) -> int
    decreases s.len() - q,
{
    if q < s.len() && is_cont(at(s, q)) {
        step_fwd(s, q + 1)
    } else {
        q
    }
}

/// Moves back one character at a time while `n` is negative and the start
/// is not reached; gives the position and what is left of `n`.
pub open spec fn offset_back(s: Seq<u8>, p: int, n: int) -> (int, int)
    decreases -n,
{
    if n < 0 && p > 0 {
        offset_back(s, step_back(s, p - 1), n + 1)
    } else {
        (p, n)
    }
}

/// Moves forward one character at a time while `n` is positive and the end
/// is not reached.
pub open spec fn offset_fwd(s: Seq<u8>, p: int, n: int) -> (int, int)
    decreases n,
{
    if n > 0 && p < s.len() {
        offset_fwd(s, step_fwd(s, p + 1), n - 1)
    } else {
        (p, n)
    }
}

/// `utf8.offset(s, n, i)`: the position (from 1) where the `n`-th character
/// counting from position `i` starts (`n` = 0: the start of the character
/// that holds position `i`; negative `n` counts back); `None` when there is
/// no such character. `i` defaults to 1 for `n` at least 0 and to the end
/// plus one otherwise.
pub open spec fn spec_byteoffset(s: Seq<u8>, n: int, i: Option<i64>) -> Result<Option<int>, Utf8Error> {
    let len = s.len() as int;
    let default: int = if n >= 0 { 1 } else { len + 1 };
    let posi = spec_posrelat(
        match i {
            Some(v) => v as int,
            None => default,
        },
        len,
    );
    if !(1 <= posi && posi - 1 <= len) {
        Err(Utf8Error::OutOfBounds(3))
    } else {
        let p = posi - 1;
        if n == 0 {
            Ok(Some(step_back(s, p) + 1))
        } else if is_cont(at(s, p)) {
            Err(Utf8Error::ContinuationByte)
        } else {
            let (q, m) = if n < 0 {
                offset_back(s, p, n)
            } else {
                offset_fwd(s, p, n - 1)
            };
            if m == 0 {
                Ok(Some(q + 1))
            } else {
                Ok(None)
            }
        }
    }
}

proof fn lemma_step_back(s: Seq<u8>, q: int)
    requires
        q >= 0,
    ensures
        0 <= step_back(s, q) <= q,
    decreases q,
{
    if q > 0 && is_cont(at(s, q)) {
        lemma_step_back(s, q - 1);
    }
}

proof fn lemma_step_fwd(s: Seq<u8>, q: int)
    requires
        0 <= q <= s.len(),
    ensures
        q <= step_fwd(s, q) <= s.len(),
    decreases s.len() - q,
{
    if q < s.len() && is_cont(at(s, q)) {
        lemma_step_fwd(s, q + 1);
    }
}

fn is_cont_byte(b: u8) -> (r: bool)
    ensures
        r == is_cont(b),
{
    0x80u8 <= b && b < 0xC0u8
}

fn byte_at(s: &[u8], q: usize) -> (r: u8)
    ensures
        r == at(s@, q as int),
{
    if q < s.len() {
        s[q]
    } else {
        0u8
    }
}

fn back_over(s: &[u8], q0: usize) -> (r: usize)
    ensures
        r as int == step_back(s@, q0 as int),
{
    let mut q = q0;
    while q > 0 && is_cont_byte(byte_at(s, q))
        invariant
            step_back(s@, q0 as int) == step_back(s@, q as int),
        decreases q,
    {
        q = q - 1;
    }
    q
}

fn forward_over(s: &[u8], q0: usize) -> (r: usize)
    requires
        q0 <= s@.len(),
    ensures
        r as int == step_fwd(s@, q0 as int),
        r <= s@.len(),
{
    let mut q = q0;
    while q < s.len() && 0x80u8 <= s[q] && s[q] < 0xC0u8
        invariant
            q <= s@.len(),
            step_fwd(s@, q0 as int) == step_fwd(s@, q as int),
        decreases s@.len() - q,
    {
        q = q + 1;
    }
    q
}

/// Finds where a character starts (see `spec_byteoffset`).
pub fn byteoffset(s: &[u8], n: i64, i: Option<i64>) -> (r: Result<Option<i64>, Utf8Error>)
    requires
        s@.len() < i64::MAX,
    ensures
        match spec_byteoffset(s@, n as int, i) {
            Ok(Some(p)) => r == Ok::<Option<i64>, Utf8Error>(Some(p as i64)),
            Ok(None) => r == Ok::<Option<i64>, Utf8Error>(None),
            Err(e) => r == Err::<Option<i64>, Utf8Error>(e),
        },
{
    let len = s.len();
    let default: i64 = if n >= 0 { 1 } else { len as i64 + 1 };
    let posi = match i {
        Some(v) => u_posrelat(v, len),
        None => u_posrelat(default, len),
    };
    if !(1 <= posi && posi - 1 <= len as i64) {
        return Err(Utf8Error::OutOfBounds(3));
    }
    let p: usize = (posi - 1) as usize;
    if n == 0 {
        let q = back_over(s, p);
        proof {
            lemma_step_back(s@, p as int);
        }
        return Ok(Some(q as i64 + 1));
    }
    let b = byte_at(s, p);
    if 0x80u8 <= b && b < 0xC0u8 {
        return Err(Utf8Error::ContinuationByte);
    }
    let mut q: usize = p;
    let mut m: i64 = n;
    if n < 0 {
        while m < 0 && q > 0
            invariant
                q <= len,
                len == s@.len(),
                m <= 0,
                offset_back(s@, p as int, n as int) == offset_back(s@, q as int, m as int),
            decreases -m,
        {
            proof {
                lemma_step_back(s@, q - 1);
            }
            q = back_over(s, q - 1);
            m = m + 1;
        }
    } else {
        m = m - 1;
        while m > 0 && q < len
            invariant
                q <= len,
                len == s@.len(),
                m >= 0,
                offset_fwd(s@, p as int, n - 1) == offset_fwd(s@, q as int, m as int),
            decreases m,
        {
            proof {
                lemma_step_fwd(s@, q + 1);
            }
            q = forward_over(s, q + 1);
            m = m - 1;
        }
    }
    if m == 0 {
        Ok(Some(q as i64 + 1))
    } else {
        Ok(None)
    }
}

// ─── utf8.codes ──────────────────────────────────────────────────────────────

/// One step of `utf8.codes`: from the position `n` it gave last (0 at
/// first), over the rest of that character, to the next one: its position
/// (from 1) and code point, `None` at the end; an invalid sequence, or one
/// followed by a continuation byte, is an error.
pub open spec fn spec_iter_aux(s: Seq<u8>, n: int, strict: bool) -> Result<Option<(int, nat)>, Utf8Error> {
    if n < 0 || n >= s.len() {
        Ok(None)
    } else {
        let k = step_fwd(s, n);
        if k >= s.len() {
            Ok(None)
        } else {
            match spec_utf8_decode(s, k, strict) {
                None => Err(Utf8Error::InvalidCode),
                Some((code, nx)) => if is_cont(at(s, nx)) {
                    Err(Utf8Error::InvalidCode)
                } else {
                    Ok(Some((k + 1, code)))
                },
            }
        }
    }
}

/// The next character after position `n` for `utf8.codes`.
pub fn iter_aux(s: &[u8], n: i64, strict: bool) -> (r: Result<Option<(i64, u32)>, Utf8Error>)
    requires
        s@.len() < i64::MAX,
    ensures
        match spec_iter_aux(s@, n as int, strict) {
            Ok(Some((p, c))) => r == Ok::<Option<(i64, u32)>, Utf8Error>(Some((p as i64, c as u32))),
            Ok(None) => r == Ok::<Option<(i64, u32)>, Utf8Error>(None),
            Err(e) => r == Err::<Option<(i64, u32)>, Utf8Error>(e),
        },
{
    let len = s.len();
    if n < 0 || n >= len as i64 {
        return Ok(None);
    }
    let k = forward_over(s, n as usize);
    if k >= len {
        return Ok(None);
    }
    proof {
        assert(step_fwd(s@, n as int) == k as int);
    }
    match utf8_decode(s, k, strict) {
        None => Err(Utf8Error::InvalidCode),
        Some((code, nx)) => {
            proof {
                lemma_decode_next(s@, k as int, strict);
                assert(spec_utf8_decode(s@, k as int, strict) == Some((code as nat, nx as int)));
            }
            let b = byte_at(s, nx);
            if 0x80u8 <= b && b < 0xC0u8 {
                Err(Utf8Error::InvalidCode)
            } else {
                Ok(Some((k as i64 + 1, code)))
            }
        },
    }
}

/// `utf8.codes` refuses a string that starts with a continuation byte.
pub fn codes_start_ok(s: &[u8]) -> (r: bool)
    ensures
        r == !is_cont(at(s@, 0)),
{
    let b = byte_at(s, 0);
    !(0x80u8 <= b && b < 0xC0u8)
}


// ─── utf8.codepoint undoes utf8.char ─────────────────────────────────────────

proof fn lemma_cont_value_shift(a: Seq<u8>, t: Seq<u8>, q: int, v0: nat, j: nat)
    requires
        0 <= q,
    ensures
        cont_value(a + t, a.len() + q, v0, j) == cont_value(t, q, v0, j),
    decreases j,
{
    if j > 0 {
        lemma_cont_value_shift(a, t, q, v0, (j - 1) as nat);
        assert(at(a + t, a.len() + q + j) == at(t, q + j));
    }
}

/// Decoding does not depend on what comes before the sequence.
proof fn lemma_decode_shift(a: Seq<u8>, t: Seq<u8>, q: int, strict: bool)
    requires
        0 <= q < t.len(),
    ensures
        spec_utf8_decode(a + t, a.len() + q, strict) == (match spec_utf8_decode(t, q, strict) {
            Some((v, n)) => Some((v, n + a.len())),
            None => None,
        }),
{
    let s = a + t;
    let i = a.len() + q;
    assert(s[i] == t[q]);
    assert forall|j: int| #![trigger at(s, i + j)] #![trigger at(t, q + j)] j >= 0 implies at(s, i + j) == at(t, q + j) by {}
    let c = t[q];
    if c >= 0x80u8 {
        let k = lead_count(c);
        let cond_s = forall|j: int| 1 <= j <= k ==> 0x80u8 <= #[trigger] at(s, i + j) < 0xC0u8;
        let cond_t = forall|j: int| 1 <= j <= k ==> 0x80u8 <= #[trigger] at(t, q + j) < 0xC0u8;
        assert(cond_s == cond_t) by {
            if cond_s {
                assert forall|j: int| 1 <= j <= k implies 0x80u8 <= #[trigger] at(t, q + j) < 0xC0u8 by {
                    assert(at(s, i + j) == at(t, q + j));
                }
            }
            if cond_t {
                assert forall|j: int| 1 <= j <= k implies 0x80u8 <= #[trigger] at(s, i + j) < 0xC0u8 by {
                    assert(at(s, i + j) == at(t, q + j));
                }
            }
        }
        lemma_cont_value_shift(a, t, q, (c as nat) % pow2((6 - k) as nat), k);
    }
}

proof fn lemma_codes_shift(a: Seq<u8>, t: Seq<u8>, q: int, e: int, strict: bool)
    requires
        0 <= q,
        e <= t.len(),
    ensures
        codes_from(a + t, a.len() + q, a.len() + e, strict) == codes_from(t, q, e, strict),
    decreases t.len() - q,
{
    if q < e && q < t.len() {
        lemma_decode_shift(a, t, q, strict);
        match spec_utf8_decode(t, q, strict) {
            Some((v, nx)) => {
                lemma_decode_next(t, q, strict);
                lemma_codes_shift(a, t, nx, e, strict);
            },
            None => {},
        }
    }
}

proof fn lemma_chars_of_front(codes: Seq<i64>)
    requires
        codes.len() > 0,
    ensures
        chars_of(codes) == spec_utf8esc(codes[0] as nat) + chars_of(codes.drop_first()),
    decreases codes.len(),
{
    if codes.len() == 1 {
        assert(codes.drop_last() =~= Seq::<i64>::empty());
        assert(codes.drop_first() =~= Seq::<i64>::empty());
        assert(chars_of(codes.drop_first()) =~= Seq::<u8>::empty());
        assert(chars_of(codes) =~= spec_utf8esc(codes[0] as nat));
    } else {
        lemma_chars_of_front(codes.drop_last());
        assert(codes.drop_last().drop_first() =~= codes.drop_first().drop_last());
        assert(codes.drop_first().last() == codes.last());
        assert(chars_of(codes) =~= spec_utf8esc(codes[0] as nat) + chars_of(codes.drop_first()));
    }
}

/// The code points a list of codes stands for.
pub open spec fn as_code_points(codes: Seq<i64>) -> Seq<u32> {
    codes.map_values(|c: i64| c as u32)
}

/// A code that `utf8.char` writes and decoding reads back: in the lax mode
/// any value of 31 bits, in the strict mode a Unicode scalar value.
pub open spec fn code_ok(c: i64, strict: bool) -> bool {
    &&& 0 <= c <= 0x7fffffff
    &&& strict ==> c <= 0x10FFFF && !(0xD800 <= c <= 0xDFFF)
}

proof fn lemma_codes_of_chars(codes: Seq<i64>, strict: bool)
    requires
        forall|k: int| 0 <= k < codes.len() ==> code_ok(#[trigger] codes[k], strict),
    ensures
        codes_from(chars_of(codes), 0, chars_of(codes).len() as int, strict) == Some(as_code_points(codes)),
    decreases codes.len(),
{
    if codes.len() == 0 {
        assert(as_code_points(codes) =~= Seq::<u32>::empty());
    } else {
        let c = codes[0];
        assert(code_ok(c, strict));
        let rest = codes.drop_first();
        let e = spec_utf8esc(c as nat);
        let t = chars_of(rest);
        lemma_chars_of_front(codes);
        crate::lobject::lemma_pow_values_pub();
        lemma_decode_utf8esc(c as nat, t, strict);
        assert forall|k: int| 0 <= k < rest.len() implies code_ok(#[trigger] rest[k], strict) by {
            assert(rest[k] == codes[k + 1]);
        }
        lemma_codes_of_chars(rest, strict);
        lemma_codes_shift(e, t, 0, t.len() as int, strict);
        let s = e + t;
        assert(s.len() == e.len() + t.len());
        assert(e.len() > 0);
        lemma_decode_next(s, 0, strict);
        assert(as_code_points(codes) =~= seq![c as u32] + as_code_points(rest));
    }
}

/// `utf8.codepoint(utf8.char(...), 1, -1)` gives back the codes: for codes
/// that are all Unicode scalar values (or, with `lax`, all values of 31
/// bits) whose encoding is shorter than `0x7fffffff` bytes.
pub proof fn lemma_codepoint_of_utfchar(codes: Seq<i64>, lax: bool)
    requires
        forall|k: int| 0 <= k < codes.len() ==> code_ok(#[trigger] codes[k], !lax),
        chars_of(codes).len() < 0x7fffffff,
    ensures
        spec_utfchar(codes) == Ok::<Seq<u8>, Utf8Error>(chars_of(codes)),
        spec_codepoint(chars_of(codes), 1, -1, lax) == Ok::<Seq<u32>, Utf8Error>(as_code_points(codes)),
{
    lemma_codes_of_chars(codes, !lax);
    if exists|k: int| 0 <= k < codes.len() && !(0 <= #[trigger] codes[k] <= 0x7fffffff) {
        let k = choose|k: int| 0 <= k < codes.len() && !(0 <= #[trigger] codes[k] <= 0x7fffffff);
        assert(code_ok(codes[k], !lax));
    }
    if codes.len() == 0 {
        assert(chars_of(codes) =~= Seq::<u8>::empty());
        assert(as_code_points(codes) =~= Seq::<u32>::empty());
    }
}

} // verus!
