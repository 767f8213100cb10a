use vstd::prelude::*;

verus! {

// ─── string.reverse, string.rep, string.char ─────────────────────────────────

/// `string.reverse`: the bytes in reverse order.
pub fn str_reverse(s: &[u8]) -> (r: Vec<u8>)
    ensures
        r@ == s@.reverse(),
{
    let mut r: Vec<u8> = Vec::new();
    let mut i: usize = s.len();
    while i > 0
        invariant
            i <= s@.len(),
            r@ =~= s@.subrange(i as int, s@.len() as int).reverse(),
        decreases i,
    {
        i = i - 1;
        r.push(s[i]);
    }
    proof {
        assert(s@.subrange(0, s@.len() as int) =~= s@);
    }
    r
}

/// `s` repeated `n` times with `sep` between the copies.
pub open spec fn repeat_sep(s: Seq<u8>, sep: Seq<u8>, n: nat) -> Seq<u8>
    decreases n,
{
    if n == 0 {
        Seq::empty()
    } else if n == 1 {
        s
    } else {
        repeat_sep(s, sep, (n - 1) as nat) + sep + s
    }
}

/// Why `string.rep` refuses.
#[derive(Debug, PartialEq, Eq, Clone, Copy, Structural)]
pub enum RepError {
    /// `resulting string too large`
    TooLarge,
}

/// `string.rep(s, n, sep)`: empty for `n` at most 0; refused when one copy
/// with its separator passes 0x7fffffff divided by `n`; otherwise `n`
/// copies of `s` separated by `sep`.
pub open spec fn spec_str_rep(s: Seq<u8>, n: int, sep: Seq<u8>) -> Result<Seq<u8>, RepError> {
    if n <= 0 {
        Ok(Seq::empty())
    } else if s.len() + sep.len() > 0x7fffffffint / n {
        Err(RepError::TooLarge)
    } else {
        Ok(repeat_sep(s, sep, n as nat))
    }
}

/// Repeats a string (see `spec_str_rep`).
pub fn str_rep(s: &[u8], n: i64, sep: &[u8]) -> (r: Result<Vec<u8>, RepError>)
    ensures
        match spec_str_rep(s@, n as int, sep@) {
            Ok(b) => r matches Ok(v) && v@ == b,
            Err(e) => r == Err::<Vec<u8>, RepError>(e),
        },
{
    let mut out: Vec<u8> = Vec::new();
    if n <= 0 {
        return Ok(out);
    }
    let l = s.len();
    let lsep = sep.len();
    if l > 0x7fffffffusize || lsep > 0x7fffffffusize || (l + lsep) as u64 > 0x7fffffffu64 / (n as u64) {
        proof {
            assert(0x7fffffffu64 / (n as u64) <= 0x7fffffff);
        }
        return Err(RepError::TooLarge);
    }
    crate::toml_writer::append(&mut out, s);
    proof {
        assert(out@ == repeat_sep(s@, sep@, 1));
    }
    let mut k: i64 = 1;
    while k < n
        invariant
            1 <= k <= n,
            out@ == repeat_sep(s@, sep@, k as nat),
        decreases n - k,
    {
        crate::toml_writer::append(&mut out, sep);
        crate::toml_writer::append(&mut out, s);
        proof {
            assert(repeat_sep(s@, sep@, (k + 1) as nat) == repeat_sep(s@, sep@, k as nat) + sep@ + s@);
        }
        k = k + 1;
    }
    Ok(out)
}

/// `string.char(...)`: the bytes with the given values, or the first
/// argument (from 1) that is not between 0 and 255.
pub open spec fn spec_str_char(codes: Seq<i64>) -> Result<Seq<u8>, usize> {
    if exists|k: int| 0 <= k < codes.len() && !(0 <= #[trigger] codes[k] <= 255) {
        let k = choose|k: int|
            0 <= k < codes.len() && !(0 <= #[trigger] codes[k] <= 255) && forall|m: int|
                0 <= m < k ==> 0 <= #[trigger] codes[m] <= 255;
        Err((k + 1) as usize)
    } else {
        Ok(Seq::new(codes.len(), |i: int| codes[i] as u8))
    }
}

/// Makes a string of bytes (see `spec_str_char`).
pub fn str_char(codes: &[i64]) -> (r: Result<Vec<u8>, usize>)
    ensures
        match spec_str_char(codes@) {
            Ok(b) => r matches Ok(v) && v@ == b,
            Err(e) => r == Err::<Vec<u8>, usize>(e),
        },
{
    let mut out: Vec<u8> = Vec::new();
    let mut k: usize = 0;
    while k < codes.len()
        invariant
            k <= codes@.len(),
            out@.len() == k,
            forall|m: int| 0 <= m < k ==> 0 <= #[trigger] codes@[m] <= 255,
            forall|m: int| 0 <= m < k ==> #[trigger] out@[m] == codes@[m] as u8,
        decreases codes@.len() - k,
    {
        let c = codes[k];
        if !(0 <= c && c <= 255) {
            proof {
                let kk = choose|kk: int|
                    0 <= kk < codes@.len() && !(0 <= #[trigger] codes@[kk] <= 255) && forall|m: int|
                        0 <= m < kk ==> 0 <= #[trigger] codes@[m] <= 255;
                if kk > k {
                    assert(0 <= codes@[k as int] <= 255);
                }
            }
            return Err(k + 1);
        }
        out.push(c as u8);
        k = k + 1;
    }
    proof {
        assert(out@ =~= Seq::new(codes@.len(), |i: int| codes@[i] as u8));
    }
    Ok(out)
}

// ─── Plain search ────────────────────────────────────────────────────────────

/// The bytes that make a pattern more than a plain string.
pub open spec fn is_special(b: u8) -> bool {
    b == 94u8 || b == 36u8 || b == 42u8 || b == 43u8 || b == 63u8 || b == 46u8 || b == 40u8 || b == 91u8
        || b == 37u8 || b == 45u8
}

/// A pattern with none of `^$*+?.([%-` is searched for as plain bytes.
pub fn nospecials(p: &[u8]) -> (r: bool)
    ensures
        r == forall|i: int| 0 <= i < p@.len() ==> !is_special(#[trigger] p@[i]),
{
    let mut i: usize = 0;
    while i < p.len()
        invariant
            i <= p@.len(),
            forall|j: int| 0 <= j < i ==> !is_special(#[trigger] p@[j]),
        decreases p@.len() - i,
    {
        let b = p[i];
        if b == 94u8 || b == 36u8 || b == 42u8 || b == 43u8 || b == 63u8 || b == 46u8 || b == 40u8 || b == 91u8
            || b == 37u8 || b == 45u8 {
            return false;
        }
        i = i + 1;
    }
    true
}

/// The first index where `needle` occurs in `hay` (0 for an empty needle).
pub open spec fn spec_lmemfind(hay: Seq<u8>, needle: Seq<u8>) -> Option<int> {
    if needle.len() == 0 {
        Some(0)
    } else {
        crate::urllib::find_sub(hay, needle, 0)
    }
}

/// Finds the first occurrence of `needle` in `hay`.
pub fn lmemfind(hay: &[u8], needle: &[u8]) -> (r: Option<usize>)
    ensures
        match spec_lmemfind(hay@, needle@) {
            Some(i) => r == Some(i as usize),
            None => r is None,
        },
{
    if needle.len() == 0 {
        return Some(0);
    }
    match crate::urllib::find_bytes(hay, needle) {
        Some(i) => Some(i),
        None => None,
    }
}


// ─── Positions, string.sub and string.byte ───────────────────────────────────

/// A start position as `string.sub` and `string.byte` read it: positive
/// counts from 1, negative from the end, 0 and positions before the start
/// mean 1.
pub open spec fn start_pos(pos: int, len: int) -> int {
    if pos > 0 {
        pos
    } else if pos == 0 {
        1
    } else if pos < -len {
        1
    } else {
        len + pos + 1
    }
}

/// An end position as they read it: clamped to the length, negative
/// counting from the end, before the start meaning 0.
pub open spec fn end_pos(pos: int, len: int) -> int {
    if pos > len {
        len
    } else if pos >= 0 {
        pos
    } else if pos < -len {
        0
    } else {
        len + pos + 1
    }
}

fn start_pos_exec(pos: i64, len: usize) -> (r: i64)
    requires
        len <= i64::MAX,
    ensures
        r as int == start_pos(pos as int, len as int),
        r >= 1,
{
    if pos > 0 {
        pos
    } else if pos == 0 {
        1
    } else if pos < -(len as i64) {
        1
    } else {
        len as i64 + pos + 1
    }
}

fn end_pos_exec(pos: i64, len: usize) -> (r: usize)
    requires
        len <= i64::MAX,
    ensures
        r as int == end_pos(pos as int, len as int),
        r <= len,
{
    if pos > len as i64 {
        len
    } else if pos >= 0 {
        pos as usize
    } else if pos < -(len as i64) {
        0
    } else {
        (len as i64 + pos + 1) as usize
    }
}

/// `string.sub(s, i, j)`: the bytes from position `i` to position `j`
/// (by default the end), empty when the range is empty.
pub open spec fn spec_str_sub(s: Seq<u8>, i: int, j: int) -> Seq<u8> {
    let start = start_pos(i, s.len() as int);
    let end = end_pos(j, s.len() as int);
    if start <= end {
        s.subrange(start - 1, end)
    } else {
        Seq::empty()
    }
}

/// Cuts a piece out of a string (see `spec_str_sub`).
pub fn str_sub(s: &[u8], i: i64, j: Option<i64>) -> (r: Vec<u8>)
    requires
        s@.len() <= i64::MAX,
    ensures
        r@ == spec_str_sub(s@, i as int, match j { Some(j) => j as int, None => -1 }),
{
    let len = s.len();
    let start = start_pos_exec(i, len);
    let end = end_pos_exec(match j { Some(j) => j, None => -1 }, len);
    if start <= end as i64 {
        vstd::slice::slice_to_vec(&s[(start - 1) as usize..end])
    } else {
        Vec::new()
    }
}

/// Why `string.byte` refuses a range.
#[derive(Debug, PartialEq, Eq, Clone, Copy, Structural)]
pub enum ByteError {
    /// `string slice too long`
    SliceTooLong,
}

/// `string.byte(s, i, j)`: the bytes from position `i` (by default 1) to
/// position `j` (by default `i`); none for an empty range; refused for
/// `0x7fffffff` bytes or more.
pub open spec fn spec_str_byte(s: Seq<u8>, i: int, j: int) -> Result<Seq<u8>, ByteError> {
    let posi = start_pos(i, s.len() as int);
    let pose = end_pos(j, s.len() as int);
    if posi > pose {
        Ok(Seq::empty())
    } else if pose - posi >= 0x7fffffff {
        Err(ByteError::SliceTooLong)
    } else {
        Ok(s.subrange(posi - 1, pose))
    }
}

/// The bytes of a piece of a string (see `spec_str_byte`).
pub fn str_byte(s: &[u8], i: Option<i64>, j: Option<i64>) -> (r: Result<Vec<u8>, ByteError>)
    requires
        s@.len() <= i64::MAX,
    ensures
        ({
            let pi: int = match i { Some(i) => i as int, None => 1 };
            match spec_str_byte(s@, pi, match j { Some(j) => j as int, None => pi }) {
                Ok(b) => r is Ok && r->Ok_0@ == b,
                Err(e) => r == Err::<Vec<u8>, ByteError>(e),
            }
        }),
{
    let len = s.len();
    let pi: i64 = match i { Some(i) => i, None => 1 };
    let posi = start_pos_exec(pi, len);
    let pose = end_pos_exec(match j { Some(j) => j, None => pi }, len);
    if posi > pose as i64 {
        return Ok(Vec::new());
    }
    if pose as i64 - posi >= 0x7fff_ffff {
        return Err(ByteError::SliceTooLong);
    }
    Ok(vstd::slice::slice_to_vec(&s[(posi - 1) as usize..pose]))
}

// ─── string.lower and string.upper ───────────────────────────────────────────

pub open spec fn lower_c(b: u8) -> u8 {
    if 65u8 <= b <= 90u8 {
        (b + 32) as u8
    } else {
        b
    }
}

pub open spec fn upper_c(b: u8) -> u8 {
    if 97u8 <= b <= 122u8 {
        (b - 32) as u8
    } else {
        b
    }
}

/// `string.lower` in the C locale: each capital letter in small letters.
pub fn str_lower(s: &[u8]) -> (r: Vec<u8>)
    ensures
        r@ == s@.map_values(|b: u8| lower_c(b)),
{
    let mut out: Vec<u8> = Vec::new();
    let mut i: usize = 0;
    while i < s.len()
        invariant
            i <= s@.len(),
            out@ == s@.take(i as int).map_values(|b: u8| lower_c(b)),
        decreases s@.len() - i,
    {
        let b = s[i];
        out.push(if 65u8 <= b && b <= 90u8 { b + 32 } else { b });
        i = i + 1;
        proof {
            assert(out@ =~= s@.take(i as int).map_values(|b: u8| lower_c(b)));
        }
    }
    proof {
        assert(s@.take(s@.len() as int) =~= s@);
    }
    out
}

/// `string.upper` in the C locale: each small letter in capitals.
pub fn str_upper(s: &[u8]) -> (r: Vec<u8>)
    ensures
        r@ == s@.map_values(|b: u8| upper_c(b)),
{
    let mut out: Vec<u8> = Vec::new();
    let mut i: usize = 0;
    while i < s.len()
        invariant
            i <= s@.len(),
            out@ == s@.take(i as int).map_values(|b: u8| upper_c(b)),
        decreases s@.len() - i,
    {
        let b = s[i];
        out.push(if 97u8 <= b && b <= 122u8 { b - 32 } else { b });
        i = i + 1;
        proof {
            assert(out@ =~= s@.take(i as int).map_values(|b: u8| upper_c(b)));
        }
    }
    proof {
        assert(s@.take(s@.len() as int) =~= s@);
    }
    out
}


// ─── string.find without patterns ────────────────────────────────────────────

/// `string.find(s, p, init, plain)` when the search is plain (asked for, or
/// `p` has no special character): from position `init` (by default 1), the
/// first and last positions of the first occurrence of `p`; `None` when
/// there is none or `init` lies past the end plus one.
pub open spec fn spec_find_plain(s: Seq<u8>, p: Seq<u8>, init: int) -> Option<(int, int)> {
    let i0 = start_pos(init, s.len() as int) - 1;
    if i0 > s.len() {
        None
    } else {
        match spec_lmemfind(s.skip(i0), p) {
            Some(k) => Some((i0 + k + 1, i0 + k + p.len())),
            None => None,
        }
    }
}

/// Finds `p` in `s` as plain bytes (see `spec_find_plain`).
pub fn str_find_plain(s: &[u8], p: &[u8], init: Option<i64>) -> (r: Option<(i64, i64)>)
    requires
        s@.len() <= i64::MAX,
        p@.len() <= i64::MAX,
    ensures
        match spec_find_plain(s@, p@, match init { Some(i) => i as int, None => 1 }) {
            Some((a, b)) => r == Some((a as i64, b as i64)),
            None => r is None,
        },
{
    let len = s.len();
    let i0 = start_pos_exec(match init { Some(i) => i, None => 1 }, len) - 1;
    if i0 > len as i64 {
        return None;
    }
    let start = i0 as usize;
    let rest = &s[start..len];
    proof {
        assert(rest@ =~= s@.skip(i0 as int));
    }
    match lmemfind(rest, p) {
        Some(k) => {
            proof {
                match spec_lmemfind(rest@, p@) {
                    Some(kk) => {
                        if p@.len() > 0 {
                            crate::urllib::lemma_find_sub(rest@, p@, 0);
                        }
                    },
                    None => {},
                }
            }
            Some((i0 + k as i64 + 1, i0 + k as i64 + p.len() as i64))
        },
        None => None,
    }
}

} // verus!
