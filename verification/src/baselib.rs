use vstd::prelude::*;

verus! {

// ─── select ──────────────────────────────────────────────────────────────────

/// Why `select` refuses its index.
#[derive(Debug, PartialEq, Eq, Clone, Copy, Structural)]
pub enum SelectError {
    /// `index out of range`
    IndexOutOfRange,
}

/// How many values `select(i, ...)` returns with `top` values on the stack
/// (the index included): a negative index counts from the end, one past the
/// end is clamped to the end; an index that ends below 1 is refused.
pub open spec fn spec_select_count(top: int, i: int) -> Result<int, SelectError> {
    let j = if i < 0 {
        top + i
    } else if i > top {
        top
    } else {
        i
    };
    if 1 <= j {
        Ok(top - j)
    } else {
        Err(SelectError::IndexOutOfRange)
    }
}

/// The number of values `select` returns for index `i`.
pub fn select_count(top: i32, i: i64) -> (r: Result<i32, SelectError>)
    requires
        top >= 1,
    ensures
        match spec_select_count(top as int, i as int) {
            Ok(n) => r == Ok::<i32, SelectError>(n as i32),
            Err(e) => r == Err::<i32, SelectError>(e),
        },
{
    let j: i64 = if i < 0 {
        top as i64 + i
    } else if i > top as i64 {
        top as i64
    } else {
        i
    };
    if 1 <= j {
        Ok(top - j as i32)
    } else {
        Err(SelectError::IndexOutOfRange)
    }
}

// ─── collectgarbage ──────────────────────────────────────────────────────────

/// The options of `collectgarbage`, with the codes the collector takes.
#[derive(Debug, PartialEq, Eq, Clone, Copy, Structural)]
pub enum GcOption {
    Stop,
    Restart,
    Collect,
    Count,
    Step,
    SetPause,
    SetStepMul,
    IsRunning,
    Generational,
    Incremental,
}

/// The code of an option for the collector.
pub open spec fn spec_gc_code(o: GcOption) -> i32 {
    match o {
        GcOption::Stop => 0,
        GcOption::Restart => 1,
        GcOption::Collect => 2,
        GcOption::Count => 3,
        GcOption::Step => 5,
        GcOption::SetPause => 6,
        GcOption::SetStepMul => 7,
        GcOption::IsRunning => 9,
        GcOption::Generational => 10,
        GcOption::Incremental => 11,
    }
}

pub fn gc_code(o: GcOption) -> (r: i32)
    ensures
        r == spec_gc_code(o),
{
    match o {
        GcOption::Stop => 0,
        GcOption::Restart => 1,
        GcOption::Collect => 2,
        GcOption::Count => 3,
        GcOption::Step => 5,
        GcOption::SetPause => 6,
        GcOption::SetStepMul => 7,
        GcOption::IsRunning => 9,
        GcOption::Generational => 10,
        GcOption::Incremental => 11,
    }
}

/// The names of the options, in order.
pub open spec fn gc_names() -> Seq<Seq<u8>> {
    seq![
        seq![115u8, 116u8, 111u8, 112u8],
        seq![114u8, 101u8, 115u8, 116u8, 97u8, 114u8, 116u8],
        seq![99u8, 111u8, 108u8, 108u8, 101u8, 99u8, 116u8],
        seq![99u8, 111u8, 117u8, 110u8, 116u8],
        seq![115u8, 116u8, 101u8, 112u8],
        seq![115u8, 101u8, 116u8, 112u8, 97u8, 117u8, 115u8, 101u8],
        seq![115u8, 101u8, 116u8, 115u8, 116u8, 101u8, 112u8, 109u8, 117u8, 108u8],
        seq![105u8, 115u8, 114u8, 117u8, 110u8, 110u8, 105u8, 110u8, 103u8],
        seq![103u8, 101u8, 110u8, 101u8, 114u8, 97u8, 116u8, 105u8, 111u8, 110u8, 97u8, 108u8],
        seq![105u8, 110u8, 99u8, 114u8, 101u8, 109u8, 101u8, 110u8, 116u8, 97u8, 108u8],
    ]
}

pub open spec fn gc_option_at(k: int) -> GcOption {
    if k == 0 {
        GcOption::Stop
    } else if k == 1 {
        GcOption::Restart
    } else if k == 2 {
        GcOption::Collect
    } else if k == 3 {
        GcOption::Count
    } else if k == 4 {
        GcOption::Step
    } else if k == 5 {
        GcOption::SetPause
    } else if k == 6 {
        GcOption::SetStepMul
    } else if k == 7 {
        GcOption::IsRunning
    } else if k == 8 {
        GcOption::Generational
    } else {
        GcOption::Incremental
    }
}

/// The first option from the `k`-th on that is named `n`.
pub open spec fn gc_option_from(n: Seq<u8>, k: int) -> Option<GcOption>
    decreases 10 - k,
{
    if k < 0 || k >= 10 {
        None
    } else if gc_names()[k] == n {
        Some(gc_option_at(k))
    } else {
        gc_option_from(n, k + 1)
    }
}

/// The option named `name` (`collect` when there is none); `None` for an
/// unknown name (`invalid option`).
pub open spec fn spec_gc_option(name: Option<Seq<u8>>) -> Option<GcOption> {
    match name {
        None => Some(GcOption::Collect),
        Some(n) => gc_option_from(n, 0),
    }
}

/// Reads the option of `collectgarbage`.
pub fn gc_option(name: Option<&[u8]>) -> (r: Option<GcOption>)
    ensures
        r == spec_gc_option(
            match name {
                Some(n) => Some(n@),
                None => None,
            },
        ),
{
    match name {
        None => Some(GcOption::Collect),
        Some(n) => gc_option_named(n),
    }
}

/// The option named `n`, if one is.
fn gc_option_named(n: &[u8]) -> (r: Option<GcOption>)
    ensures
        r == gc_option_from(n@, 0),
{
    let names: Vec<Vec<u8>> = vec![
        vec![115u8, 116u8, 111u8, 112u8],
        vec![114u8, 101u8, 115u8, 116u8, 97u8, 114u8, 116u8],
        vec![99u8, 111u8, 108u8, 108u8, 101u8, 99u8, 116u8],
        vec![99u8, 111u8, 117u8, 110u8, 116u8],
        vec![115u8, 116u8, 101u8, 112u8],
        vec![115u8, 101u8, 116u8, 112u8, 97u8, 117u8, 115u8, 101u8],
        vec![115u8, 101u8, 116u8, 115u8, 116u8, 101u8, 112u8, 109u8, 117u8, 108u8],
        vec![105u8, 115u8, 114u8, 117u8, 110u8, 110u8, 105u8, 110u8, 103u8],
        vec![103u8, 101u8, 110u8, 101u8, 114u8, 97u8, 116u8, 105u8, 111u8, 110u8, 97u8, 108u8],
        vec![105u8, 110u8, 99u8, 114u8, 101u8, 109u8, 101u8, 110u8, 116u8, 97u8, 108u8],
    ];
    let opts: Vec<GcOption> = vec![GcOption::Stop, GcOption::Restart, GcOption::Collect, GcOption::Count,
        GcOption::Step, GcOption::SetPause, GcOption::SetStepMul, GcOption::IsRunning, GcOption::Generational,
        GcOption::Incremental];
    proof {
        assert forall|k: int| 0 <= k < 10 implies #[trigger] names@[k]@ == gc_names()[k] by {
            assert(names@[k]@ =~= gc_names()[k]);
        }
    }
    let mut k: usize = 0;
    while k < 10
        invariant
            k <= 10,
            names@.len() == 10,
            opts@.len() == 10,
            forall|j: int| 0 <= j < 10 ==> #[trigger] names@[j]@ == gc_names()[j],
            forall|j: int| 0 <= j < 10 ==> #[trigger] opts@[j] == gc_option_at(j),
            gc_option_from(n@, 0) == gc_option_from(n@, k as int),
        decreases 10 - k,
    {
        proof {
            assert(names@[k as int]@ == gc_names()[k as int]);
            assert(opts@[k as int] == gc_option_at(k as int));
        }
        if crate::toml::bytes_eq(names[k].as_slice(), n) {
            return Some(opts[k]);
        }
        k = k + 1;
    }
    None
}

/// What `collectgarbage` gives for the collector's old mode: nil when the
/// call failed (-1), else the name of the mode.
pub fn pushmode(oldmode: i32) -> (r: Option<GcOption>)
    ensures
        oldmode == -1 ==> r is None,
        oldmode != -1 ==> r == Some(if oldmode == 11 { GcOption::Incremental } else { GcOption::Generational }),
{
    if oldmode == -1 {
        None
    } else if oldmode == 11 {
        Some(GcOption::Incremental)
    } else {
        Some(GcOption::Generational)
    }
}


// ─── tonumber with a base ────────────────────────────────────────────────────

/// Why `tonumber` refuses its base.
#[derive(Debug, PartialEq, Eq, Clone, Copy, Structural)]
pub enum TonumberError {
    /// `base out of range`: it must lie between 2 and 36.
    BaseOutOfRange,
}

pub open spec fn is_alnum(c: u8) -> bool {
    (48u8 <= c <= 57u8) || (65u8 <= c <= 90u8) || (97u8 <= c <= 122u8)
}

/// The value of a letter or digit as a digit: 0 to 9 for the digits, 10 to
/// 35 for the letters of either case.
pub open spec fn alnum_value(c: u8) -> int {
    if 48u8 <= c <= 57u8 {
        c - 48
    } else if 97u8 <= c <= 122u8 {
        c - 87
    } else {
        c - 55
    }
}

/// The index of the first byte from `i` on that is neither a letter nor a
/// digit.
pub open spec fn alnum_span(s: Seq<u8>, i: int) -> int
    decreases s.len() - i,
{
    if 0 <= i < s.len() && is_alnum(s[i]) {
        alnum_span(s, i + 1)
    } else {
        i
    }
}

/// The value of digits in `base`, most significant first.
pub open spec fn base_value(d: Seq<u8>, base: nat) -> nat
    decreases d.len(),
{
    if d.len() == 0 {
        0
    } else {
        (base_value(d.drop_last(), base) * base + alnum_value(d.last())) as nat
    }
}

/// Every byte of `d` is a digit of `base`.
pub open spec fn all_digits_below(d: Seq<u8>, base: int) -> bool {
    forall|k: int| 0 <= k < d.len() ==> alnum_value(#[trigger] d[k]) < base
}

/// `tonumber(s, base)`: white space, an optional sign, one or more digits
/// of the base (letters count from 10, in either case), white space and
/// the end of the string; the value wraps around modulo 2^64 and is
/// negated for a `-`. `None` when the string is not such a numeral.
pub open spec fn spec_tonumber_base(s: Seq<u8>, base: int) -> Result<Option<i64>, TonumberError> {
    if !(2 <= base <= 36) {
        Err(TonumberError::BaseOutOfRange)
    } else {
        let i0 = crate::lobject::space_span(s, 0);
        let neg = i0 < s.len() && s[i0] == 45u8;
        let i1 = if i0 < s.len() && (s[i0] == 45u8 || s[i0] == 43u8) { i0 + 1 } else { i0 };
        let de = alnum_span(s, i1);
        let digits = s.subrange(i1, de);
        if digits.len() == 0 || !all_digits_below(digits, base) {
            Ok(None)
        } else if crate::lobject::space_span(s, de) != s.len() {
            Ok(None)
        } else {
            let m = base_value(digits, base as nat) % 0x10000000000000000;
            let u: nat = if neg { ((0x10000000000000000 - m) % 0x10000000000000000) as nat } else { m };
            Ok(Some(crate::strpack::as_i64(u) as i64))
        }
    }
}

fn alnum_end(s: &[u8], i: usize) -> (r: usize)
    requires
        i <= s@.len(),
    ensures
        r as int == alnum_span(s@, i as int),
        i <= r <= s@.len(),
{
    let mut j = i;
    while j < s.len() && ((48u8 <= s[j] && s[j] <= 57u8) || (65u8 <= s[j] && s[j] <= 90u8) || (97u8 <= s[j] && s[j] <= 122u8))
        invariant
            i <= j <= s@.len(),
            alnum_span(s@, i as int) == alnum_span(s@, j as int),
        decreases s@.len() - j,
    {
        j = j + 1;
    }
    j
}

proof fn lemma_alnum_span(s: Seq<u8>, i: int, j: int)
    requires
        0 <= i <= j < alnum_span(s, i),
    ensures
        is_alnum(s[j]),
    decreases j - i,
{
    if i < j {
        lemma_alnum_span(s, i + 1, j);
    }
}

proof fn lemma_mod_step(v: int, b: int, d: int, a: int)
    requires
        v >= 0,
        b >= 0,
        d >= 0,
        a == v % 0x10000000000000000,
    ensures
        (a * b + d) % 0x10000000000000000 == (v * b + d) % 0x10000000000000000,
{
    vstd::arithmetic::div_mod::lemma_add_mod_noop(v * b, d, 0x10000000000000000);
    vstd::arithmetic::div_mod::lemma_add_mod_noop(a * b, d, 0x10000000000000000);
    vstd::arithmetic::div_mod::lemma_mul_mod_noop_left(v, b, 0x10000000000000000);
    vstd::arithmetic::div_mod::lemma_mul_mod_noop_left(a, b, 0x10000000000000000);
    vstd::arithmetic::div_mod::lemma_mod_twice(v, 0x10000000000000000);
}

/// The value modulo 2^64 of the digits of `s` from `i` to `e`, all letters
/// or digits; `None` when one of them is not a digit of `base`.
fn base_digits(s: &[u8], i: usize, e: usize, base: u64) -> (r: Option<u64>)
    requires
        i <= e <= s@.len(),
        2 <= base <= 36,
        forall|k: int| i <= k < e ==> is_alnum(#[trigger] s@[k]),
    ensures
        match r {
            Some(a) => (forall|k: int| 0 <= k < e - i ==> alnum_value(#[trigger] s@.subrange(i as int, e as int)[k]) < base)
                && a as nat == base_value(s@.subrange(i as int, e as int), base as nat) % 0x10000000000000000,
            None => exists|k: int| 0 <= k < e - i && alnum_value(#[trigger] s@.subrange(i as int, e as int)[k]) >= base,
        },
{
    let ghost digits = s@.subrange(i as int, e as int);
    let mut a: u64 = 0;
    let mut j: usize = i;
    proof {
        assert(s@.subrange(i as int, i as int) =~= Seq::<u8>::empty());
    }
    while j < e
        invariant
            i <= j <= e <= s@.len(),
            digits == s@.subrange(i as int, e as int),
            2 <= base <= 36,
            forall|k: int| i <= k < e ==> is_alnum(#[trigger] s@[k]),
            a as nat == base_value(s@.subrange(i as int, j as int), base as nat) % 0x10000000000000000,
            forall|k: int| 0 <= k < j - i ==> alnum_value(#[trigger] digits[k]) < base,
        decreases e - j,
    {
        let c = s[j];
        assert(is_alnum(s@[j as int]));
        assert(digits[j - i] == c);
        let d: u64 = if 48u8 <= c && c <= 57u8 {
            (c - 48) as u64
        } else if 97u8 <= c && c <= 122u8 {
            (c - 87) as u64
        } else {
            (c - 55) as u64
        };
        assert(d as int == alnum_value(c));
        if d >= base {
            assert(alnum_value(digits[j - i]) >= base);
            return None;
        }
        proof {
            let v = base_value(s@.subrange(i as int, j as int), base as nat);
            assert(s@.subrange(i as int, j + 1).drop_last() =~= s@.subrange(i as int, j as int));
            assert(base_value(s@.subrange(i as int, j + 1), base as nat) == v * base + d);
            lemma_mod_step(v as int, base as int, d as int, a as int);
            assert((a as int) * (base as int) + d < 0x10000000000000000 * 37) by (nonlinear_arith)
                requires
                    a < 0x10000000000000000,
                    base <= 36,
                    d < 36,
            ;
        }
        a = (((a as u128) * (base as u128) + (d as u128)) % 0x10000000000000000u128) as u64;
        j = j + 1;
    }
    proof {
        assert(s@.subrange(i as int, j as int) =~= digits);
    }
    Some(a)
}

/// Reads `s` as an integer numeral in `base` (see `spec_tonumber_base`).
pub fn tonumber_base(s: &[u8], base: i64) -> (r: Result<Option<i64>, TonumberError>)
    ensures
        r == spec_tonumber_base(s@, base as int),
{
    if base < 2 || base > 36 {
        return Err(TonumberError::BaseOutOfRange);
    }
    let i0 = crate::lobject::space_end(s, 0);
    let neg = i0 < s.len() && s[i0] == 45u8;
    let i1 = if i0 < s.len() && (s[i0] == 45u8 || s[i0] == 43u8) { i0 + 1 } else { i0 };
    let de = alnum_end(s, i1);
    if de == i1 {
        return Ok(None);
    }
    proof {
        assert forall|k: int| i1 <= k < de implies is_alnum(#[trigger] s@[k]) by {
            lemma_alnum_span(s@, i1 as int, k);
        }
    }
    let a = match base_digits(s, i1, de, base as u64) {
        Some(a) => a,
        None => {
            proof {
                let digits = s@.subrange(i1 as int, de as int);
                let w = choose|k: int| 0 <= k < de - i1 && alnum_value(#[trigger] digits[k]) >= base as u64;
                assert(0 <= w < digits.len() && alnum_value(digits[w]) >= base);
                assert(!all_digits_below(digits, base as int));
            }
            return Ok(None);
        },
    };
    let k = crate::lobject::space_end(s, de);
    if k != s.len() {
        return Ok(None);
    }
    let u: u64 = if neg { 0u64.wrapping_sub(a) } else { a };
    Ok(Some(crate::strpack::to_signed(u)))
}

} // verus!
