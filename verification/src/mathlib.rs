use vstd::prelude::*;
use vstd::wrapping::u64_specs::wrapping_mul;

verus! {

// ─── The pseudo-random generator (xoshiro256**) ──────────────────────────────

/// The four words of the generator's state.
#[derive(Debug, PartialEq, Eq, Clone, Copy, Structural)]
pub struct RandomState {
    pub s0: u64,
    pub s1: u64,
    pub s2: u64,
    pub s3: u64,
}

/// `x` rotated left by `n` bits (`n` from 1 to 63).
pub open spec fn rotl(x: u64, n: u64) -> u64 {
    (x << n) | (x >> ((64 - n) as u64))
}

/// Rotates `x` left by `n` bits.
pub fn rotate_left(x: u64, n: u64) -> (r: u64)
    requires
        1 <= n <= 63,
    ensures
        r == rotl(x, n),
{
    (x << n) | (x >> (64 - n))
}

/// One step of xoshiro256**: the next state and the number it gives.
pub open spec fn spec_next_random(st: RandomState) -> (RandomState, u64) {
    let s2 = st.s2 ^ st.s0;
    let s3 = st.s3 ^ st.s1;
    let res = wrapping_mul(rotl(wrapping_mul(st.s1, 5), 7), 9);
    (RandomState { s0: st.s0 ^ s3, s1: st.s1 ^ s2, s2: s2 ^ (st.s1 << 17u64), s3: rotl(s3, 45) }, res)
}

/// The state after `k` steps.
pub open spec fn advance(st: RandomState, k: nat) -> RandomState
    decreases k,
{
    if k == 0 {
        st
    } else {
        advance(spec_next_random(st).0, (k - 1) as nat)
    }
}

impl RandomState {
    /// Moves the generator one step and gives the number of that step.
    pub fn next_random(&mut self) -> (r: u64)
        ensures
            (*final(self), r) == spec_next_random(*old(self)),
    {
        let state0 = self.s0;
        let state1 = self.s1;
        let state2 = self.s2 ^ state0;
        let state3 = self.s3 ^ state1;
        let res = rotate_left(state1.wrapping_mul(5), 7).wrapping_mul(9);
        self.s0 = state0 ^ state3;
        self.s1 = state1 ^ state2;
        self.s2 = state2 ^ (state1 << 17u64);
        self.s3 = rotate_left(state3, 45);
        res
    }

    /// The state for seeds `n1` and `n2`: `(n1, 0xff, n2, 0)` moved 16
    /// steps on.
    pub fn set_seed(n1: u64, n2: u64) -> (r: RandomState)
        ensures
            r == advance(RandomState { s0: n1, s1: 0xff, s2: n2, s3: 0 }, 16),
    {
        let mut st = RandomState { s0: n1, s1: 0xff, s2: n2, s3: 0 };
        let ghost start = st;
        let mut i: usize = 0;
        while i < 16
            invariant
                i <= 16,
                advance(start, 16) == advance(st, (16 - i) as nat),
            decreases 16 - i,
        {
            st.next_random();
            i = i + 1;
        }
        st
    }
}

/// `n` with every bit below its highest set bit set too.
pub open spec fn smear(n: u64) -> u64 {
    let l1 = n | (n >> 1u64);
    let l2 = l1 | (l1 >> 2u64);
    let l3 = l2 | (l2 >> 4u64);
    let l4 = l3 | (l3 >> 8u64);
    let l5 = l4 | (l4 >> 16u64);
    l5 | (l5 >> 32u64)
}

/// One try at a number from 0 to `n` from a random `ran`: when `n + 1` is a
/// power of two, `ran` masked to `n`; otherwise `ran` masked to the bits
/// of `n`, kept only when it is not above `n` (`None`: take another random
/// number).
pub open spec fn spec_project_step(ran: u64, n: u64) -> Option<u64> {
    if n & vstd::wrapping::u64_specs::wrapping_add(n, 1) == 0 {
        Some(ran & n)
    } else if ran & smear(n) <= n {
        Some(ran & smear(n))
    } else {
        None
    }
}

/// One try at projecting a random number into 0..=n.
pub fn project_step(ran: u64, n: u64) -> (r: Option<u64>)
    ensures
        r == spec_project_step(ran, n),
        r matches Some(p) ==> p <= n,
{
    if n & n.wrapping_add(1) == 0 {
        proof {
            assert(ran & n <= n) by (bit_vector);
        }
        return Some(ran & n);
    }
    let mut lim = n;
    lim = lim | (lim >> 1);
    lim = lim | (lim >> 2);
    lim = lim | (lim >> 4);
    lim = lim | (lim >> 8);
    lim = lim | (lim >> 16);
    lim = lim | (lim >> 32);
    let p = ran & lim;
    if p <= n {
        Some(p)
    } else {
        None
    }
}

// ─── math.random ─────────────────────────────────────────────────────────────

/// What `math.random` gives for its arguments.
#[derive(Debug, PartialEq, Eq, Clone, Copy, Structural)]
pub enum RandomPlan {
    /// No argument: a float in [0, 1).
    Float,
    /// `math.random(0)`: all the bits of the random number.
    Whole,
    /// An integer from `low` to `low + span`.
    Range { low: i64, span: u64 },
}

/// Why `math.random` refuses its arguments.
#[derive(Debug, PartialEq, Eq, Clone, Copy, Structural)]
pub enum RandomError {
    /// `wrong number of arguments`
    WrongArguments,
    /// `interval is empty`
    IntervalEmpty,
}

/// No argument: a float; one argument `m`: 1 to `m`, or all bits for 0;
/// two arguments: `a` to `b`; more: refused; an interval whose low end
/// is above its high end is refused.
pub open spec fn spec_random_plan(nargs: nat, a: i64, b: i64) -> Result<RandomPlan, RandomError> {
    if nargs == 0 {
        Ok(RandomPlan::Float)
    } else if nargs > 2 {
        Err(RandomError::WrongArguments)
    } else {
        let (low, high) = if nargs == 1 { (1i64, a) } else { (a, b) };
        if nargs == 1 && a == 0 {
            Ok(RandomPlan::Whole)
        } else if low > high {
            Err(RandomError::IntervalEmpty)
        } else {
            Ok(RandomPlan::Range { low, span: (high - low) as u64 })
        }
    }
}

/// Decides what `math.random` gives (see `spec_random_plan`).
pub fn random_plan(nargs: usize, a: i64, b: i64) -> (r: Result<RandomPlan, RandomError>)
    ensures
        r == spec_random_plan(nargs as nat, a, b),
{
    if nargs == 0 {
        return Ok(RandomPlan::Float);
    }
    if nargs > 2 {
        return Err(RandomError::WrongArguments);
    }
    let (low, high) = if nargs == 1 { (1i64, a) } else { (a, b) };
    if nargs == 1 && a == 0 {
        return Ok(RandomPlan::Whole);
    }
    if low > high {
        return Err(RandomError::IntervalEmpty);
    }
    let span = (high as i128 - low as i128) as u64;
    Ok(RandomPlan::Range { low, span })
}

/// The integer `math.random` returns for the projected number `p`: `low`
/// plus `p`.
pub fn random_result(p: u64, low: i64) -> (r: i64)
    requires
        p as int + low as int <= i64::MAX,
    ensures
        r as int == low as int + p as int,
{
    (low as i128 + p as i128) as i64
}

// ─── Integer arithmetic of the math library ──────────────────────────────────

/// `math.abs` on an integer: its opposite when negative (the smallest
/// integer stays as it is).
pub open spec fn spec_int_abs(n: i64) -> int {
    if n >= 0 {
        n as int
    } else if n == i64::MIN {
        n as int
    } else {
        -n
    }
}

pub fn int_abs(n: i64) -> (r: i64)
    ensures
        r as int == spec_int_abs(n),
{
    if n >= 0 || n == i64::MIN {
        n
    } else {
        -n
    }
}

/// `math.ult`: whether `a` is below `b` as unsigned integers.
pub fn ult(a: i64, b: i64) -> (r: bool)
    ensures
        r == (crate::strpack::twos(a) < crate::strpack::twos(b)),
{
    crate::strpack::to_unsigned(a) < crate::strpack::to_unsigned(b)
}

/// Why `math.fmod` refuses its integer arguments.
#[derive(Debug, PartialEq, Eq, Clone, Copy, Structural)]
pub enum FmodError {
    /// `zero`: the divisor is 0.
    Zero,
}

/// `math.fmod` on integers: the remainder of the division truncated
/// towards zero (it has the sign of `a`); 0 for a divisor of -1; refused
/// for 0.
pub open spec fn spec_int_fmod(a: i64, d: i64) -> Result<int, FmodError> {
    if d == 0 {
        Err(FmodError::Zero)
    } else if d == -1 {
        Ok(0)
    } else {
        let ma: nat = if a < 0 { (-a) as nat } else { a as nat };
        let md: nat = if d < 0 { (-d) as nat } else { d as nat };
        Ok(if a < 0 { -((ma % md) as int) } else { (ma % md) as int })
    }
}

fn magnitude(a: i64) -> (r: u64)
    ensures
        r as int == (if a < 0 { -a } else { a as int }),
{
    if a >= 0 {
        a as u64
    } else if a == i64::MIN {
        0x8000000000000000u64
    } else {
        (-a) as u64
    }
}

pub fn int_fmod(a: i64, d: i64) -> (r: Result<i64, FmodError>)
    ensures
        match spec_int_fmod(a, d) {
            Ok(v) => r == Ok::<i64, FmodError>(v as i64),
            Err(e) => r == Err::<i64, FmodError>(e),
        },
{
    if d == 0 {
        return Err(FmodError::Zero);
    }
    if d == -1 {
        return Ok(0);
    }
    let ma = magnitude(a);
    let md = magnitude(d);
    let m = ma % md;
    proof {
        assert(m < md);
        assert(md <= 0x8000000000000000u64);
    }
    if a < 0 {
        Ok(-(m as i64))
    } else {
        Ok(m as i64)
    }
}


/// `math.random(m, n)` stays in `[m, n]` (and `math.random(n)` in
/// `[1, n]`): whatever number the projection picks up to the span of the
/// plan, the integer returned lies in the interval.
pub proof fn lemma_random_in_interval(nargs: nat, a: i64, b: i64, low: i64, span: u64, p: u64)
    requires
        spec_random_plan(nargs, a, b) == Ok::<RandomPlan, RandomError>(RandomPlan::Range { low, span }),
        p <= span,
    ensures
        nargs == 1 ==> low == 1 && 1 <= low + p <= a,
        nargs == 2 ==> low == a && a <= low + p <= b,
{
}

} // verus!
