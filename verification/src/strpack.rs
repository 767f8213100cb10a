use vstd::prelude::*;
use vstd::arithmetic::div_mod::lemma_div_denominator;
use vstd::arithmetic::div_mod::lemma_mod_breakdown;

verus! {

// ─── Integers as bytes ───────────────────────────────────────────────────────

/// 256 to the power `i`.
pub open spec fn pow256(i: nat) -> nat
    decreases i,
{
    if i == 0 {
        1
    } else {
        256 * pow256((i - 1) as nat)
    }
}

pub proof fn lemma_pow256_positive(i: nat)
    ensures
        pow256(i) > 0,
    decreases i,
{
    if i > 0 {
        lemma_pow256_positive((i - 1) as nat);
    }
}

pub proof fn lemma_pow256_values()
    ensures
        pow256(1) == 0x100,
        pow256(2) == 0x10000,
        pow256(3) == 0x1000000,
        pow256(4) == 0x100000000,
        pow256(5) == 0x10000000000,
        pow256(6) == 0x1000000000000,
        pow256(7) == 0x100000000000000,
        pow256(8) == 0x10000000000000000,
{
    reveal_with_fuel(pow256, 9);
}

/// The position in a packed integer of its byte of significance `i`
/// (and the reverse): little-endian keeps the order, big-endian reverses it.
pub open spec fn byte_pos(little: bool, size: int, i: int) -> int {
    if little {
        i
    } else {
        size - 1 - i
    }
}

/// The byte of significance `i` of a packed integer: the bytes of `n` up to
/// the eighth, then 0xff for a negative number and 0 for another.
pub open spec fn sig_byte(n: u64, negative: bool, i: int) -> u8 {
    if 0 <= i < 8 {
        ((n as nat / pow256(i as nat)) % 256) as u8
    } else if negative {
        255u8
    } else {
        0u8
    }
}

/// The `size` bytes that pack `n`.
pub open spec fn spec_packint(n: u64, little: bool, size: int, negative: bool) -> Seq<u8> {
    Seq::new(size as nat, |p: int| sig_byte(n, negative, byte_pos(little, size, p)))
}

/// The value of bytes given least significant first.
pub open spec fn value_le(bs: Seq<u8>) -> nat
    decreases bs.len(),
{
    if bs.len() == 0 {
        0
    } else {
        (bs[0] + 256 * value_le(bs.drop_first())) as nat
    }
}

/// The bytes of a packed integer, least significant first.
pub open spec fn sig_seq(data: Seq<u8>, little: bool, size: int) -> Seq<u8> {
    Seq::new(size as nat, |i: int| data[byte_pos(little, size, i)])
}

/// A value below 2^64 read as a two's complement 64-bit integer.
pub open spec fn as_i64(u: nat) -> int {
    if u >= 0x8000000000000000 {
        u - 0x10000000000000000
    } else {
        u as int
    }
}

/// The integer in the first `size` bytes of `data`: its low eight bytes
/// give the value (sign-extended from `size` bytes when `signed` and
/// `size` is below 8); bytes beyond the eighth must all be 0xff for a
/// signed negative value and 0 otherwise, else the integer does not fit
/// (`None`).
pub open spec fn spec_unpackint(data: Seq<u8>, little: bool, size: int, signed: bool) -> Option<int> {
    let limit = if size <= 8 {
        size
    } else {
        8
    };
    let s = sig_seq(data, little, size);
    let res = value_le(s.take(limit));
    if size < 8 {
        if signed && res >= pow256(size as nat) / 2 {
            Some(res - pow256(size as nat))
        } else {
            Some(res as int)
        }
    } else if size == 8 {
        Some(as_i64(res))
    } else {
        let mask: u8 = if signed && as_i64(res) < 0 {
            255u8
        } else {
            0u8
        };
        if forall|i: int| 8 <= i < size ==> #[trigger] s[i] == mask {
            Some(as_i64(res))
        } else {
            None
        }
    }
}

pub proof fn lemma_value_le_bound(bs: Seq<u8>)
    ensures
        value_le(bs) < pow256(bs.len()),
    decreases bs.len(),
{
    if bs.len() > 0 {
        lemma_value_le_bound(bs.drop_first());
    }
}

/// The first `k` bytes of `n`, least significant first.
pub open spec fn low_bytes(n: nat, k: nat) -> Seq<u8> {
    Seq::new(k, |i: int| ((n / pow256(i as nat)) % 256) as u8)
}

pub proof fn lemma_low_bytes_value(n: nat, k: nat)
    ensures
        value_le(low_bytes(n, k)) == n % pow256(k),
    decreases k,
{
    lemma_pow256_positive(k);
    if k == 0 {
    } else {
        let bs = low_bytes(n, k);
        let q = n / 256;
        lemma_low_bytes_value(q, (k - 1) as nat);
        assert forall|i: int| 0 <= i < k - 1 implies #[trigger] bs.drop_first()[i] == low_bytes(q, (k - 1) as nat)[i] by {
            lemma_pow256_positive(i as nat);
            lemma_div_denominator(n as int, 256, pow256(i as nat) as int);
        }
        assert(bs.drop_first() =~= low_bytes(q, (k - 1) as nat));
        lemma_pow256_positive((k - 1) as nat);
        lemma_mod_breakdown(n as int, 256, pow256((k - 1) as nat) as int);
        assert(pow256(0) == 1);
        assert(n / pow256(0) == n / 1);
        assert(n / 1 == n);
        assert(0 <= n % 256 < 256);
        assert(bs[0] == ((n / pow256(0)) % 256) as u8);
        assert(bs[0] == n % 256);
        assert(pow256(k) == 256 * pow256((k - 1) as nat));
        assert(value_le(bs) == bs[0] + 256 * value_le(bs.drop_first()));
    }
}

/// Appends the `size` bytes that pack `n`, least significant first when
/// `little`; bytes beyond the eighth are 0xff when `negative`.
pub fn packint(out: &mut Vec<u8>, n: u64, little: bool, size: usize, negative: bool)
    requires
        1 <= size <= 16,
    ensures
        final(out)@ == old(out)@ + spec_packint(n, little, size as int, negative),
{
    let mut bytes: Vec<u8> = Vec::new();
    let mut m: u64 = n;
    let mut i: usize = 0;
    proof {
        assert(pow256(0) == 1);
    }
    // bytes collected least significant first
    while i < size
        invariant
            1 <= size <= 16,
            i <= size,
            bytes@.len() == i,
            i < 8 ==> m as nat == n as nat / pow256(i as nat),
            forall|j: int| 0 <= j < i ==> #[trigger] bytes@[j] == sig_byte(n, negative, j),
        decreases size - i,
    {
        let b: u8 = if i < 8 {
            (m % 256) as u8
        } else if negative {
            255u8
        } else {
            0u8
        };
        bytes.push(b);
        proof {
            if i < 8 {
                lemma_pow256_positive(i as nat);
                lemma_div_denominator(n as int, pow256(i as nat) as int, 256);
                assert(pow256((i + 1) as nat) == pow256(i as nat) * 256);
            }
        }
        m = m / 256;
        i = i + 1;
    }
    let mut p: usize = 0;
    let ghost start = out@;
    while p < size
        invariant
            1 <= size <= 16,
            p <= size,
            bytes@.len() == size,
            forall|j: int| 0 <= j < size ==> #[trigger] bytes@[j] == sig_byte(n, negative, j),
            out@ == start + spec_packint(n, little, size as int, negative).take(p as int),
        decreases size - p,
    {
        let idx: usize = if little {
            p
        } else {
            size - 1 - p
        };
        out.push(bytes[idx]);
        proof {
            assert(spec_packint(n, little, size as int, negative).take(p + 1) =~= spec_packint(
                n,
                little,
                size as int,
                negative,
            ).take(p as int).push(bytes@[idx as int]));
        }
        p = p + 1;
    }
    proof {
        assert(spec_packint(n, little, size as int, negative).take(size as int) =~= spec_packint(
            n,
            little,
            size as int,
            negative,
        ));
    }
}


pub proof fn lemma_pow256_add(a: nat, b: nat)
    ensures
        pow256(a + b) == pow256(a) * pow256(b),
    decreases a,
{
    if a > 0 {
        lemma_pow256_add((a - 1) as nat, b);
        assert(pow256(a + b) == 256 * pow256((a - 1 + b) as nat));
        assert(pow256(a) == 256 * pow256((a - 1) as nat));
        assert((a - 1 + b) as nat == (a - 1) as nat + b);
        vstd::arithmetic::mul::lemma_mul_is_associative(256, pow256((a - 1) as nat) as int, pow256(b) as int);
    } else {
        assert(a + b == b);
        assert(pow256(a) == 1);
    }
}

pub proof fn lemma_pow256_mono(a: nat, b: nat)
    requires
        a <= b,
    ensures
        pow256(a) <= pow256(b),
{
    lemma_pow256_add(a, (b - a) as nat);
    lemma_pow256_positive(a);
    lemma_pow256_positive((b - a) as nat);
    vstd::arithmetic::mul::lemma_mul_increases(pow256((b - a) as nat) as int, pow256(a) as int);
}

/// The two's complement bits of `n`, read as an unsigned number.
pub open spec fn twos(n: i64) -> nat {
    if n < 0 {
        (n + 0x10000000000000000) as nat
    } else {
        n as nat
    }
}

/// `n` as an unsigned 64-bit number, bit for bit.
pub fn to_unsigned(n: i64) -> (r: u64)
    ensures
        r as nat == twos(n),
{
    if n < 0 {
        u64::MAX - ((-(n + 1)) as u64)
    } else {
        n as u64
    }
}

/// `u` as a signed 64-bit number, bit for bit.
pub fn to_signed(u: u64) -> (r: i64)
    ensures
        r as int == as_i64(u as nat),
{
    if u >= 0x8000000000000000u64 {
        -((u64::MAX - u) as i64) - 1
    } else {
        u as i64
    }
}

/// Reads an integer of `size` bytes (least significant first when
/// `little`); `None` when it does not fit in a Lua integer.
pub fn unpackint(data: &[u8], little: bool, size: usize, signed: bool) -> (r: Option<i64>)
    requires
        1 <= size <= 16,
        size <= data@.len(),
    ensures
        match r {
            Some(v) => spec_unpackint(data@, little, size as int, signed) == Some(v as int),
            None => spec_unpackint(data@, little, size as int, signed) is None,
        },
{
    let limit: usize = if size <= 8 {
        size
    } else {
        8
    };
    let ghost s = sig_seq(data@, little, size as int);
    let mut res: u64 = 0;
    let mut i: usize = limit;
    proof {
        assert(s.subrange(limit as int, limit as int) =~= Seq::<u8>::empty());
    }
    while i > 0
        invariant
            1 <= size <= 16,
            size <= data@.len(),
            limit <= 8,
            limit <= size,
            i <= limit,
            s == sig_seq(data@, little, size as int),
            res as nat == value_le(s.subrange(i as int, limit as int)),
        decreases i,
    {
        i = i - 1;
        let idx: usize = if little {
            i
        } else {
            size - 1 - i
        };
        proof {
            let x = s.subrange(i as int, limit as int);
            assert(x.drop_first() =~= s.subrange(i + 1, limit as int));
            lemma_value_le_bound(s.subrange(i + 1, limit as int));
            lemma_pow256_mono((limit - i - 1) as nat, 7);
            lemma_pow256_values();
        }
        res = res * 256 + data[idx] as u64;
    }
    proof {
        assert(s.subrange(0, limit as int) =~= s.take(limit as int));
    }
    if size < 8 {
        let mut full: u64 = 1;
        let mut j: usize = 0;
        proof {
            assert(pow256(0) == 1);
        }
        while j < size
            invariant
                size < 8,
                j <= size,
                full as nat == pow256(j as nat),
            decreases size - j,
        {
            proof {
                lemma_pow256_mono(j as nat, 6);
                lemma_pow256_values();
                assert(pow256((j + 1) as nat) == 256 * pow256(j as nat));
            }
            full = full * 256;
            j = j + 1;
        }
        proof {
            lemma_value_le_bound(s.take(limit as int));
            lemma_pow256_mono(size as nat, 7);
            lemma_pow256_values();
        }
        if signed && res >= full / 2 {
            Some(res as i64 - full as i64)
        } else {
            Some(res as i64)
        }
    } else if size == 8 {
        Some(to_signed(res))
    } else {
        let v = to_signed(res);
        let mask: u8 = if signed && v < 0 {
            255u8
        } else {
            0u8
        };
        let mut k: usize = 8;
        while k < size
            invariant
                8 <= k <= size,
                size <= 16,
                size <= data@.len(),
                s == sig_seq(data@, little, size as int),
                res as nat == value_le(s.take(8)),
                mask == (if signed && as_i64(value_le(s.take(8))) < 0 {
                    255u8
                } else {
                    0u8
                }),
                forall|ii: int| 8 <= ii < k ==> #[trigger] s[ii] == mask,
            decreases size - k,
        {
            let idx: usize = if little {
                k
            } else {
                size - 1 - k
            };
            if data[idx] != mask {
                proof {
                    assert(s[k as int] != mask);
                }
                return None;
            }
            k = k + 1;
        }
        Some(v)
    }
}

pub proof fn lemma_packed_sig(n: u64, little: bool, size: int, negative: bool)
    requires
        1 <= size <= 16,
    ensures
        sig_seq(spec_packint(n, little, size, negative), little, size) == Seq::new(
            size as nat,
            |i: int| sig_byte(n, negative, i),
        ),
        sig_seq(spec_packint(n, little, size, negative), little, size).take(
            if size <= 8 {
                size
            } else {
                8
            },
        ) == low_bytes(
            n as nat,
            (if size <= 8 {
                size
            } else {
                8
            }) as nat,
        ),
{
    let s = sig_seq(spec_packint(n, little, size, negative), little, size);
    assert(s =~= Seq::new(size as nat, |i: int| sig_byte(n, negative, i)));
    let limit = if size <= 8 {
        size
    } else {
        8
    };
    assert(s.take(limit) =~= low_bytes(n as nat, limit as nat));
}

/// Unpacking a signed integer packed in `size` bytes gives it back, for
/// every integer that packing accepts at that size.
pub proof fn lemma_unpack_pack_signed(n: i64, little: bool, size: int)
    requires
        1 <= size <= 16,
        size < 8 ==> -(pow256(size as nat) / 2) <= n < pow256(size as nat) / 2,
    ensures
        spec_unpackint(spec_packint(twos(n) as u64, little, size, n < 0), little, size, true) == Some(
            n as int,
        ),
{
    let big = twos(n) as u64;
    lemma_packed_sig(big, little, size, n < 0);
    let limit = if size <= 8 {
        size
    } else {
        8
    };
    lemma_low_bytes_value(big as nat, limit as nat);
    lemma_pow256_values();
    lemma_pow256_positive(size as nat);
    if size < 8 {
        let p = pow256(size as nat);
        lemma_pow256_add(size as nat, (8 - size) as nat);
        lemma_pow256_positive((8 - size) as nat);
        let kk = pow256((8 - size) as nat);
        assert(p * kk == 0x10000000000000000);
        lemma_pow256_mono(size as nat, 7);
        if n >= 0 {
            vstd::arithmetic::div_mod::lemma_small_mod(n as nat, p);
        } else {
            let r = n + p;
            assert(0 <= r < p);
            assert(big as int == r + p * (kk - 1)) by (nonlinear_arith)
                requires
                    big as int == n + 0x10000000000000000,
                    r == n + p,
                    p * kk == 0x10000000000000000,
            ;
            vstd::arithmetic::div_mod::lemma_mod_multiples_vanish(kk - 1, r, p as int);
            vstd::arithmetic::div_mod::lemma_small_mod(r as nat, p);
            assert((p * (kk - 1) + r) % (p as int) == r);
        }
    } else {
        let s = sig_seq(spec_packint(big, little, size, n < 0), little, size);
        assert(big as nat % pow256(8) == big as nat) by {
            vstd::arithmetic::div_mod::lemma_small_mod(big as nat, pow256(8));
        }
        if size > 8 {
            assert forall|i: int| 8 <= i < size implies #[trigger] s[i] == (if as_i64(big as nat) < 0 {
                255u8
            } else {
                0u8
            }) by {}
        }
    }
}

/// Unpacking an unsigned integer packed in `size` bytes gives back its
/// bits, for every value that packing accepts at that size.
pub proof fn lemma_unpack_pack_unsigned(n: u64, little: bool, size: int)
    requires
        1 <= size <= 16,
        size < 8 ==> n < pow256(size as nat),
    ensures
        spec_unpackint(spec_packint(n, little, size, false), little, size, false) == Some(
            as_i64(n as nat),
        ),
{
    lemma_packed_sig(n, little, size, false);
    let limit = if size <= 8 {
        size
    } else {
        8
    };
    lemma_low_bytes_value(n as nat, limit as nat);
    lemma_pow256_values();
    if size < 8 {
        vstd::arithmetic::div_mod::lemma_small_mod(n as nat, pow256(size as nat));
        lemma_pow256_mono(size as nat, 7);
    } else {
        vstd::arithmetic::div_mod::lemma_small_mod(n as nat, pow256(8));
    }
}


// ─── Items of `string.pack` and `string.unpack` ─────────────────────────────

/// The kind of an item of a pack format.
#[derive(Debug, PartialEq, Eq, Clone, Copy, Structural)]
pub enum K {
    /// A signed integer.
    Int,
    /// An unsigned integer.
    Uint,
    /// A `float`, as native bytes.
    Float,
    /// A Lua float, as native bytes.
    Number,
    /// A `double`, as native bytes.
    Double,
    /// A string of fixed size.
    Char,
    /// A string after its length.
    String,
    /// A zero-terminated string.
    Zstr,
    /// One byte of padding.
    Padding,
    /// Alignment only.
    Paddalign,
    /// Nothing.
    Nop,
}

/// The argument that a pack item writes: an integer, or bytes (a string's,
/// or the native bytes of a float).
#[derive(Debug)]
pub enum PackArg {
    Integer(i64),
    Bytes(Vec<u8>),
}

/// Why `string.pack` refuses an argument.
#[derive(Debug, PartialEq, Eq, Clone, Copy, Structural)]
pub enum PackError {
    IntegerOverflow,
    UnsignedOverflow,
    StringTooLong,
    LengthDoesNotFit,
    ContainsZeros,
}

/// Item kinds whose size the format fixes, with the sizes they take.
pub open spec fn item_ok(kind: K, size: int) -> bool {
    match kind {
        K::Int | K::Uint | K::String => 1 <= size <= 16,
        K::Float => size == 4,
        K::Number | K::Double => size == 8,
        K::Char => size >= 0,
        K::Padding => size == 1,
        K::Zstr | K::Paddalign | K::Nop => size == 0,
    }
}

/// Whether an item takes an argument.
pub open spec fn takes_arg(kind: K) -> bool {
    !(kind == K::Padding || kind == K::Paddalign || kind == K::Nop)
}

/// The argument fits the item: an integer for an integer item, bytes for
/// the others (as many as the size for a float).
pub open spec fn arg_ok(kind: K, size: int, arg: PackArg) -> bool {
    match kind {
        K::Int | K::Uint => arg is Integer,
        K::Float | K::Number | K::Double => arg matches PackArg::Bytes(b) && b@.len() == size,
        _ => arg is Bytes,
    }
}

/// Native float bytes in the order asked for: kept when it is the
/// machine's own, reversed otherwise.
pub open spec fn spec_with_endian(b: Seq<u8>, little: bool, native_little: bool) -> Seq<u8> {
    if little == native_little {
        b
    } else {
        b.reverse()
    }
}

/// `n` zero bytes.
pub open spec fn zeros(n: nat) -> Seq<u8> {
    Seq::new(n, |i: int| 0u8)
}

/// What one item adds to a packed string, and by how much it moves the
/// running size: `ntoalign` zero bytes first, then the item.
pub open spec fn spec_pack_item(
    kind: K,
    size: int,
    ntoalign: nat,
    arg: PackArg,
    little: bool,
    native_little: bool,
) -> Result<(Seq<u8>, nat), PackError> {
    let pad = zeros(ntoalign);
    let base = (ntoalign + size) as nat;
    match kind {
        K::Int => {
            let n = arg->Integer_0;
            if size < 8 && !(-(pow256(size as nat) / 2) <= n < pow256(size as nat) / 2) {
                Err(PackError::IntegerOverflow)
            } else {
                Ok((pad + spec_packint(twos(n) as u64, little, size, n < 0), base))
            }
        },
        K::Uint => {
            let n = arg->Integer_0;
            if size < 8 && !(twos(n) < pow256(size as nat)) {
                Err(PackError::UnsignedOverflow)
            } else {
                Ok((pad + spec_packint(twos(n) as u64, little, size, false), base))
            }
        },
        K::Float | K::Number | K::Double => Ok(
            (pad + spec_with_endian(arg->Bytes_0@, little, native_little), base),
        ),
        K::Char => {
            let s = arg->Bytes_0@;
            if s.len() > size {
                Err(PackError::StringTooLong)
            } else {
                Ok((pad + s + zeros((size - s.len()) as nat), base))
            }
        },
        K::String => {
            let s = arg->Bytes_0@;
            if size < 8 && s.len() >= pow256(size as nat) {
                Err(PackError::LengthDoesNotFit)
            } else {
                Ok((pad + spec_packint(s.len() as u64, little, size, false) + s, base + s.len()))
            }
        },
        K::Zstr => {
            let s = arg->Bytes_0@;
            if s.contains(0u8) {
                Err(PackError::ContainsZeros)
            } else {
                Ok((pad + s + seq![0u8], base + s.len() + 1))
            }
        },
        K::Padding => Ok((pad + seq![0u8], base)),
        K::Paddalign | K::Nop => Ok((pad, base)),
    }
}

/// Copies native float bytes in the order asked for.
pub fn copywithendian(src: &[u8], little: bool, native_little: bool) -> (r: Vec<u8>)
    ensures
        r@ == spec_with_endian(src@, little, native_little),
{
    if little == native_little {
        vstd::slice::slice_to_vec(src)
    } else {
        let mut r: Vec<u8> = Vec::new();
        let mut i: usize = src.len();
        while i > 0
            invariant
                i <= src@.len(),
                r@ =~= src@.subrange(i as int, src@.len() as int).reverse(),
            decreases i,
        {
            i = i - 1;
            r.push(src[i]);
        }
        proof {
            assert(src@.subrange(0, src@.len() as int) =~= src@);
        }
        r
    }
}

fn push_zeros(out: &mut Vec<u8>, n: usize)
    ensures
        final(out)@ == old(out)@ + zeros(n as nat),
{
    let mut i: usize = 0;
    while i < n
        invariant
            i <= n,
            out@ =~= old(out)@ + zeros(i as nat),
        decreases n - i,
    {
        out.push(0u8);
        i = i + 1;
    }
}

fn pow256_exec(size: usize) -> (r: u64)
    requires
        size < 8,
    ensures
        r as nat == pow256(size as nat),
{
    let mut full: u64 = 1;
    let mut j: usize = 0;
    proof {
        assert(pow256(0) == 1);
    }
    while j < size
        invariant
            size < 8,
            j <= size,
            full as nat == pow256(j as nat),
        decreases size - j,
    {
        proof {
            lemma_pow256_mono(j as nat, 6);
            lemma_pow256_values();
            assert(pow256((j + 1) as nat) == 256 * pow256(j as nat));
        }
        full = full * 256;
        j = j + 1;
    }
    full
}

/// Appends one item of `string.pack`: `ntoalign` zero bytes, then the item
/// written from `arg`; gives how much the running size grows, or why the
/// argument is refused.
pub fn pack_item(
    out: &mut Vec<u8>,
    kind: K,
    size: usize,
    ntoalign: usize,
    arg: &PackArg,
    little: bool,
    native_little: bool,
) -> (r: Result<usize, PackError>)
    requires
        item_ok(kind, size as int),
        takes_arg(kind) ==> arg_ok(kind, size as int, *arg),
        ntoalign + size + (match arg {
            PackArg::Bytes(b) => b@.len(),
            PackArg::Integer(_) => 0,
        }) + 1 <= usize::MAX,
    ensures
        match spec_pack_item(kind, size as int, ntoalign as nat, *arg, little, native_little) {
            Ok((bytes, grow)) => r == Ok::<usize, PackError>(grow as usize) && final(out)@ == old(out)@ + bytes,
            Err(e) => r == Err::<usize, PackError>(e),
        },
{
    push_zeros(out, ntoalign);
    let base: usize = ntoalign + size;
    match kind {
        K::Int => {
            let n = match arg {
                PackArg::Integer(n) => *n,
                PackArg::Bytes(_) => 0,
            };
            if size < 8 {
                let full = pow256_exec(size);
                proof {
                    lemma_pow256_mono(size as nat, 7);
                    lemma_pow256_values();
                }
                let lim: i64 = (full / 2) as i64;
                if !(-lim <= n && n < lim) {
                    return Err(PackError::IntegerOverflow);
                }
            }
            packint(out, to_unsigned(n), little, size, n < 0);
            Ok(base)
        },
        K::Uint => {
            let n = match arg {
                PackArg::Integer(n) => *n,
                PackArg::Bytes(_) => 0,
            };
            let u = to_unsigned(n);
            if size < 8 {
                let full = pow256_exec(size);
                if !(u < full) {
                    return Err(PackError::UnsignedOverflow);
                }
            }
            packint(out, u, little, size, false);
            Ok(base)
        },
        K::Float | K::Number | K::Double => {
            match arg {
                PackArg::Bytes(b) => {
                    let c = copywithendian(b.as_slice(), little, native_little);
                    crate::toml_writer::append(out, c.as_slice());
                },
                PackArg::Integer(_) => {},
            }
            Ok(base)
        },
        K::Char => {
            match arg {
                PackArg::Bytes(s) => {
                    if s.len() > size {
                        return Err(PackError::StringTooLong);
                    }
                    crate::toml_writer::append(out, s.as_slice());
                    push_zeros(out, size - s.len());
                    proof {
                        assert(final(out)@ =~= old(out)@ + (zeros(ntoalign as nat) + s@ + zeros((size - s@.len()) as nat)));
                    }
                },
                PackArg::Integer(_) => {},
            }
            Ok(base)
        },
        K::String => {
            match arg {
                PackArg::Bytes(s) => {
                    if size < 8 {
                        let full = pow256_exec(size);
                        if !((s.len() as u64) < full) {
                            return Err(PackError::LengthDoesNotFit);
                        }
                    }
                    packint(out, s.len() as u64, little, size, false);
                    crate::toml_writer::append(out, s.as_slice());
                    proof {
                        assert(final(out)@ =~= old(out)@ + (zeros(ntoalign as nat) + spec_packint(s@.len() as u64, little, size as int, false) + s@));
                    }
                    Ok(base + s.len())
                },
                PackArg::Integer(_) => Ok(base),
            }
        },
        K::Zstr => {
            match arg {
                PackArg::Bytes(s) => {
                    let mut i: usize = 0;
                    while i < s.len()
                        invariant
                            i <= s@.len(),
                            kind == K::Zstr,
                            *arg == PackArg::Bytes(*s),
                            forall|j: int| 0 <= j < i ==> s@[j] != 0u8,
                        decreases s@.len() - i,
                    {
                        if s[i] == 0u8 {
                            proof {
                                assert(s@.contains(0u8));
                            }
                            return Err(PackError::ContainsZeros);
                        }
                        i = i + 1;
                    }
                    crate::toml_writer::append(out, s.as_slice());
                    out.push(0u8);
                    proof {
                        assert(final(out)@ =~= old(out)@ + (zeros(ntoalign as nat) + s@ + seq![0u8]));
                    }
                    Ok(base + s.len() + 1)
                },
                PackArg::Integer(_) => Ok(base),
            }
        },
        K::Padding => {
            out.push(0u8);
            proof {
                assert(final(out)@ =~= old(out)@ + (zeros(ntoalign as nat) + seq![0u8]));
            }
            Ok(base)
        },
        K::Paddalign | K::Nop => Ok(base),
    }
}


/// A value that `string.unpack` reads.
#[derive(Debug)]
pub enum Unpacked {
    Integer(i64),
    /// A string's bytes, or the native bytes of a float.
    Bytes(Vec<u8>),
}

/// The model of an `Unpacked`.
pub enum UnpackedData {
    Integer(int),
    Bytes(Seq<u8>),
}

pub open spec fn unpacked_view(o: Option<Unpacked>) -> Option<UnpackedData> {
    match o {
        Some(Unpacked::Integer(i)) => Some(UnpackedData::Integer(i as int)),
        Some(Unpacked::Bytes(b)) => Some(UnpackedData::Bytes(b@)),
        None => None,
    }
}

/// Why `string.unpack` stops.
#[derive(Debug, PartialEq, Eq, Clone, Copy, Structural)]
pub enum UnpackError {
    /// The data ends before the item does.
    DataTooShort,
    /// An integer of this many bytes does not fit in a Lua integer.
    DoesNotFit(usize),
    /// A zero-terminated string has no terminating zero.
    UnfinishedString,
}

/// The length of `s` up to its first zero byte.
pub open spec fn zero_index(s: Seq<u8>, i: int) -> int
    decreases s.len() - i,
{
    if i < 0 || i >= s.len() {
        s.len() as int
    } else if s[i] == 0u8 {
        i
    } else {
        zero_index(s, i + 1)
    }
}

/// What one item of `string.unpack` reads from `data` at `position`, and
/// where reading goes on: alignment is skipped first; padding items read
/// no value.
pub open spec fn spec_unpack_item(
    data: Seq<u8>,
    position: int,
    kind: K,
    size: int,
    ntoalign: int,
    little: bool,
    native_little: bool,
) -> Result<(Option<UnpackedData>, int), UnpackError> {
    if ntoalign + size > data.len() - position {
        Err(UnpackError::DataTooShort)
    } else {
        let p = position + ntoalign;
        let rest = data.skip(p);
        match kind {
            K::Int | K::Uint => match spec_unpackint(rest, little, size, kind == K::Int) {
                None => Err(UnpackError::DoesNotFit(size as usize)),
                Some(v) => Ok((Some(UnpackedData::Integer(v)), p + size)),
            },
            K::Float | K::Number | K::Double => Ok(
                (Some(UnpackedData::Bytes(spec_with_endian(rest.take(size), little, native_little))), p + size),
            ),
            K::Char => Ok((Some(UnpackedData::Bytes(rest.take(size))), p + size)),
            K::String => match spec_unpackint(rest, little, size, false) {
                None => Err(UnpackError::DoesNotFit(size as usize)),
                Some(v) => {
                    let len = twos(v as i64) as int;
                    if len > data.len() - p - size {
                        Err(UnpackError::DataTooShort)
                    } else {
                        Ok((Some(UnpackedData::Bytes(rest.subrange(size, size + len))), p + size + len))
                    }
                },
            },
            K::Zstr => {
                let len = zero_index(rest, 0);
                if p + len >= data.len() {
                    Err(UnpackError::UnfinishedString)
                } else {
                    Ok((Some(UnpackedData::Bytes(rest.take(len))), p + len + 1 + size))
                }
            },
            K::Padding | K::Paddalign | K::Nop => Ok((None, p + size)),
        }
    }
}

/// Reads one item of `string.unpack` from `data` at `position`.
pub fn unpack_item(
    data: &[u8],
    position: usize,
    kind: K,
    size: usize,
    ntoalign: usize,
    little: bool,
    native_little: bool,
) -> (r: Result<(Option<Unpacked>, usize), UnpackError>)
    requires
        position <= data@.len(),
        item_ok(kind, size as int),
        ntoalign + size <= usize::MAX,
    ensures
        match spec_unpack_item(data@, position as int, kind, size as int, ntoalign as int, little, native_little) {
            Ok((v, p)) => r matches Ok((u, q)) && unpacked_view(u) == v && q as int == p,
            Err(e) => r == Err::<(Option<Unpacked>, usize), UnpackError>(e),
        },
{
    let ld = data.len();
    if ntoalign + size > ld - position {
        return Err(UnpackError::DataTooShort);
    }
    let p = position + ntoalign;
    let rest = &data[p..ld];
    proof {
        assert(rest@ =~= data@.skip(p as int));
    }
    match kind {
        K::Int | K::Uint => {
            match unpackint(rest, little, size, kind == K::Int) {
                None => Err(UnpackError::DoesNotFit(size)),
                Some(v) => Ok((Some(Unpacked::Integer(v)), p + size)),
            }
        },
        K::Float | K::Number | K::Double => {
            let b = copywithendian(&rest[0..size], little, native_little);
            proof {
                assert(rest@.subrange(0, size as int) =~= rest@.take(size as int));
            }
            Ok((Some(Unpacked::Bytes(b)), p + size))
        },
        K::Char => {
            let b = vstd::slice::slice_to_vec(&rest[0..size]);
            proof {
                assert(rest@.subrange(0, size as int) =~= rest@.take(size as int));
            }
            Ok((Some(Unpacked::Bytes(b)), p + size))
        },
        K::String => {
            match unpackint(rest, little, size, false) {
                None => Err(UnpackError::DoesNotFit(size)),
                Some(v) => {
                    let len_u = to_unsigned(v);
                    if len_u > (ld - p - size) as u64 {
                        return Err(UnpackError::DataTooShort);
                    }
                    let len = len_u as usize;
                    let b = vstd::slice::slice_to_vec(&rest[size..size + len]);
                    Ok((Some(Unpacked::Bytes(b)), p + size + len))
                },
            }
        },
        K::Zstr => {
            let mut len: usize = 0;
            while len < rest.len() && rest[len] != 0u8
                invariant
                    len <= rest@.len(),
                    zero_index(rest@, 0) == zero_index(rest@, len as int),
                decreases rest@.len() - len,
            {
                len = len + 1;
            }
            if p + len >= ld {
                return Err(UnpackError::UnfinishedString);
            }
            let b = vstd::slice::slice_to_vec(&rest[0..len]);
            proof {
                assert(rest@.subrange(0, len as int) =~= rest@.take(len as int));
            }
            Ok((Some(Unpacked::Bytes(b)), p + len + 1 + size))
        },
        K::Padding | K::Paddalign | K::Nop => Ok((None, p + size)),
    }
}


proof fn lemma_unpackint_prefix(data: Seq<u8>, packed: Seq<u8>, little: bool, size: int, signed: bool)
    requires
        1 <= size <= 16,
        packed.len() == size,
        size <= data.len(),
        data.take(size) == packed,
    ensures
        spec_unpackint(data, little, size, signed) == spec_unpackint(packed, little, size, signed),
{
    assert forall|i: int| 0 <= i < size implies data[byte_pos(little, size, i)] == packed[byte_pos(
        little,
        size,
        i,
    )] by {
        assert(data.take(size)[byte_pos(little, size, i)] == data[byte_pos(little, size, i)]);
    }
    assert(sig_seq(data, little, size) =~= sig_seq(packed, little, size));
}

/// What `string.unpack` reads back of an argument packed by `string.pack`.
pub open spec fn read_back(kind: K, size: int, arg: PackArg) -> Option<UnpackedData> {
    match kind {
        K::Int | K::Uint => Some(UnpackedData::Integer(arg->Integer_0 as int)),
        K::Char => Some(UnpackedData::Bytes(arg->Bytes_0@ + zeros((size - arg->Bytes_0@.len()) as nat))),
        K::Padding | K::Paddalign | K::Nop => None,
        _ => Some(UnpackedData::Bytes(arg->Bytes_0@)),
    }
}

proof fn lemma_item_rest(bytes: Seq<u8>, ntoalign: nat, item: Seq<u8>, before: Seq<u8>, after: Seq<u8>)
    requires
        bytes == zeros(ntoalign) + item,
    ensures
        (before + bytes + after).skip((before.len() + ntoalign) as int) == item + after,
        (before + bytes + after).len() - before.len() == ntoalign + item.len() + after.len(),
{
    assert((before + bytes + after).skip((before.len() + ntoalign) as int) =~= item + after);
}

#[verifier::spinoff_prover]
proof fn lemma_unpack_pack_int(n: i64, signed: bool, size: int, little: bool, rest: Seq<u8>, after: Seq<u8>)
    requires
        1 <= size <= 16,
        signed ==> (size < 8 ==> -(pow256(size as nat) / 2) <= n < pow256(size as nat) / 2),
        !signed ==> (size < 8 ==> twos(n) < pow256(size as nat)),
        rest == spec_packint(twos(n) as u64, little, size, signed && n < 0) + after,
    ensures
        spec_unpackint(rest, little, size, signed) == Some(n as int),
{
    let packed = spec_packint(twos(n) as u64, little, size, signed && n < 0);
    assert(rest.take(size) =~= packed);
    lemma_unpackint_prefix(rest, packed, little, size, signed);
    if signed {
        lemma_unpack_pack_signed(n, little, size);
    } else {
        lemma_unpack_pack_unsigned(twos(n) as u64, little, size);
        lemma_pow256_values();
    }
}

#[verifier::spinoff_prover]
proof fn lemma_unpack_pack_zstr(s: Seq<u8>, rest: Seq<u8>)
    requires
        !s.contains(0u8),
        rest.len() > s.len(),
        rest.take(s.len() as int + 1) == s + seq![0u8],
    ensures
        zero_index(rest, 0) == s.len(),
        rest.take(s.len() as int) == s,
{
    assert forall|i: int| 0 <= i < s.len() implies rest[i] != 0u8 by {
        assert(rest.take(s.len() as int + 1)[i] == rest[i]);
        if s[i] == 0u8 {
            assert(s.contains(0u8));
        }
    }
    assert(rest.take(s.len() as int + 1)[s.len() as int] == rest[s.len() as int]);
    lemma_zero_index_at(rest, s.len() as int, 0);
    assert(rest.take(s.len() as int) =~= s);
}

/// Unpacking at `before.len()` the packed item, with `before` and `after`
/// around it, reads back `arg` and moves on by the growth of the running
/// size.
pub open spec fn item_roundtrips(
    kind: K,
    size: int,
    ntoalign: nat,
    arg: PackArg,
    little: bool,
    native_little: bool,
    before: Seq<u8>,
    after: Seq<u8>,
) -> bool {
    let (bytes, grow) = spec_pack_item(kind, size, ntoalign, arg, little, native_little)->Ok_0;
    spec_unpack_item(before + bytes + after, before.len() as int, kind, size, ntoalign as int, little, native_little)
        == Ok::<(Option<UnpackedData>, int), UnpackError>((read_back(kind, size, arg), (before.len() + grow) as int))
}

#[verifier::spinoff_prover]
proof fn lemma_roundtrip_int(kind: K, size: int, ntoalign: nat, arg: PackArg, little: bool, native_little: bool, before: Seq<u8>, after: Seq<u8>)
    requires
        kind == K::Int || kind == K::Uint,
        item_ok(kind, size),
        arg_ok(kind, size, arg),
        spec_pack_item(kind, size, ntoalign, arg, little, native_little) is Ok,
    ensures
        item_roundtrips(kind, size, ntoalign, arg, little, native_little, before, after),
{
    let (bytes, grow) = spec_pack_item(kind, size, ntoalign, arg, little, native_little)->Ok_0;
    let n = arg->Integer_0;
    let signed = kind == K::Int;
    let item = spec_packint(twos(n) as u64, little, size, signed && n < 0);
    assert(bytes =~= zeros(ntoalign) + item);
    lemma_item_rest(bytes, ntoalign, item, before, after);
    let rest = (before + bytes + after).skip((before.len() + ntoalign) as int);
    lemma_unpack_pack_int(n, signed, size, little, rest, after);
}

#[verifier::spinoff_prover]
#[verifier::rlimit(40)]
proof fn lemma_roundtrip_string(size: int, ntoalign: nat, arg: PackArg, little: bool, native_little: bool, before: Seq<u8>, after: Seq<u8>)
    requires
        item_ok(K::String, size),
        arg_ok(K::String, size, arg),
        arg->Bytes_0@.len() <= usize::MAX,
        spec_pack_item(K::String, size, ntoalign, arg, little, native_little) is Ok,
    ensures
        item_roundtrips(K::String, size, ntoalign, arg, little, native_little, before, after),
{
    let (bytes, grow) = spec_pack_item(K::String, size, ntoalign, arg, little, native_little)->Ok_0;
    let s = arg->Bytes_0@;
    let packed = spec_packint(s.len() as u64, little, size, false);
    let item = packed + s;
    assert(bytes =~= zeros(ntoalign) + item);
    lemma_item_rest(bytes, ntoalign, item, before, after);
    let rest = (before + bytes + after).skip((before.len() + ntoalign) as int);
    assert(rest.take(size) =~= packed);
    lemma_unpackint_prefix(rest, packed, little, size, false);
    lemma_unpack_pack_unsigned(s.len() as u64, little, size);
    lemma_pow256_values();
    assert(rest.subrange(size, size + s.len()) =~= s);
    assert(read_back(K::String, size, arg) == Some(UnpackedData::Bytes(s)));
}

#[verifier::spinoff_prover]
proof fn lemma_roundtrip_zstr(size: int, ntoalign: nat, arg: PackArg, little: bool, native_little: bool, before: Seq<u8>, after: Seq<u8>)
    requires
        item_ok(K::Zstr, size),
        arg_ok(K::Zstr, size, arg),
        spec_pack_item(K::Zstr, size, ntoalign, arg, little, native_little) is Ok,
    ensures
        item_roundtrips(K::Zstr, size, ntoalign, arg, little, native_little, before, after),
{
    let (bytes, grow) = spec_pack_item(K::Zstr, size, ntoalign, arg, little, native_little)->Ok_0;
    let s = arg->Bytes_0@;
    let item = s + seq![0u8];
    assert(bytes =~= zeros(ntoalign) + item);
    lemma_item_rest(bytes, ntoalign, item, before, after);
    let rest = (before + bytes + after).skip((before.len() + ntoalign) as int);
    assert(rest.take(s.len() as int + 1) =~= s + seq![0u8]);
    lemma_unpack_pack_zstr(s, rest);
}

#[verifier::spinoff_prover]
proof fn lemma_roundtrip_float(kind: K, size: int, ntoalign: nat, arg: PackArg, little: bool, native_little: bool, before: Seq<u8>, after: Seq<u8>)
    requires
        kind == K::Float || kind == K::Number || kind == K::Double,
        item_ok(kind, size),
        arg_ok(kind, size, arg),
        spec_pack_item(kind, size, ntoalign, arg, little, native_little) is Ok,
    ensures
        item_roundtrips(kind, size, ntoalign, arg, little, native_little, before, after),
{
    let (bytes, grow) = spec_pack_item(kind, size, ntoalign, arg, little, native_little)->Ok_0;
    let b = arg->Bytes_0@;
    let item = spec_with_endian(b, little, native_little);
    assert(bytes =~= zeros(ntoalign) + item);
    lemma_item_rest(bytes, ntoalign, item, before, after);
    let rest = (before + bytes + after).skip((before.len() + ntoalign) as int);
    assert(rest.take(size) =~= item);
    assert(b.reverse().reverse() =~= b);
}

#[verifier::spinoff_prover]
proof fn lemma_roundtrip_char(size: int, ntoalign: nat, arg: PackArg, little: bool, native_little: bool, before: Seq<u8>, after: Seq<u8>)
    requires
        item_ok(K::Char, size),
        arg_ok(K::Char, size, arg),
        spec_pack_item(K::Char, size, ntoalign, arg, little, native_little) is Ok,
    ensures
        item_roundtrips(K::Char, size, ntoalign, arg, little, native_little, before, after),
{
    let (bytes, grow) = spec_pack_item(K::Char, size, ntoalign, arg, little, native_little)->Ok_0;
    let s = arg->Bytes_0@;
    let item = s + zeros((size - s.len()) as nat);
    assert(bytes =~= zeros(ntoalign) + item);
    lemma_item_rest(bytes, ntoalign, item, before, after);
    let rest = (before + bytes + after).skip((before.len() + ntoalign) as int);
    assert(rest.take(size) =~= item);
}

/// Unpacking an item, at the place where it was packed, gives back the
/// argument it was packed from (integers, strings after their length,
/// zero-terminated strings, floats' bytes; a fixed-size string comes back
/// with the zero bytes that filled it to its size; padding gives nothing)
/// and moves on by as much as packing grew the running size.
pub proof fn lemma_unpack_pack_item(
    kind: K,
    size: int,
    ntoalign: nat,
    arg: PackArg,
    little: bool,
    native_little: bool,
    before: Seq<u8>,
    after: Seq<u8>,
)
    requires
        item_ok(kind, size),
        takes_arg(kind) ==> arg_ok(kind, size, arg),
        spec_pack_item(kind, size, ntoalign, arg, little, native_little) is Ok,
        arg matches PackArg::Bytes(b) ==> b@.len() <= usize::MAX,
    ensures
        item_roundtrips(kind, size, ntoalign, arg, little, native_little, before, after),
{
    if kind == K::Int || kind == K::Uint {
        lemma_roundtrip_int(kind, size, ntoalign, arg, little, native_little, before, after);
    } else if kind == K::String {
        lemma_roundtrip_string(size, ntoalign, arg, little, native_little, before, after);
    } else if kind == K::Zstr {
        lemma_roundtrip_zstr(size, ntoalign, arg, little, native_little, before, after);
    } else if kind == K::Char {
        lemma_roundtrip_char(size, ntoalign, arg, little, native_little, before, after);
    } else if !takes_arg(kind) {
        let (bytes, grow) = spec_pack_item(kind, size, ntoalign, arg, little, native_little)->Ok_0;
        assert((before + bytes + after).len() - before.len() >= ntoalign + size);
    } else {
        lemma_roundtrip_float(kind, size, ntoalign, arg, little, native_little, before, after);
    }
}

proof fn lemma_zero_index_at(s: Seq<u8>, z: int, i: int)
    requires
        0 <= i <= z < s.len(),
        s[z] == 0u8,
        forall|j: int| 0 <= j < z ==> s[j] != 0u8,
    ensures
        zero_index(s, i) == z,
    decreases z - i,
{
    if i < z {
        lemma_zero_index_at(s, z, i + 1);
    }
}


/// Why `string.packsize` refuses a format.
#[derive(Debug, PartialEq, Eq, Clone, Copy, Structural)]
pub enum PackSizeError {
    /// A string after its length, or a zero-terminated one.
    VariableLength,
    /// The total would pass 0x7fffffff.
    TooLarge,
}

/// One step of `string.packsize`: the running total after an item with
/// `size` bytes and `ntoalign` bytes of alignment.
pub open spec fn spec_packsize_step(total: int, kind: K, size: int, ntoalign: int) -> Result<int, PackSizeError> {
    if kind == K::String || kind == K::Zstr {
        Err(PackSizeError::VariableLength)
    } else if total > 0x7fffffff - (size + ntoalign) {
        Err(PackSizeError::TooLarge)
    } else {
        Ok(total + size + ntoalign)
    }
}

/// Adds one item to the running total of `string.packsize`.
pub fn packsize_step(total: usize, kind: K, size: usize, ntoalign: usize) -> (r: Result<usize, PackSizeError>)
    requires
        size + ntoalign <= 0x7fffffff,
    ensures
        match spec_packsize_step(total as int, kind, size as int, ntoalign as int) {
            Ok(t) => r == Ok::<usize, PackSizeError>(t as usize),
            Err(e) => r == Err::<usize, PackSizeError>(e),
        },
{
    if kind == K::String || kind == K::Zstr {
        return Err(PackSizeError::VariableLength);
    }
    let sz = size + ntoalign;
    if total > 0x7fffffffusize - sz {
        return Err(PackSizeError::TooLarge);
    }
    Ok(total + sz)
}


/// `string.packsize` counts what `string.pack` writes: for an item of a
/// fixed size, packing it adds exactly as many bytes as the size step adds
/// to the running total.
pub proof fn lemma_packsize_counts_pack(
    total: int,
    kind: K,
    size: int,
    ntoalign: nat,
    arg: PackArg,
    little: bool,
    native_little: bool,
)
    requires
        item_ok(kind, size),
        takes_arg(kind) ==> arg_ok(kind, size, arg),
        kind != K::String,
        kind != K::Zstr,
        0 <= total,
        total + size + ntoalign <= 0x7fffffff,
        spec_pack_item(kind, size, ntoalign, arg, little, native_little) is Ok,
    ensures
        spec_packsize_step(total, kind, size, ntoalign as int) == Ok::<int, PackSizeError>(
            total + spec_pack_item(kind, size, ntoalign, arg, little, native_little)->Ok_0.0.len(),
        ),
        spec_pack_item(kind, size, ntoalign, arg, little, native_little)->Ok_0.0.len()
            == spec_pack_item(kind, size, ntoalign, arg, little, native_little)->Ok_0.1,
{
}


// ─── Whole formats ───────────────────────────────────────────────────────────

/// What `string.pack` writes for the items `i ..` of a format (each a kind
/// and a size) with their arguments, the running size standing at `total`:
/// each item is aligned by `align`, which gives the alignment bytes for
/// item `i` at running size `total`; the first refused argument stops it.
pub open spec fn pack_from(
    items: Seq<(K, int)>,
    args: Seq<PackArg>,
    align: spec_fn(int, int) -> nat,
    little: bool,
    native_little: bool,
    i: int,
    total: int,
) -> Result<Seq<u8>, PackError>
    decreases items.len() - i,
{
    if i < 0 || i >= items.len() {
        Ok(Seq::empty())
    } else {
        match spec_pack_item(items[i].0, items[i].1, align(i, total), args[i], little, native_little) {
            Err(e) => Err(e),
            Ok((b, g)) => match pack_from(items, args, align, little, native_little, i + 1, total + g) {
                Ok(rest) => Ok(b + rest),
                Err(e) => Err(e),
            },
        }
    }
}

/// What `string.packsize` counts for the items `i ..` of a format, the
/// running total standing at `total`, with the same alignment rule.
pub open spec fn packsize_from(items: Seq<(K, int)>, align: spec_fn(int, int) -> nat, i: int, total: int) -> Result<
    int,
    PackSizeError,
>
    decreases items.len() - i,
{
    if i < 0 || i >= items.len() {
        Ok(total)
    } else {
        match spec_packsize_step(total, items[i].0, items[i].1, align(i, total) as int) {
            Err(e) => Err(e),
            Ok(t) => packsize_from(items, align, i + 1, t),
        }
    }
}

/// What `string.unpack` reads for the items `i ..` of a format from `data`,
/// starting at `position`, with the same alignment rule: the values read
/// (nothing for padding), and the position where reading ends.
pub open spec fn unpack_from(
    data: Seq<u8>,
    items: Seq<(K, int)>,
    align: spec_fn(int, int) -> nat,
    little: bool,
    native_little: bool,
    i: int,
    position: int,
) -> Result<(Seq<Option<UnpackedData>>, int), UnpackError>
    decreases items.len() - i,
{
    if i < 0 || i >= items.len() {
        Ok((Seq::empty(), position))
    } else {
        match spec_unpack_item(data, position, items[i].0, items[i].1, align(i, position) as int, little, native_little) {
            Err(e) => Err(e),
            Ok((v, p)) => match unpack_from(data, items, align, little, native_little, i + 1, p) {
                Ok((vs, q)) => Ok((seq![v] + vs, q)),
                Err(e) => Err(e),
            },
        }
    }
}

/// What unpacking gives back for the items `i ..` packed from `args`.
pub open spec fn read_backs(items: Seq<(K, int)>, args: Seq<PackArg>, i: int) -> Seq<Option<UnpackedData>>
    decreases items.len() - i,
{
    if i < 0 || i >= items.len() {
        Seq::empty()
    } else {
        seq![read_back(items[i].0, items[i].1, args[i])] + read_backs(items, args, i + 1)
    }
}

/// Each item is well formed and has an argument that fits it.
pub open spec fn format_args_ok(items: Seq<(K, int)>, args: Seq<PackArg>) -> bool {
    &&& args.len() == items.len()
    &&& forall|i: int|
        0 <= i < items.len() ==> {
            &&& item_ok(#[trigger] items[i].0, items[i].1)
            &&& takes_arg(items[i].0) ==> arg_ok(items[i].0, items[i].1, args[i])
            &&& args[i] matches PackArg::Bytes(b) ==> b@.len() <= usize::MAX
        }
}

/// An item adds as many bytes as it moves the running size on.
proof fn lemma_pack_item_len(kind: K, size: int, ntoalign: nat, arg: PackArg, little: bool, native_little: bool)
    requires
        item_ok(kind, size),
        takes_arg(kind) ==> arg_ok(kind, size, arg),
        spec_pack_item(kind, size, ntoalign, arg, little, native_little) is Ok,
    ensures
        spec_pack_item(kind, size, ntoalign, arg, little, native_little)->Ok_0.0.len()
            == spec_pack_item(kind, size, ntoalign, arg, little, native_little)->Ok_0.1,
{
}

proof fn lemma_pack_length_from(
    items: Seq<(K, int)>,
    args: Seq<PackArg>,
    align: spec_fn(int, int) -> nat,
    little: bool,
    native_little: bool,
    i: int,
    total: int,
)
    requires
        format_args_ok(items, args),
        0 <= i,
        0 <= total,
        packsize_from(items, align, i, total) is Ok,
        pack_from(items, args, align, little, native_little, i, total) is Ok,
    ensures
        packsize_from(items, align, i, total)->Ok_0 == total
            + pack_from(items, args, align, little, native_little, i, total)->Ok_0.len(),
    decreases items.len() - i,
{
    if i < items.len() {
        let (kind, size) = items[i];
        let n = align(i, total);
        assert(item_ok(items[i].0, items[i].1));
        let (b, g) = spec_pack_item(kind, size, n, args[i], little, native_little)->Ok_0;
        lemma_packsize_counts_pack(total, kind, size, n, args[i], little, native_little);
        lemma_pack_length_from(items, args, align, little, native_little, i + 1, total + g);
    }
}

/// `string.packsize` gives the length of what `string.pack` writes: for a
/// format whose every item is well formed and fed an argument that fits it,
/// when packsize accepts the format (no variable-length item, no total past
/// 0x7fffffff) and pack accepts the arguments, pack writes exactly as many
/// bytes as packsize counts, whatever alignment rule both apply to their
/// running totals.
pub proof fn lemma_pack_length_is_packsize(
    items: Seq<(K, int)>,
    args: Seq<PackArg>,
    align: spec_fn(int, int) -> nat,
    little: bool,
    native_little: bool,
)
    requires
        format_args_ok(items, args),
        packsize_from(items, align, 0, 0) is Ok,
        pack_from(items, args, align, little, native_little, 0, 0) is Ok,
    ensures
        packsize_from(items, align, 0, 0)->Ok_0 == pack_from(items, args, align, little, native_little, 0, 0)->Ok_0.len(),
{
    lemma_pack_length_from(items, args, align, little, native_little, 0, 0);
}

#[verifier::spinoff_prover]
#[verifier::rlimit(60)]
proof fn lemma_unpack_pack_from(
    items: Seq<(K, int)>,
    args: Seq<PackArg>,
    align: spec_fn(int, int) -> nat,
    little: bool,
    native_little: bool,
    i: int,
    before: Seq<u8>,
)
    requires
        format_args_ok(items, args),
        0 <= i,
        pack_from(items, args, align, little, native_little, i, before.len() as int) is Ok,
    ensures
        unpack_from(
            before + pack_from(items, args, align, little, native_little, i, before.len() as int)->Ok_0,
            items,
            align,
            little,
            native_little,
            i,
            before.len() as int,
        ) == Ok::<(Seq<Option<UnpackedData>>, int), UnpackError>(
            (
                read_backs(items, args, i),
                (before.len() + pack_from(items, args, align, little, native_little, i, before.len() as int)->Ok_0.len()) as int,
            ),
        ),
    decreases items.len() - i,
{
    let whole = pack_from(items, args, align, little, native_little, i, before.len() as int)->Ok_0;
    if i >= items.len() {
        assert(before + whole =~= before);
    } else {
        let kind = items[i].0;
        let size = items[i].1;
        let n = align(i, before.len() as int);
        assert(item_ok(kind, size));
        let packed = spec_pack_item(kind, size, n, args[i], little, native_little);
        let b = packed->Ok_0.0;
        let g = packed->Ok_0.1;
        lemma_pack_item_len(kind, size, n, args[i], little, native_little);
        let before2 = before + b;
        let rest = pack_from(items, args, align, little, native_little, i + 1, (before.len() + g) as int)->Ok_0;
        assert(whole == b + rest);
        assert(before2.len() == before.len() + g);
        let data = before + whole;
        assert(data =~= before + b + rest);
        assert(before2 + rest =~= data);
        lemma_unpack_pack_from(items, args, align, little, native_little, i + 1, before2);
        lemma_unpack_pack_item(kind, size, n, args[i], little, native_little, before, rest);
        assert(spec_unpack_item(data, before.len() as int, kind, size, n as int, little, native_little)
            == Ok::<(Option<UnpackedData>, int), UnpackError>((read_back(kind, size, args[i]), before2.len() as int)));
        assert(read_backs(items, args, i) == seq![read_back(kind, size, args[i])] + read_backs(items, args, i + 1));
    }
}

/// `string.unpack` reads back what `string.pack` wrote: for a format whose
/// every item is well formed and fed an argument that fits it, unpacking
/// from the start what pack wrote gives back each argument (integers as
/// they were, strings and floats' bytes as they were, fixed-size strings
/// filled with zero bytes to their size, nothing for padding) and stops at
/// the end of the packed string, whatever alignment rule both apply to
/// their running positions.
pub proof fn lemma_unpack_pack_format(
    items: Seq<(K, int)>,
    args: Seq<PackArg>,
    align: spec_fn(int, int) -> nat,
    little: bool,
    native_little: bool,
)
    requires
        format_args_ok(items, args),
        pack_from(items, args, align, little, native_little, 0, 0) is Ok,
    ensures
        unpack_from(
            pack_from(items, args, align, little, native_little, 0, 0)->Ok_0,
            items,
            align,
            little,
            native_little,
            0,
            0,
        ) == Ok::<(Seq<Option<UnpackedData>>, int), UnpackError>(
            (
                read_backs(items, args, 0),
                pack_from(items, args, align, little, native_little, 0, 0)->Ok_0.len() as int,
            ),
        ),
{
    let e = Seq::<u8>::empty();
    lemma_unpack_pack_from(items, args, align, little, native_little, 0, e);
    assert(e + pack_from(items, args, align, little, native_little, 0, 0)->Ok_0
        =~= pack_from(items, args, align, little, native_little, 0, 0)->Ok_0);
}

} // verus!
