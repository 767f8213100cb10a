use vstd::prelude::*;

verus! {

/// Index of the first byte after the mode letter and an optional `+`.
pub open spec fn mode_suffix_start(mode: Seq<u8>) -> int {
    if mode.len() > 1 && mode[1] == 43u8 { 2 } else { 1 }
}

/// A mode string accepted by `io.open`: one of `r`, `w`, `a`, an optional
/// `+`, then any number of `b`.
pub open spec fn valid_mode(mode: Seq<u8>) -> bool {
    &&& mode.len() > 0
    &&& (mode[0] == 114u8 || mode[0] == 119u8 || mode[0] == 97u8)
    &&& forall|j: int| mode_suffix_start(mode) <= j < mode.len() ==> mode[j] == 98u8
}

/// Checks an `io.open` mode string.
pub fn check_mode(mode: &[u8]) -> (ok: bool)
    ensures
        ok == valid_mode(mode@),
{
    if mode.len() == 0 {
        return false;
    }
    if !(mode[0] == 114u8 || mode[0] == 119u8 || mode[0] == 97u8) {
        return false;
    }
    let mut i: usize = 1;
    if i < mode.len() && mode[i] == 43u8 {
        i += 1;
    }
    let start: usize = i;
    while i < mode.len()
        invariant
            start == mode_suffix_start(mode@),
            start <= i <= mode.len(),
            forall|j: int| start <= j < i ==> mode@[j] == 98u8,
        decreases mode.len() - i,
    {
        if mode[i] != 98u8 {
            return false;
        }
        i += 1;
    }
    true
}


// ─── Reading a number ────────────────────────────────────────────────────────

/// What the numeral scanner has read so far: the index of the current
/// byte (the end of the input stands for end of file), the bytes taken,
/// and whether the numeral grew too long.
pub struct ScanState {
    pub pos: nat,
    pub buf: Seq<u8>,
    pub overflow: bool,
}

pub open spec fn is_space(c: u8) -> bool {
    c == 32u8 || (9u8 <= c <= 13u8)
}

pub open spec fn is_dec(c: u8) -> bool {
    48u8 <= c <= 57u8
}

pub open spec fn is_hex_digit(c: u8) -> bool {
    is_dec(c) || (97u8 <= c <= 102u8) || (65u8 <= c <= 70u8)
}

/// The index of the first byte from `i` on that is not white space.
pub open spec fn skip_space(input: Seq<u8>, i: nat) -> nat
    decreases input.len() - i,
{
    if i < input.len() && is_space(input[i as int]) {
        skip_space(input, i + 1)
    } else {
        i
    }
}

/// Takes the current byte into the numeral, unless it is already as long as
/// allowed (then it is marked too long and nothing moves).
pub open spec fn scan_next(input: Seq<u8>, st: ScanState) -> (ScanState, bool) {
    if st.buf.len() >= 200 {
        (ScanState { overflow: true, ..st }, false)
    } else {
        (ScanState { pos: st.pos + 1, buf: st.buf.push(input[st.pos as int]), overflow: st.overflow }, true)
    }
}

/// A byte of a character set: a byte from 128 up, a negative `char`, never
/// matches what is read.
pub open spec fn set_matches(c: u8, s: u8) -> bool {
    s < 128u8 && c == s
}

/// Takes the current byte when it is `a` or `b`.
pub open spec fn scan_test2(input: Seq<u8>, st: ScanState, a: u8, b: u8) -> (ScanState, bool) {
    if st.pos < input.len() && (set_matches(input[st.pos as int], a) || set_matches(input[st.pos as int], b)) {
        scan_next(input, st)
    } else {
        (st, false)
    }
}

/// Takes digits (hexadecimal ones when `hex`) while they come and the
/// numeral is not too long; gives how many.
pub open spec fn scan_digits(input: Seq<u8>, st: ScanState, hex: bool) -> (ScanState, nat)
    decreases input.len() - st.pos,
{
    if st.pos < input.len() && (if hex {
        is_hex_digit(input[st.pos as int])
    } else {
        is_dec(input[st.pos as int])
    }) {
        let (st2, ok) = scan_next(input, st);
        if ok {
            let (st3, n) = scan_digits(input, st2, hex);
            (st3, n + 1)
        } else {
            (st2, 0)
        }
    } else {
        (st, 0)
    }
}

/// The numeral that `read("n")` takes from `input` (what is left of the
/// file) and how many bytes it consumes: white space, a sign, `0x` for
/// hexadecimal, digits, the decimal point (`point` or `.`) and digits, and
/// after at least one digit an exponent (`e` or, in hexadecimal, `p`) with
/// an optional sign and decimal digits. A numeral that grows past 200 bytes
/// reads as empty.
pub open spec fn spec_scan_number(input: Seq<u8>, point: u8) -> (Seq<u8>, nat) {
    let st0 = ScanState { pos: skip_space(input, 0), buf: Seq::empty(), overflow: false };
    let st1 = scan_test2(input, st0, 45u8, 43u8).0;
    let (st2, zero) = scan_test2(input, st1, 48u8, 48u8);
    let (st3, x) = if zero {
        scan_test2(input, st2, 120u8, 88u8)
    } else {
        (st2, false)
    };
    let hex = zero && x;
    let count0: nat = if zero && !x {
        1
    } else {
        0
    };
    let (st4, c1) = scan_digits(input, st3, hex);
    let (st5, dot) = scan_test2(input, st4, point, 46u8);
    let (st6, c2) = if dot {
        scan_digits(input, st5, hex)
    } else {
        (st5, 0nat)
    };
    let count = count0 + c1 + c2;
    let (st7, e) = if count > 0 {
        if hex {
            scan_test2(input, st6, 112u8, 80u8)
        } else {
            scan_test2(input, st6, 101u8, 69u8)
        }
    } else {
        (st6, false)
    };
    let st8 = if e {
        scan_digits(input, scan_test2(input, st7, 45u8, 43u8).0, false).0
    } else {
        st7
    };
    (
        if st8.overflow {
            Seq::empty()
        } else {
            st8.buf
        },
        st8.pos,
    )
}

/// The scanner's state.
struct Scanner {
    pos: usize,
    buf: Vec<u8>,
    overflow: bool,
}

impl Scanner {
    spec fn model(&self) -> ScanState {
        ScanState { pos: self.pos as nat, buf: self.buf@, overflow: self.overflow }
    }

    fn next(&mut self, input: &[u8]) -> (ok: bool)
        requires
            old(self).pos < input@.len(),
            old(self).buf@.len() <= 200,
        ensures
            (final(self).model(), ok) == scan_next(input@, old(self).model()),
            final(self).pos <= input@.len(),
            final(self).buf@.len() <= 200,
    {
        if self.buf.len() >= 200 {
            self.overflow = true;
            false
        } else {
            self.buf.push(input[self.pos]);
            self.pos = self.pos + 1;
            true
        }
    }

    fn test2(&mut self, input: &[u8], a: u8, b: u8) -> (ok: bool)
        requires
            old(self).pos <= input@.len(),
            old(self).buf@.len() <= 200,
        ensures
            (final(self).model(), ok) == scan_test2(input@, old(self).model(), a, b),
            final(self).pos <= input@.len(),
            final(self).buf@.len() <= 200,
    {
        if self.pos < input.len() && ((a < 128u8 && input[self.pos] == a) || (b < 128u8 && input[self.pos] == b)) {
            self.next(input)
        } else {
            false
        }
    }

    fn digits(&mut self, input: &[u8], hex: bool) -> (count: usize)
        requires
            old(self).pos <= input@.len(),
            old(self).buf@.len() <= 200,
        ensures
            (final(self).model(), count as nat) == scan_digits(input@, old(self).model(), hex),
            final(self).pos <= input@.len(),
            final(self).buf@.len() <= 200,
            count <= 200,
        decreases input@.len() - old(self).pos,
    {
        if self.pos < input.len() {
            let c = input[self.pos];
            let is_digit = if hex {
                (48u8 <= c && c <= 57u8) || (97u8 <= c && c <= 102u8) || (65u8 <= c && c <= 70u8)
            } else {
                48u8 <= c && c <= 57u8
            };
            if is_digit {
                let ghost before = self.buf@.len();
                if self.next(input) {
                    let n = self.digits(input, hex);
                    proof {
                        lemma_scan_digits_count(input@, scan_next(input@, old(self).model()).0, hex);
                    }
                    return n + 1;
                }
                return 0;
            }
        }
        0
    }
}

proof fn lemma_scan_digits_count(input: Seq<u8>, st: ScanState, hex: bool)
    requires
        st.buf.len() <= 200,
    ensures
        scan_digits(input, st, hex).1 + st.buf.len() <= 200,
    decreases input.len() - st.pos,
{
    if st.pos < input.len() && st.buf.len() < 200 {
        lemma_scan_digits_count(input, scan_next(input, st).0, hex);
    }
}

/// Scans a numeral as `read("n")` does (see `spec_scan_number`): gives its
/// text and how many bytes of `input` it consumed.
pub fn scan_number(input: &[u8], point: u8) -> (r: (Vec<u8>, usize))
    ensures
        (r.0@, r.1 as nat) == spec_scan_number(input@, point),
{
    let mut i: usize = 0;
    while i < input.len() && (input[i] == 32u8 || (9u8 <= input[i] && input[i] <= 13u8))
        invariant
            i <= input@.len(),
            skip_space(input@, 0) == skip_space(input@, i as nat),
        decreases input@.len() - i,
    {
        i = i + 1;
    }
    let mut sc = Scanner { pos: i, buf: Vec::new(), overflow: false };
    sc.test2(input, 45u8, 43u8);
    let mut count: usize = 0;
    let mut hex: bool = false;
    if sc.test2(input, 48u8, 48u8) {
        if sc.test2(input, 120u8, 88u8) {
            hex = true;
        } else {
            count = 1;
        }
    }
    count = count + sc.digits(input, hex);
    if sc.test2(input, point, 46u8) {
        count = count + sc.digits(input, hex);
    }
    if count > 0 {
        let e = if hex {
            sc.test2(input, 112u8, 80u8)
        } else {
            sc.test2(input, 101u8, 69u8)
        };
        if e {
            sc.test2(input, 45u8, 43u8);
            sc.digits(input, false);
        }
    }
    if sc.overflow {
        (Vec::new(), sc.pos)
    } else {
        (sc.buf, sc.pos)
    }
}


// ─── Reading a number from a file handle ─────────────────────────────────────

/// The state of `read("n")` on a file handle: the index of the next byte to
/// read, the current byte (0 once the file has ended), the numeral so far,
/// and whether it grew past 200 bytes (it then reads as empty).
pub struct NumState {
    pub pos: nat,
    pub c: u8,
    pub buf: Seq<u8>,
    pub over: bool,
}

pub open spec fn is_ascii_ws(c: u8) -> bool {
    c == 32u8 || c == 9u8 || c == 10u8 || c == 12u8 || c == 13u8
}

/// The index of the first byte from `i` on that is not ASCII white space.
pub open spec fn skip_ascii_ws(input: Seq<u8>, i: nat) -> nat
    decreases input.len() - i,
{
    if i < input.len() && is_ascii_ws(input[i as int]) {
        skip_ascii_ws(input, i + 1)
    } else {
        i
    }
}

/// Reads the next byte (0 at the end of the file, which is not consumed).
pub open spec fn num_next(input: Seq<u8>, st: NumState) -> NumState {
    if st.pos < input.len() {
        NumState { pos: st.pos + 1, c: input[st.pos as int], ..st }
    } else {
        NumState { c: 0u8, ..st }
    }
}

/// Adds a byte to the numeral, unless it is already 200 bytes long.
pub open spec fn num_push(st: NumState, b: u8) -> (NumState, bool) {
    if st.buf.len() >= 200 {
        (NumState { over: true, ..st }, false)
    } else {
        (NumState { buf: st.buf.push(b), ..st }, true)
    }
}

pub open spec fn num_digit(c: u8, hex: bool) -> bool {
    if hex {
        is_hex_digit(c)
    } else {
        is_dec(c)
    }
}

/// Takes digits while they come and fit; gives how many.
pub open spec fn num_digits(input: Seq<u8>, st: NumState, hex: bool) -> (NumState, nat)
    decreases input.len() + 1 - st.pos + (if st.c != 0 { 1int } else { 0int }),
{
    if st.pos <= input.len() && num_digit(st.c, hex) {
        let (s1, ok) = num_push(st, st.c);
        if ok {
            let (s2, k) = num_digits(input, num_next(input, s1), hex);
            (s2, k + 1)
        } else {
            (s1, 0)
        }
    } else {
        (st, 0)
    }
}

/// The end of a read: the numeral to convert and the bytes consumed (the
/// current byte, unless 0, goes back to the file).
pub open spec fn num_finish(st: NumState) -> (Option<Seq<u8>>, nat) {
    (
        Some(
            if st.over {
                Seq::empty()
            } else {
                st.buf
            },
        ),
        (if st.c != 0 {
            st.pos - 1
        } else {
            st.pos as int
        }) as nat,
    )
}

/// The exponent: `e` (`p` in hexadecimal), a sign, decimal digits.
pub open spec fn num_exponent(input: Seq<u8>, st: NumState, hex: bool) -> (Option<Seq<u8>>, nat) {
    if st.c == (if hex { 112u8 } else { 101u8 }) || st.c == (if hex { 80u8 } else { 69u8 }) {
        let (s1, ok) = num_push(st, st.c);
        if !ok {
            (None, s1.pos)
        } else {
            let s2 = num_next(input, s1);
            if s2.c == 43u8 || s2.c == 45u8 {
                let (s3, ok2) = num_push(s2, s2.c);
                if !ok2 {
                    (None, s3.pos)
                } else {
                    num_finish(num_digits(input, num_next(input, s3), false).0)
                }
            } else {
                num_finish(num_digits(input, s2, false).0)
            }
        }
    } else {
        num_finish(st)
    }
}

/// From the first digits on: the digits, a decimal point (`.` or `point`,
/// stored as `.`) with more digits, then, after at least one digit, the
/// exponent.
pub open spec fn num_body(input: Seq<u8>, st: NumState, count: nat, hex: bool, point: u8) -> (Option<Seq<u8>>, nat) {
    let (s1, k1) = num_digits(input, st, hex);
    if s1.c == 46u8 || s1.c == point {
        let (s2, ok) = num_push(s1, 46u8);
        if !ok {
            (None, s2.pos)
        } else {
            let (s3, k2) = num_digits(input, num_next(input, s2), hex);
            if count + k1 + k2 > 0 {
                num_exponent(input, s3, hex)
            } else {
                num_finish(s3)
            }
        }
    } else if count + k1 > 0 {
        num_exponent(input, s1, hex)
    } else {
        num_finish(s1)
    }
}

/// What `read("n")` does on a file handle whose remaining bytes are
/// `input`: `None` (nil without a conversion) when only white space is
/// left or a numeral grows too long at a point, an exponent or its sign;
/// otherwise the numeral to convert. Also gives how many bytes it consumed.
pub open spec fn spec_read_numeral(input: Seq<u8>, point: u8) -> (Option<Seq<u8>>, nat) {
    let p0 = skip_ascii_ws(input, 0);
    if p0 >= input.len() {
        (None, input.len())
    } else {
        let st0 = NumState { pos: p0 + 1, c: input[p0 as int], buf: Seq::empty(), over: false };
        let signed = st0.c == 43u8 || st0.c == 45u8;
        let st1 = if signed {
            NumState { buf: seq![st0.c], ..st0 }
        } else {
            st0
        };
        if signed && st1.pos >= input.len() {
            (Some(st1.buf), st1.pos)
        } else {
            let st2 = if signed {
                num_next(input, st1)
            } else {
                st1
            };
            if st2.c == 48u8 {
                let st3 = NumState { buf: st2.buf.push(48u8), ..st2 };
                if st3.pos >= input.len() {
                    (Some(st3.buf), st3.pos)
                } else {
                    let st4 = num_next(input, st3);
                    if st4.c == 120u8 || st4.c == 88u8 {
                        let st5 = num_next(input, NumState { buf: st4.buf.push(st4.c), ..st4 });
                        num_body(input, st5, 1, true, point)
                    } else {
                        num_body(input, st4, 1, false, point)
                    }
                }
            } else {
                num_body(input, st2, 0, false, point)
            }
        }
    }
}

/// The state of `read_numeral`.
struct NumReader {
    pos: usize,
    c: u8,
    buf: Vec<u8>,
    over: bool,
}

impl NumReader {
    spec fn model(&self) -> NumState {
        NumState { pos: self.pos as nat, c: self.c, buf: self.buf@, over: self.over }
    }

    fn next(&mut self, input: &[u8])
        requires
            old(self).pos <= input@.len(),
        ensures
            final(self).model() == num_next(input@, old(self).model()),
            final(self).pos <= input@.len(),
    {
        if self.pos < input.len() {
            self.c = input[self.pos];
            self.pos = self.pos + 1;
        } else {
            self.c = 0u8;
        }
    }

    fn push(&mut self, b: u8) -> (ok: bool)
        ensures
            (final(self).model(), ok) == num_push(old(self).model(), b),
            final(self).pos == old(self).pos,
    {
        if self.buf.len() >= 200 {
            self.over = true;
            false
        } else {
            self.buf.push(b);
            true
        }
    }

    fn digits(&mut self, input: &[u8], hex: bool) -> (count: usize)
        requires
            old(self).pos <= input@.len(),
            old(self).buf@.len() <= 200,
        ensures
            (final(self).model(), count as nat) == num_digits(input@, old(self).model(), hex),
            final(self).pos <= input@.len(),
            final(self).buf@.len() <= 200,
            count <= 200,
        decreases input@.len() + 1 - old(self).pos + (if old(self).c != 0 { 1int } else { 0int }),
    {
        let c = self.c;
        let d = if hex {
            (48u8 <= c && c <= 57u8) || (97u8 <= c && c <= 102u8) || (65u8 <= c && c <= 70u8)
        } else {
            48u8 <= c && c <= 57u8
        };
        if d {
            if self.push(c) {
                self.next(input);
                let k = self.digits(input, hex);
                proof {
                    lemma_num_digits_count(input@, num_next(input@, num_push(old(self).model(), c).0), hex);
                }
                return k + 1;
            }
            return 0;
        }
        0
    }

    fn finish(self) -> (r: (Option<Vec<u8>>, usize))
        requires
            self.pos >= 1 || self.c == 0,
        ensures
            (opt_bytes(r.0), r.1 as nat) == num_finish(self.model()),
            r.1 <= self.pos,
    {
        let consumed = if self.c != 0 {
            self.pos - 1
        } else {
            self.pos
        };
        if self.over {
            let e: Vec<u8> = Vec::new();
            proof {
                assert(e@ =~= Seq::<u8>::empty());
            }
            (Some(e), consumed)
        } else {
            (Some(self.buf), consumed)
        }
    }
}

proof fn lemma_num_digits_count(input: Seq<u8>, st: NumState, hex: bool)
    requires
        st.buf.len() <= 200,
    ensures
        num_digits(input, st, hex).1 + st.buf.len() <= 200,
        num_digits(input, st, hex).0.pos >= st.pos,
    decreases input.len() + 1 - st.pos + (if st.c != 0 { 1int } else { 0int }),
{
    if st.pos <= input.len() && num_digit(st.c, hex) && st.buf.len() < 200 {
        let s1 = num_push(st, st.c).0;
        lemma_num_digits_count(input, num_next(input, s1), hex);
    }
}

pub open spec fn opt_bytes(o: Option<Vec<u8>>) -> Option<Seq<u8>> {
    match o {
        Some(v) => Some(v@),
        None => None,
    }
}


impl NumReader {
    fn exponent(self, input: &[u8], hex: bool) -> (r: (Option<Vec<u8>>, usize))
        requires
            self.pos <= input@.len(),
            self.pos >= 1,
            self.buf@.len() <= 200,
        ensures
            (opt_bytes(r.0), r.1 as nat) == num_exponent(input@, self.model(), hex),
            r.1 <= input@.len(),
    {
        let mut rd = self;
        let ghost st = rd.model();
        let lo: u8 = if hex { 112u8 } else { 101u8 };
        let up: u8 = if hex { 80u8 } else { 69u8 };
        if rd.c == lo || rd.c == up {
            let c = rd.c;
            if !rd.push(c) {
                return (None, rd.pos);
            }
            rd.next(input);
            if rd.c == 43u8 || rd.c == 45u8 {
                let c2 = rd.c;
                if !rd.push(c2) {
                    return (None, rd.pos);
                }
                rd.next(input);
                proof {
                    lemma_num_digits_count(input@, rd.model(), false);
                }
                rd.digits(input, false);
                rd.finish()
            } else {
                proof {
                    lemma_num_digits_count(input@, rd.model(), false);
                }
                rd.digits(input, false);
                rd.finish()
            }
        } else {
            rd.finish()
        }
    }

    fn body(self, input: &[u8], count: usize, hex: bool, point: u8) -> (r: (Option<Vec<u8>>, usize))
        requires
            self.pos <= input@.len(),
            self.pos >= 1,
            self.buf@.len() <= 200,
            count <= 1,
        ensures
            (opt_bytes(r.0), r.1 as nat) == num_body(input@, self.model(), count as nat, hex, point),
            r.1 <= input@.len(),
    {
        let mut rd = self;
        proof {
            lemma_num_digits_count(input@, rd.model(), hex);
        }
        let k1 = rd.digits(input, hex);
        if rd.c == 46u8 || rd.c == point {
            if !rd.push(46u8) {
                return (None, rd.pos);
            }
            rd.next(input);
            proof {
                lemma_num_digits_count(input@, rd.model(), hex);
            }
            let k2 = rd.digits(input, hex);
            if count + k1 + k2 > 0 {
                rd.exponent(input, hex)
            } else {
                rd.finish()
            }
        } else if count + k1 > 0 {
            rd.exponent(input, hex)
        } else {
            rd.finish()
        }
    }
}

/// Reads a numeral as `read("n")` does on a file handle (see
/// `spec_read_numeral`): `input` is what is left of the file and `point`
/// the locale's decimal point. Gives the numeral to convert (`None` for nil
/// without conversion) and how many bytes it consumed.
pub fn read_numeral(input: &[u8], point: u8) -> (r: (Option<Vec<u8>>, usize))
    ensures
        (opt_bytes(r.0), r.1 as nat) == spec_read_numeral(input@, point),
        r.1 <= input@.len(),
{
    let mut i: usize = 0;
    while i < input.len() && (input[i] == 32u8 || input[i] == 9u8 || input[i] == 10u8 || input[i] == 12u8
        || input[i] == 13u8)
        invariant
            i <= input@.len(),
            skip_ascii_ws(input@, 0) == skip_ascii_ws(input@, i as nat),
        decreases input@.len() - i,
    {
        i = i + 1;
    }
    if i >= input.len() {
        return (None, input.len());
    }
    let mut rd = NumReader { pos: i + 1, c: input[i], buf: Vec::new(), over: false };
    let signed = rd.c == 43u8 || rd.c == 45u8;
    if signed {
        rd.buf.push(rd.c);
        if rd.pos >= input.len() {
            return (Some(rd.buf), rd.pos);
        }
        rd.next(input);
    }
    if rd.c == 48u8 {
        rd.buf.push(48u8);
        if rd.pos >= input.len() {
            return (Some(rd.buf), rd.pos);
        }
        rd.next(input);
        if rd.c == 120u8 || rd.c == 88u8 {
            let c = rd.c;
            rd.buf.push(c);
            rd.next(input);
            rd.body(input, 1, true, point)
        } else {
            rd.body(input, 1, false, point)
        }
    } else {
        rd.body(input, 0, false, point)
    }
}

// ─── Read formats ────────────────────────────────────────────────────────────

/// What one argument of `read` asks for.
#[derive(Debug, PartialEq, Eq, Clone, Copy, Structural)]
pub enum ReadFormat {
    /// `n`: a numeral.
    Number,
    /// `l`: a line without its newline.
    Line,
    /// `L`: a line with its newline.
    LineKeep,
    /// `a`: the rest of the file.
    All,
}

/// A string argument of `read`: an optional `*`, then the format letter;
/// `None` for an invalid format.
pub open spec fn spec_read_format(fmt: Seq<u8>) -> Option<ReadFormat> {
    let i = if fmt.len() > 0 && fmt[0] == 42u8 { 1int } else { 0int };
    let c = if i < fmt.len() { fmt[i] } else { 0u8 };
    if c == 110u8 {
        Some(ReadFormat::Number)
    } else if c == 108u8 {
        Some(ReadFormat::Line)
    } else if c == 76u8 {
        Some(ReadFormat::LineKeep)
    } else if c == 97u8 {
        Some(ReadFormat::All)
    } else {
        None
    }
}

/// Reads the format of a string argument of `read`.
pub fn read_format(fmt: &[u8]) -> (r: Option<ReadFormat>)
    ensures
        r == spec_read_format(fmt@),
{
    let i: usize = if fmt.len() > 0 && fmt[0] == 42u8 { 1 } else { 0 };
    let c = if i < fmt.len() { fmt[i] } else { 0u8 };
    if c == 110u8 {
        Some(ReadFormat::Number)
    } else if c == 108u8 {
        Some(ReadFormat::Line)
    } else if c == 76u8 {
        Some(ReadFormat::LineKeep)
    } else if c == 97u8 {
        Some(ReadFormat::All)
    } else {
        None
    }
}

/// A line read from `input` (what is left of the file): the bytes up to the
/// first newline or the end, with the newline when `keep` and there is one;
/// how many bytes it consumed; and whether it succeeded (a newline was
/// found or some byte was read).
pub open spec fn spec_read_line(input: Seq<u8>, keep: bool) -> (Seq<u8>, nat, bool) {
    match crate::urllib::first_index(input, 10u8, 0) {
        Some(p) => (
            if keep {
                input.take(p + 1)
            } else {
                input.take(p)
            },
            (p + 1) as nat,
            true,
        ),
        None => (input, input.len(), input.len() > 0),
    }
}

/// Reads a line as `read("l")` and `read("L")` do.
pub fn read_line(input: &[u8], keep: bool) -> (r: (Vec<u8>, usize, bool))
    ensures
        (r.0@, r.1 as nat, r.2) == spec_read_line(input@, keep),
{
    let n = input.len();
    match crate::urllib::memchr(input, 10u8) {
        Some(p) => {
            proof {
                crate::urllib::lemma_first_index(input@, 10u8, 0);
                assert(p < n);
            }
            let end = if keep { p + 1 } else { p };
            let line = vstd::slice::slice_to_vec(&input[0..end]);
            proof {
                assert(input@.subrange(0, end as int) =~= input@.take(end as int));
            }
            (line, p + 1, true)
        },
        None => (vstd::slice::slice_to_vec(input), input.len(), input.len() > 0),
    }
}


// ─── Opening files ───────────────────────────────────────────────────────────

/// The options a file is opened with.
#[derive(Debug, PartialEq, Eq, Clone, Copy, Structural)]
pub struct OpenFlags {
    pub read: bool,
    pub write: bool,
    pub append: bool,
    pub create: bool,
    pub truncate: bool,
}

/// The options for a mode: `r` reads, `w` writes (creating and truncating),
/// `a` appends (creating); a `+` anywhere adds the other direction. `None`
/// for any mode that `valid_mode` refuses.
pub open spec fn spec_open_flags(mode: Seq<u8>) -> Option<OpenFlags> {
    if !valid_mode(mode) {
        None
    } else {
        let plus = mode.contains(43u8);
        if mode[0] == 114u8 {
            Some(OpenFlags { read: true, write: plus, append: false, create: false, truncate: false })
        } else if mode[0] == 119u8 {
            Some(OpenFlags { read: plus, write: true, append: false, create: true, truncate: true })
        } else if mode[0] == 97u8 {
            Some(OpenFlags { read: plus, write: false, append: true, create: true, truncate: false })
        } else {
            None
        }
    }
}

/// The options to open a file with for `mode` (see `spec_open_flags`).
pub fn open_opts_from_mode(mode: &[u8]) -> (r: Option<OpenFlags>)
    ensures
        r == spec_open_flags(mode@),
{
    if !check_mode(mode) {
        return None;
    }
    let mut plus: bool = false;
    let mut i: usize = 0;
    while i < mode.len()
        invariant
            i <= mode@.len(),
            plus == (exists|j: int| 0 <= j < i && mode@[j] == 43u8),
        decreases mode@.len() - i,
    {
        if mode[i] == 43u8 {
            plus = true;
        }
        i = i + 1;
    }
    proof {
        if plus {
            let j = choose|j: int| 0 <= j < mode@.len() && mode@[j] == 43u8;
            assert(mode@.contains(43u8));
        } else {
            assert(!mode@.contains(43u8));
        }
    }
    if mode[0] == 114u8 {
        Some(OpenFlags { read: true, write: plus, append: false, create: false, truncate: false })
    } else if mode[0] == 119u8 {
        Some(OpenFlags { read: plus, write: true, append: false, create: true, truncate: true })
    } else if mode[0] == 97u8 {
        Some(OpenFlags { read: plus, write: false, append: true, create: true, truncate: false })
    } else {
        None
    }
}


// ─── file:seek and file:setvbuf ──────────────────────────────────────────────

/// Where `file:seek` moves to: from the start, from the current position, or
/// from the end, by an offset.
#[derive(Debug, PartialEq, Eq, Clone, Copy, Structural)]
pub enum SeekPlan {
    Start(u64),
    Current(i64),
    End(i64),
}

/// Why `file:seek` or `file:setvbuf` refused its arguments.
#[derive(Debug, PartialEq, Eq, Clone, Copy, Structural)]
pub enum OptionError {
    /// `invalid option`: the name is not one of the accepted ones.
    InvalidOption,
    /// `not an integer in proper range`: a negative offset from the start.
    OffsetOutOfRange,
}

/// `set`, `cur`, `end`.
pub open spec fn seek_names() -> Seq<Seq<u8>> {
    seq![seq![115u8, 101u8, 116u8], seq![99u8, 117u8, 114u8], seq![101u8, 110u8, 100u8]]
}

/// `no`, `full`, `line`.
pub open spec fn vbuf_names() -> Seq<Seq<u8>> {
    seq![seq![110u8, 111u8], seq![102u8, 117u8, 108u8, 108u8], seq![108u8, 105u8, 110u8, 101u8]]
}

/// The index of the option named `name` (read as C reads it, up to a zero
/// byte) in `names`, if it is one.
pub open spec fn option_index(names: Seq<Seq<u8>>, name: Seq<u8>) -> Option<int> {
    if crate::lobject::cstr(name) == names[0] {
        Some(0)
    } else if crate::lobject::cstr(name) == names[1] {
        Some(1)
    } else if crate::lobject::cstr(name) == names[2] {
        Some(2)
    } else {
        None
    }
}

fn option_index_exec(n0: &[u8], n1: &[u8], n2: &[u8], name: &[u8]) -> (r: Option<usize>)
    ensures
        match option_index(seq![n0@, n1@, n2@], name@) {
            Some(k) => r == Some(k as usize),
            None => r is None,
        },
{
    let c = crate::lobject::cstr_exec(name);
    if crate::toml::bytes_eq(c.as_slice(), n0) {
        Some(0)
    } else if crate::toml::bytes_eq(c.as_slice(), n1) {
        Some(1)
    } else if crate::toml::bytes_eq(c.as_slice(), n2) {
        Some(2)
    } else {
        None
    }
}

/// What `file:seek(whence, offset)` does: `whence` defaults to `cur`; a
/// negative offset from the start is refused.
pub open spec fn spec_seek_plan(whence: Option<Seq<u8>>, offset: i64) -> Result<SeekPlan, OptionError> {
    let k = match whence {
        None => Some(1int),
        Some(w) => option_index(seek_names(), w),
    };
    match k {
        None => Err(OptionError::InvalidOption),
        Some(k) => if k == 0 {
            if offset < 0 {
                Err(OptionError::OffsetOutOfRange)
            } else {
                Ok(SeekPlan::Start(offset as u64))
            }
        } else if k == 1 {
            Ok(SeekPlan::Current(offset))
        } else {
            Ok(SeekPlan::End(offset))
        },
    }
}

/// Decides where `file:seek` moves (see `spec_seek_plan`).
pub fn seek_plan(whence: Option<&[u8]>, offset: i64) -> (r: Result<SeekPlan, OptionError>)
    ensures
        r == spec_seek_plan(
            match whence {
                Some(w) => Some(w@),
                None => None,
            },
            offset,
        ),
{
    let n0: [u8; 3] = [115u8, 101u8, 116u8];
    let n1: [u8; 3] = [99u8, 117u8, 114u8];
    let n2: [u8; 3] = [101u8, 110u8, 100u8];
    proof {
        assert(seq![n0@, n1@, n2@] =~= seek_names());
    }
    let k = match whence {
        None => Some(1usize),
        Some(w) => option_index_exec(n0.as_slice(), n1.as_slice(), n2.as_slice(), w),
    };
    match k {
        None => Err(OptionError::InvalidOption),
        Some(k) => if k == 0 {
            if offset < 0 {
                Err(OptionError::OffsetOutOfRange)
            } else {
                Ok(SeekPlan::Start(offset as u64))
            }
        } else if k == 1 {
            Ok(SeekPlan::Current(offset))
        } else {
            Ok(SeekPlan::End(offset))
        },
    }
}

/// How a file's writes are buffered after `file:setvbuf`.
#[derive(Debug, PartialEq, Eq, Clone, Copy, Structural)]
pub enum BufferMode {
    No,
    /// Full buffering, with a buffer of this size.
    Full(usize),
    Line,
}

/// What `file:setvbuf(mode, size)` sets: `no`, `full` (the size defaulting
/// to 1024) or `line`; any other name is refused.
pub open spec fn spec_buffer_mode(mode: Seq<u8>, size: Option<i64>) -> Result<BufferMode, OptionError> {
    match option_index(vbuf_names(), mode) {
        None => Err(OptionError::InvalidOption),
        Some(k) => if k == 0 {
            Ok(BufferMode::No)
        } else if k == 1 {
            Ok(
                BufferMode::Full(
                    match size {
                        Some(n) => n as usize,
                        None => 1024usize,
                    },
                ),
            )
        } else {
            Ok(BufferMode::Line)
        },
    }
}

/// Decides the buffering `file:setvbuf` sets (see `spec_buffer_mode`).
pub fn buffer_mode(mode: &[u8], size: Option<i64>) -> (r: Result<BufferMode, OptionError>)
    ensures
        r == spec_buffer_mode(mode@, size),
{
    let n0: [u8; 2] = [110u8, 111u8];
    let n1: [u8; 4] = [102u8, 117u8, 108u8, 108u8];
    let n2: [u8; 4] = [108u8, 105u8, 110u8, 101u8];
    proof {
        assert(seq![n0@, n1@, n2@] =~= vbuf_names());
    }
    match option_index_exec(n0.as_slice(), n1.as_slice(), n2.as_slice(), mode) {
        None => Err(OptionError::InvalidOption),
        Some(k) => if k == 0 {
            Ok(BufferMode::No)
        } else if k == 1 {
            Ok(
                BufferMode::Full(
                    match size {
                        Some(n) => n as usize,
                        None => 1024usize,
                    },
                ),
            )
        } else {
            Ok(BufferMode::Line)
        },
    }
}


// ─── file:read ───────────────────────────────────────────────────────────────

/// An argument of `read`: a byte count, or a format string.
#[derive(Debug, Clone, PartialEq, Eq)]
pub enum ReadArg {
    Count(i64),
    Format(Vec<u8>),
}

pub enum ReadArgModel {
    Count(i64),
    Format(Seq<u8>),
}

impl ReadArg {
    pub open spec fn model(&self) -> ReadArgModel {
        match self {
            ReadArg::Count(n) => ReadArgModel::Count(*n),
            ReadArg::Format(f) => ReadArgModel::Format(f@),
        }
    }
}

/// A value that `read` gives back.
#[derive(Debug, Clone, PartialEq, Eq)]
pub enum ReadValue {
    /// A string.
    Str(Vec<u8>),
    /// A numeral that is an integer.
    Int(i64),
    /// A numeral that is a float, as its text (to be converted).
    Float(Vec<u8>),
    /// `nil`: the read failed.
    Nil,
}

pub enum ReadValueModel {
    Str(Seq<u8>),
    Int(i64),
    Float(Seq<u8>),
    Nil,
}

impl ReadValue {
    pub open spec fn model(&self) -> ReadValueModel {
        match self {
            ReadValue::Str(s) => ReadValueModel::Str(s@),
            ReadValue::Int(i) => ReadValueModel::Int(*i),
            ReadValue::Float(t) => ReadValueModel::Float(t@),
            ReadValue::Nil => ReadValueModel::Nil,
        }
    }
}

pub open spec fn read_values_model(v: Seq<ReadValue>) -> Seq<ReadValueModel> {
    v.map_values(|x: ReadValue| x.model())
}

/// A float numeral as the C library reads one, the whole text: a sign,
/// then decimal digits with an optional fraction and an optional exponent
/// `e` with at least one digit; or `0x`, hexadecimal digits with an
/// optional fraction and an optional exponent `p`. At least one digit before
/// the exponent.
pub open spec fn float_numeral(t: Seq<u8>) -> bool {
    let i0: int = if t.len() > 0 && (t[0] == 43u8 || t[0] == 45u8) { 1 } else { 0 };
    let hex = i0 + 1 < t.len() && t[i0] == 48u8 && (t[i0 + 1] == 120u8 || t[i0 + 1] == 88u8);
    let m0 = if hex { i0 + 2 } else { i0 };
    let m1 = crate::lobject::digit_span(t, m0, hex);
    let f0 = if m1 < t.len() && t[m1] == 46u8 { m1 + 1 } else { m1 };
    let f1 = crate::lobject::digit_span(t, f0, hex);
    let e0 = f1;
    let echar = e0 < t.len() && (if hex { t[e0] == 112u8 || t[e0] == 80u8 } else { t[e0] == 101u8 || t[e0] == 69u8 });
    let s0 = if e0 + 1 < t.len() && (t[e0 + 1] == 43u8 || t[e0 + 1] == 45u8) { e0 + 2 } else { e0 + 1 };
    let s1 = crate::lobject::digit_span(t, s0, false);
    &&& (m1 - m0) + (f1 - f0) > 0
    &&& (e0 == t.len() || (echar && s1 > s0 && s1 == t.len()))
}

/// The number a numeral converts to: an integer when it reads as one, else
/// a float when it reads as one; `None` when it is no number.
pub open spec fn numeral_value(t: Seq<u8>) -> Option<ReadValueModel> {
    match crate::lobject::spec_str2int(t) {
        Some((v, _)) => Some(ReadValueModel::Int(v as i64)),
        None => if float_numeral(t) {
            Some(ReadValueModel::Float(t))
        } else {
            None
        },
    }
}

/// One read from position `p` of `input` for argument `a`: the value, the
/// position after it, and whether it succeeded; `None` for an invalid
/// format. A count of 0 tests for the end of the file; another count reads
/// up to that many bytes (all that is left for a negative count).
pub open spec fn spec_read_item(input: Seq<u8>, p: int, a: ReadArgModel, point: u8) -> Option<(ReadValueModel, int, bool)> {
    let rest = input.subrange(p, input.len() as int);
    match a {
        ReadArgModel::Count(l) => if l == 0 {
            Some((ReadValueModel::Str(Seq::empty()), p, p < input.len()))
        } else {
            let k: int = if l < 0 || l >= rest.len() { rest.len() as int } else { l as int };
            Some((ReadValueModel::Str(rest.take(k)), p + k, k > 0))
        },
        ReadArgModel::Format(f) => match spec_read_format(f) {
            None => None,
            Some(ReadFormat::Number) => {
                let (o, c) = spec_read_numeral(rest, point);
                match o {
                    None => Some((ReadValueModel::Nil, p + c, false)),
                    Some(t) => match numeral_value(t) {
                        Some(v) => Some((v, p + c, true)),
                        None => Some((ReadValueModel::Nil, p + c, false)),
                    },
                }
            },
            Some(ReadFormat::Line) => {
                let (l, c, ok) = spec_read_line(rest, false);
                Some((ReadValueModel::Str(l), p + c, ok))
            },
            Some(ReadFormat::LineKeep) => {
                let (l, c, ok) = spec_read_line(rest, true);
                Some((ReadValueModel::Str(l), p + c, ok))
            },
            Some(ReadFormat::All) => Some((ReadValueModel::Str(rest), input.len() as int, true)),
        },
    }
}

/// The reads for arguments `i` on, from position `p`: each value in turn,
/// stopping after the first read that fails, whose value is `nil`; `Err`
/// with the index of an invalid format. Also gives the final position.
pub open spec fn spec_reads(input: Seq<u8>, p: int, args: Seq<ReadArgModel>, i: int, point: u8) -> Result<(Seq<ReadValueModel>, int), int>
    decreases args.len() - i,
{
    if i < 0 || i >= args.len() {
        Ok((Seq::empty(), p))
    } else {
        match spec_read_item(input, p, args[i], point) {
            None => Err(i),
            Some((v, q, ok)) => if ok {
                match spec_reads(input, q, args, i + 1, point) {
                    Ok((vs, r)) => Ok((seq![v] + vs, r)),
                    Err(e) => Err(e),
                }
            } else {
                Ok((seq![ReadValueModel::Nil], q))
            },
        }
    }
}

/// `file:read(...)` on a file whose remaining bytes are `input`: with no
/// argument, one line; else the reads of the arguments (see `spec_reads`).
pub open spec fn spec_g_read(input: Seq<u8>, args: Seq<ReadArgModel>, point: u8) -> Result<(Seq<ReadValueModel>, int), int> {
    if args.len() == 0 {
        let (l, c, ok) = spec_read_line(input, false);
        Ok((seq![if ok { ReadValueModel::Str(l) } else { ReadValueModel::Nil }], c as int))
    } else {
        spec_reads(input, 0, args, 0, point)
    }
}

/// Tells whether `t` is a float numeral (see `float_numeral`).
pub fn is_float_numeral(t: &[u8]) -> (r: bool)
    ensures
        r == float_numeral(t@),
{
    let n = t.len();
    let i0: usize = if n > 0 && (t[0] == 43u8 || t[0] == 45u8) { 1 } else { 0 };
    let hex = i0 + 1 < n && t[i0] == 48u8 && (t[i0 + 1] == 120u8 || t[i0 + 1] == 88u8);
    let m0 = if hex { i0 + 2 } else { i0 };
    let m1 = crate::lobject::digits_end(t, m0, hex);
    let f0 = if m1 < n && t[m1] == 46u8 { m1 + 1 } else { m1 };
    let f1 = crate::lobject::digits_end(t, f0, hex);
    let e0 = f1;
    if (m1 - m0) + (f1 - f0) == 0 {
        return false;
    }
    if e0 == n {
        return true;
    }
    let echar = if hex { t[e0] == 112u8 || t[e0] == 80u8 } else { t[e0] == 101u8 || t[e0] == 69u8 };
    if !echar {
        return false;
    }
    let s0 = if e0 + 1 < n && (t[e0 + 1] == 43u8 || t[e0 + 1] == 45u8) { e0 + 2 } else { e0 + 1 };
    if s0 > n {
        return false;
    }
    let s1 = crate::lobject::digits_end(t, s0, false);
    s1 > s0 && s1 == n
}

/// Converts a numeral read by `read("n")` (see `numeral_value`).
pub fn numeral_to_value(t: &[u8]) -> (r: Option<ReadValue>)
    ensures
        match numeral_value(t@) {
            Some(m) => r matches Some(v) && v.model() == m,
            None => r is None,
        },
{
    match crate::lobject::l_str2int(t) {
        Some((v, _)) => Some(ReadValue::Int(v)),
        None => if is_float_numeral(t) {
            Some(ReadValue::Float(vstd::slice::slice_to_vec(t)))
        } else {
            None
        },
    }
}

/// One read (see `spec_read_item`).
pub fn read_item(input: &[u8], p: usize, a: &ReadArg, point: u8) -> (r: Option<(ReadValue, usize, bool)>)
    requires
        p <= input@.len(),
    ensures
        match spec_read_item(input@, p as int, a.model(), point) {
            Some((v, q, ok)) => r matches Some((x, q2, ok2)) && x.model() == v && q2 as int == q && ok2 == ok,
            None => r is None,
        },
        r matches Some((_, q2, _)) ==> p <= q2 <= input@.len(),
{
    let rest = &input[p..input.len()];
    proof {
        assert(rest@ =~= input@.subrange(p as int, input@.len() as int));
    }
    match a {
        ReadArg::Count(l) => {
            let l = *l;
            if l == 0 {
                Some((ReadValue::Str(Vec::new()), p, p < input.len()))
            } else {
                let k: usize = if l < 0 || (l as u64) >= (rest.len() as u64) { rest.len() } else { l as usize };
                let taken = vstd::slice::slice_to_vec(&rest[0..k]);
                proof {
                    assert(rest@.subrange(0, k as int) =~= rest@.take(k as int));
                }
                Some((ReadValue::Str(taken), p + k, k > 0))
            }
        },
        ReadArg::Format(f) => match read_format(f.as_slice()) {
            None => None,
            Some(ReadFormat::Number) => {
                let (o, c) = read_numeral(rest, point);
                match o {
                    None => Some((ReadValue::Nil, p + c, false)),
                    Some(t) => match numeral_to_value(t.as_slice()) {
                        Some(v) => Some((v, p + c, true)),
                        None => Some((ReadValue::Nil, p + c, false)),
                    },
                }
            },
            Some(ReadFormat::Line) => {
                let (l, c, ok) = read_line(rest, false);
                proof {
                    lemma_read_line_len(rest@, false);
                }
                Some((ReadValue::Str(l), p + c, ok))
            },
            Some(ReadFormat::LineKeep) => {
                let (l, c, ok) = read_line(rest, true);
                proof {
                    lemma_read_line_len(rest@, true);
                }
                Some((ReadValue::Str(l), p + c, ok))
            },
            Some(ReadFormat::All) => Some((ReadValue::Str(vstd::slice::slice_to_vec(rest)), input.len(), true)),
        },
    }
}

proof fn lemma_read_line_len(input: Seq<u8>, keep: bool)
    ensures
        spec_read_line(input, keep).1 <= input.len(),
{
    if let Some(p) = crate::urllib::first_index(input, 10u8, 0) {
        crate::urllib::lemma_first_index(input, 10u8, 0);
    }
}

/// `file:read(...)` on a file whose remaining bytes are `input` (see
/// `spec_g_read`): the values and how many bytes were consumed, or the
/// index of an invalid format. `point` is the locale's decimal point.
pub fn g_read(input: &[u8], args: &[ReadArg], point: u8) -> (r: Result<(Vec<ReadValue>, usize), usize>)
    ensures
        match spec_g_read(input@, args@.map_values(|a: ReadArg| a.model()), point) {
            Ok((vs, q)) => r matches Ok((v, q2)) && read_values_model(v@) == vs && q2 as int == q,
            Err(i) => r == Err::<(Vec<ReadValue>, usize), usize>(i as usize),
        },
{
    let ghost am = args@.map_values(|a: ReadArg| a.model());
    if args.len() == 0 {
        let (l, c, ok) = read_line(input, false);
        let mut v: Vec<ReadValue> = Vec::new();
        v.push(if ok { ReadValue::Str(l) } else { ReadValue::Nil });
        proof {
            assert(read_values_model(v@) =~= seq![v@[0].model()]);
        }
        return Ok((v, c));
    }
    let mut values: Vec<ReadValue> = Vec::new();
    let mut p: usize = 0;
    let mut i: usize = 0;
    proof {
        assert(read_values_model(values@) + Seq::<ReadValueModel>::empty() =~= Seq::<ReadValueModel>::empty());
    }
    while i < args.len()
        invariant
            am == args@.map_values(|a: ReadArg| a.model()),
            am.len() == args.len(),
            i <= args.len(),
            p <= input@.len(),
            values.len() == i,
            spec_reads(input@, 0, am, 0, point) == match spec_reads(input@, p as int, am, i as int, point) {
                Ok((vs, q)) => Ok((read_values_model(values@) + vs, q)),
                Err(e) => Err(e),
            },
        decreases args.len() - i,
    {
        let ghost before = read_values_model(values@);
        proof {
            assert(am[i as int] == args@[i as int].model());
        }
        match read_item(input, p, &args[i], point) {
            None => return Err(i),
            Some((v, q, ok)) => {
                let ghost vm = v.model();
                values.push(v);
                if !ok {
                    values.pop();
                    values.push(ReadValue::Nil);
                    proof {
                        assert(read_values_model(values@) =~= before + seq![ReadValueModel::Nil]);
                    }
                    return Ok((values, q));
                }
                proof {
                    assert(read_values_model(values@) =~= before.push(vm));
                    match spec_reads(input@, q as int, am, i + 1, point) {
                        Ok((vs, r)) => {
                            assert(before.push(vm) + vs =~= before + (seq![vm] + vs));
                        },
                        Err(_) => {},
                    }
                }
                p = q;
                i = i + 1;
            },
        }
    }
    proof {
        assert(read_values_model(values@) + Seq::<ReadValueModel>::empty() =~= read_values_model(values@));
    }
    Ok((values, p))
}

} // verus!
