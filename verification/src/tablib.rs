//! The table library's sort: Lua's quicksort with median-of-three pivots,
//! on a sequence ordered by `<` or by a comparison function.
use vstd::prelude::*;

verus! {

broadcast use {vstd::seq_lib::group_to_multiset_ensures, vstd::multiset::group_multiset_axioms};

/// The elements at Lua positions `lo ..= hi` (position `k` is `s[k - 1]`).
pub open spec fn seg<T>(s: Seq<T>, lo: int, hi: int) -> Seq<T> {
    s.subrange(lo - 1, hi)
}

/// `t` is `s` with the elements at positions `lo ..= hi` rearranged.
pub open spec fn perm_seg<T>(s: Seq<T>, t: Seq<T>, lo: int, hi: int) -> bool {
    &&& s.len() == t.len()
    &&& forall|k: int| 0 <= k < s.len() && !(lo - 1 <= k < hi) ==> #[trigger] t[k] == s[k]
    &&& seg(t, lo, hi).to_multiset() == seg(s, lo, hi).to_multiset()
}

/// `a` may come before `b` under the order `ord`: `b` does not come
/// strictly before `a`.
pub open spec fn le_by<T>(ord: spec_fn(T, T) -> bool, a: T, b: T) -> bool {
    !ord(b, a)
}

/// `ord` is a strict weak order: irreflexive, transitive, and with
/// incomparability transitive too.
pub open spec fn strict_weak_order<T>(ord: spec_fn(T, T) -> bool) -> bool {
    &&& forall|a: T| !#[trigger] ord(a, a)
    &&& forall|a: T, b: T, c: T| #[trigger] ord(a, b) && #[trigger] ord(b, c) ==> ord(a, c)
    &&& forall|a: T, b: T, c: T| !#[trigger] ord(a, b) && !#[trigger] ord(b, c) ==> !ord(a, c)
}

/// `ord` is a strict weak order on the values that occur in `dom`:
/// irreflexive, transitive, and with incomparability transitive, as far as
/// values of `dom` go; what it does elsewhere does not matter.
pub open spec fn swo_on<T>(ord: spec_fn(T, T) -> bool, dom: Seq<T>) -> bool {
    &&& forall|a: T| dom.contains(a) ==> !#[trigger] ord(a, a)
    &&& forall|a: T, b: T, c: T|
        dom.contains(a) && dom.contains(b) && dom.contains(c) && #[trigger] ord(a, b) && #[trigger] ord(b, c)
            ==> ord(a, c)
    &&& forall|a: T, b: T, c: T|
        dom.contains(a) && dom.contains(b) && dom.contains(c) && !#[trigger] ord(a, b) && !#[trigger] ord(b, c)
            ==> !ord(a, c)
}

/// The comparison `lt` can be called on any two values of `dom`, and there
/// it computes `ord`.
pub open spec fn computes_on<T, F: Fn(T, T) -> bool>(lt: F, ord: spec_fn(T, T) -> bool, dom: Seq<T>) -> bool {
    &&& forall|a: T, b: T| dom.contains(a) && dom.contains(b) ==> #[trigger] lt.requires((a, b))
    &&& forall|a: T, b: T, r: bool|
        dom.contains(a) && dom.contains(b) && #[trigger] lt.ensures((a, b), r) ==> r == ord(a, b)
}

/// Every element at positions `lo ..= hi` of `s` occurs in `dom`.
pub open spec fn within<T>(s: Seq<T>, lo: int, hi: int, dom: Seq<T>) -> bool {
    forall|k: int| lo <= k <= hi ==> dom.contains(#[trigger] s[k - 1])
}

/// `ord` on the values of `dom`, every value of `dom` before every other
/// value, and the other values all equivalent.
pub open spec fn extend_order<T>(ord: spec_fn(T, T) -> bool, dom: Seq<T>) -> spec_fn(T, T) -> bool {
    |a: T, b: T|
        if dom.contains(a) && dom.contains(b) {
            ord(a, b)
        } else {
            dom.contains(a) && !dom.contains(b)
        }
}

/// An order that is a strict weak order on `dom` extends to one on all
/// values that agrees with it on `dom`.
proof fn lemma_extend_order<T>(ord: spec_fn(T, T) -> bool, dom: Seq<T>)
    requires
        swo_on(ord, dom),
    ensures
        strict_weak_order(extend_order(ord, dom)),
        forall|a: T, b: T|
            dom.contains(a) && dom.contains(b) ==> #[trigger] extend_order(ord, dom)(a, b) == ord(a, b),
{
    let e = extend_order(ord, dom);
    assert forall|a: T, b: T, c: T| #[trigger] e(a, b) && #[trigger] e(b, c) implies e(a, c) by {
        if dom.contains(c) {
            assert(ord(a, b) && ord(b, c));
        }
    }
    assert forall|a: T, b: T, c: T| !#[trigger] e(a, b) && !#[trigger] e(b, c) implies !e(a, c) by {
        if dom.contains(a) && dom.contains(b) && dom.contains(c) {
            assert(!ord(a, b) && !ord(b, c));
        }
    }
}

/// Rearranging positions `lo ..= hi` keeps them within `dom`.
proof fn lemma_within_perm<T>(a: Seq<T>, b: Seq<T>, lo: int, hi: int, dom: Seq<T>)
    requires
        perm_seg(a, b, lo, hi),
        within(a, lo, hi, dom),
        1 <= lo,
        hi <= a.len(),
    ensures
        within(b, lo, hi, dom),
{
    assert forall|k: int| lo <= k <= hi implies dom.contains(#[trigger] b[k - 1]) by {
        let k2 = lemma_perm_member(a, b, lo, hi, k);
        assert(dom.contains(a[k2 - 1]));
    }
}

/// The elements at positions `lo ..= hi` are in order under `ord`.
pub open spec fn sorted_seg<T>(ord: spec_fn(T, T) -> bool, s: Seq<T>, lo: int, hi: int) -> bool {
    forall|a: int, b: int| lo <= a <= b <= hi ==> le_by(ord, #[trigger] s[a - 1], #[trigger] s[b - 1])
}

/// `s` with the elements at positions `i` and `j` exchanged.
pub open spec fn swapped<T>(s: Seq<T>, i: int, j: int) -> Seq<T> {
    s.update(i - 1, s[j - 1]).update(j - 1, s[i - 1])
}

proof fn lemma_swap_perm<T>(s: Seq<T>, lo: int, hi: int, i: int, j: int)
    requires
        1 <= lo <= i <= hi,
        lo <= j <= hi,
        hi <= s.len(),
    ensures
        perm_seg(s, swapped(s, i, j), lo, hi),
{
    let t = swapped(s, i, j);
    let a = seg(s, lo, hi);
    let a1 = a.update(i - lo, s[j - 1]);
    let a2 = a1.update(j - lo, s[i - 1]);
    assert(seg(t, lo, hi) =~= a2);
    vstd::seq_lib::to_multiset_update(a, i - lo, s[j - 1]);
    vstd::seq_lib::to_multiset_update(a1, j - lo, s[i - 1]);
    assert(a1[j - lo] == s[j - 1]);
    assert(a2.to_multiset() =~= a.to_multiset());
}

proof fn lemma_perm_refl<T>(s: Seq<T>, lo: int, hi: int)
    ensures
        perm_seg(s, s, lo, hi),
{
}

proof fn lemma_perm_trans<T>(a: Seq<T>, b: Seq<T>, c: Seq<T>, lo: int, hi: int)
    requires
        perm_seg(a, b, lo, hi),
        perm_seg(b, c, lo, hi),
    ensures
        perm_seg(a, c, lo, hi),
{
    assert forall|k: int| 0 <= k < a.len() && !(lo - 1 <= k < hi) implies #[trigger] c[k] == a[k] by {
        assert(c[k] == b[k]);
    }
}

/// Rearranging a part of a range rearranges the range.
proof fn lemma_perm_widen<T>(a: Seq<T>, b: Seq<T>, lo: int, hi: int, lo2: int, hi2: int)
    requires
        perm_seg(a, b, lo, hi),
        1 <= lo2 <= lo,
        lo <= hi + 1,
        hi <= hi2 <= a.len(),
    ensures
        perm_seg(a, b, lo2, hi2),
{
    let l_a = a.subrange(lo2 - 1, lo - 1);
    let l_b = b.subrange(lo2 - 1, lo - 1);
    let r_a = a.subrange(hi, hi2);
    let r_b = b.subrange(hi, hi2);
    assert(l_a =~= l_b);
    assert(r_a =~= r_b);
    assert(seg(a, lo2, hi2) =~= l_a + seg(a, lo, hi) + r_a);
    assert(seg(b, lo2, hi2) =~= l_b + seg(b, lo, hi) + r_b);
    vstd::seq_lib::lemma_multiset_commutative(l_a, seg(a, lo, hi));
    vstd::seq_lib::lemma_multiset_commutative(l_a + seg(a, lo, hi), r_a);
    vstd::seq_lib::lemma_multiset_commutative(l_b, seg(b, lo, hi));
    vstd::seq_lib::lemma_multiset_commutative(l_b + seg(b, lo, hi), r_b);
}

/// Each element of a rearranged range was in the range before.
proof fn lemma_perm_member<T>(a: Seq<T>, b: Seq<T>, lo: int, hi: int, k: int) -> (k2: int)
    requires
        perm_seg(a, b, lo, hi),
        1 <= lo <= k <= hi,
        hi <= a.len(),
    ensures
        lo <= k2 <= hi,
        b[k - 1] == a[k2 - 1],
{
    let x = b[k - 1];
    assert(seg(b, lo, hi)[k - lo] == x);
    assert(seg(b, lo, hi).contains(x));
    vstd::seq_lib::to_multiset_contains(seg(b, lo, hi), x);
    vstd::seq_lib::to_multiset_contains(seg(a, lo, hi), x);
    let i = choose|i: int| 0 <= i < seg(a, lo, hi).len() && seg(a, lo, hi)[i] == x;
    i + lo
}


/// The element at position `i`.
fn get<T: Copy>(v: &Vec<T>, i: u32) -> (x: T)
    requires
        1 <= i <= v.len(),
    ensures
        x == v@[i - 1],
{
    v[(i - 1) as usize]
}

/// Exchanges the elements at positions `i` and `j`.
fn swap<T: Copy>(v: &mut Vec<T>, i: u32, j: u32)
    requires
        1 <= i <= old(v).len(),
        1 <= j <= old(v).len(),
    ensures
        final(v)@ == swapped(old(v)@, i as int, j as int),
{
    let a = v[(i - 1) as usize];
    let b = v[(j - 1) as usize];
    v.set((i - 1) as usize, b);
    v.set((j - 1) as usize, a);
}

/// Splits positions `low ..= high` around the pivot `pivot`, which stands at
/// `high - 1`, with `le_by(ord, v[low], pivot) <= v[high]`: the elements before the
/// returned position are at most the pivot, those after it at least, and the
/// pivot stands at it. The two scans stop at the sentinels `low` and
/// `high - 1`, so they never leave the range.
fn partition<T: Copy, F: Fn(T, T) -> bool>(
    v: &mut Vec<T>,
    low: u32,
    high: u32,
    pivot: T,
    lt: &F,
    Ghost(ord): Ghost<spec_fn(T, T) -> bool>,
    Ghost(dom): Ghost<Seq<T>>,
) -> (p: u32)
    requires
        1 <= low,
        low + 3 <= high,
        high <= old(v).len(),
        old(v)@[high - 2] == pivot,
        le_by(ord, old(v)@[low - 1], pivot),
        le_by(ord, pivot, old(v)@[high - 1]),
        strict_weak_order(ord),
        computes_on(*lt, ord, dom),
        within(old(v)@, low as int, high as int, dom),
    ensures
        low < p < high,
        final(v)@[p - 1] == pivot,
        forall|k: int| low <= k < p ==> le_by(ord, #[trigger] final(v)@[k - 1], pivot),
        forall|k: int| p < k <= high ==> le_by(ord, pivot, #[trigger] final(v)@[k - 1]),
        perm_seg(old(v)@, final(v)@, low as int, high as int),
{
    let ghost v0 = v@;
    assert(dom.contains(v0[(high - 1) - 1]));
    let mut i: u32 = low;
    let mut j: u32 = high - 1;
    loop
        invariant
            1 <= low <= i,
            low + 3 <= high,
            high <= v.len(),
            i < high - 1,
            i <= j <= high - 1,
            low + 1 <= j,
            v0 == old(v)@,
            v@[high - 2] == pivot,
            strict_weak_order(ord),
            computes_on(*lt, ord, dom),
            within(v0, low as int, high as int, dom),
            dom.contains(pivot),
            forall|k: int| low <= k <= i ==> le_by(ord, #[trigger] v@[k - 1], pivot),
            forall|k: int| j <= k <= high ==> le_by(ord, pivot, #[trigger] v@[k - 1]),
            perm_seg(v0, v@, low as int, high as int),
        decreases high - i,
    {
        let ghost i_top = i;
        loop
            invariant_except_break
                i < high - 1,
                forall|k: int| low <= k <= i ==> le_by(ord, #[trigger] v@[k - 1], pivot),
            invariant
                strict_weak_order(ord),
                computes_on(*lt, ord, dom),
                within(v0, low as int, high as int, dom),
                dom.contains(pivot),
                1 <= low <= i,
                i_top <= i,
                low + 3 <= high,
                high <= v.len(),
                low + 1 <= j <= high - 1,
                i_top <= j,
                v@[high - 2] == pivot,
                forall|k: int| j <= k <= high ==> le_by(ord, pivot, #[trigger] v@[k - 1]),
                perm_seg(v0, v@, low as int, high as int),
            ensures
                low < i <= high - 1,
                i_top < i,
                le_by(ord, pivot, v@[i - 1]),
                forall|k: int| low <= k < i ==> le_by(ord, #[trigger] v@[k - 1], pivot),
            decreases high - i,
        {
            i = i + 1;
            proof {
                lemma_within_perm(v0, v@, low as int, high as int, dom);
            }
            if !lt(get(v, i), pivot) {
                break;
            }
        }
        loop
            invariant_except_break
                j >= low + 1,
                forall|k: int| j <= k <= high ==> le_by(ord, pivot, #[trigger] v@[k - 1]),
            invariant
                strict_weak_order(ord),
                computes_on(*lt, ord, dom),
                within(v0, low as int, high as int, dom),
                dom.contains(pivot),
                1 <= low < i <= high - 1,
                high <= v.len(),
                j <= high - 1,
                v@[high - 2] == pivot,
                le_by(ord, pivot, v@[i - 1]),
                forall|k: int| low <= k < i ==> le_by(ord, #[trigger] v@[k - 1], pivot),
                perm_seg(v0, v@, low as int, high as int),
            ensures
                low <= j < high - 1,
                le_by(ord, v@[j - 1], pivot),
                forall|k: int| j < k <= high ==> le_by(ord, pivot, #[trigger] v@[k - 1]),
            decreases j,
        {
            j = j - 1;
            proof {
                lemma_within_perm(v0, v@, low as int, high as int, dom);
            }
            if !lt(pivot, get(v, j)) {
                break;
            }
        }
        if j < i {
            let ghost before = v@;
            swap(v, high - 1, i);
            proof {
                lemma_swap_perm(before, low as int, high as int, (high - 1) as int, i as int);
                lemma_perm_trans(v0, before, v@, low as int, high as int);
            }
            return i;
        }
        let ghost before = v@;
        swap(v, i, j);
        proof {
            lemma_swap_perm(before, low as int, high as int, i as int, j as int);
            lemma_perm_trans(v0, before, v@, low as int, high as int);
        }
    }
}


/// Positions `lo0 ..= hi0` are being sorted and `low ..= high` is what is
/// left: the parts on either side of it are sorted, and nothing on the left
/// of it is above, nothing on its right below, what lies beyond.
pub open spec fn framed<T>(ord: spec_fn(T, T) -> bool, s: Seq<T>, lo0: int, low: int, high: int, hi0: int) -> bool {
    &&& sorted_seg(ord, s, lo0, low - 1)
    &&& sorted_seg(ord, s, high + 1, hi0)
    &&& forall|a: int, b: int|
        lo0 <= a < low && low <= b <= hi0 ==> le_by(ord, #[trigger] s[a - 1], #[trigger] s[b - 1])
    &&& forall|a: int, b: int|
        lo0 <= a <= high && high < b <= hi0 ==> le_by(ord, #[trigger] s[a - 1], #[trigger] s[b - 1])
}

/// Rearranging inside the range that is left keeps the frame.
proof fn lemma_frame_perm<T>(
    ord: spec_fn(T, T) -> bool, 
    s: Seq<T>,
    t: Seq<T>,
    lo0: int,
    low: int,
    high: int,
    hi0: int,
    lo: int,
    hi: int,
)
    requires
        strict_weak_order(ord),
        framed(ord, s, lo0, low, high, hi0),
        perm_seg(s, t, lo, hi),
        1 <= lo0 <= low <= lo <= hi <= high <= hi0 <= s.len(),
    ensures
        framed(ord, t, lo0, low, high, hi0),
{
    assert forall|a: int, b: int| lo0 <= a < low && low <= b <= hi0 implies le_by(ord, #[trigger] t[a - 1], #[trigger] t[b - 1]) by {
        assert(t[a - 1] == s[a - 1]);
        if lo <= b <= hi {
            let b2 = lemma_perm_member(s, t, lo, hi, b);
            assert(le_by(ord, s[a - 1], s[b2 - 1]));
        } else {
            assert(t[b - 1] == s[b - 1]);
        }
    }
    assert forall|a: int, b: int| lo0 <= a <= high && high < b <= hi0 implies le_by(ord, #[trigger] t[a - 1], #[trigger] t[b - 1]) by {
        assert(t[b - 1] == s[b - 1]);
        if lo <= a <= hi {
            let a2 = lemma_perm_member(s, t, lo, hi, a);
            assert(le_by(ord, s[a2 - 1], s[b - 1]));
        } else {
            assert(t[a - 1] == s[a - 1]);
        }
    }
    assert forall|a: int, b: int| lo0 <= a <= b <= low - 1 implies le_by(ord, #[trigger] t[a - 1], #[trigger] t[b - 1]) by {
        assert(t[a - 1] == s[a - 1]);
        assert(t[b - 1] == s[b - 1]);
    }
    assert forall|a: int, b: int| high + 1 <= a <= b <= hi0 implies le_by(ord, #[trigger] t[a - 1], #[trigger] t[b - 1]) by {
        assert(t[a - 1] == s[a - 1]);
        assert(t[b - 1] == s[b - 1]);
    }
}

/// A sorted middle in a frame makes the whole range sorted.
proof fn lemma_frame_close<T>(
    ord: spec_fn(T, T) -> bool, s: Seq<T>, lo0: int, low: int, high: int, hi0: int)
    requires
        strict_weak_order(ord),
        framed(ord, s, lo0, low, high, hi0),
        sorted_seg(ord, s, low, high),
        lo0 <= low <= high <= hi0,
    ensures
        sorted_seg(ord, s, lo0, hi0),
{
    assert forall|a: int, b: int| lo0 <= a <= b <= hi0 implies le_by(ord, #[trigger] s[a - 1], #[trigger] s[b - 1]) by {
        if a < low {
        } else if b > high {
        } else {
        }
    }
}

/// After the part left of the pivot at `p` has been sorted, what is left
/// is the part right of it.
proof fn lemma_frame_left<T>(
    ord: spec_fn(T, T) -> bool, 
    t1: Seq<T>,
    t2: Seq<T>,
    lo0: int,
    low: int,
    high: int,
    hi0: int,
    p: int,
    pivot: T,
)
    requires
        strict_weak_order(ord),
        framed(ord, t1, lo0, low, high, hi0),
        1 <= lo0 <= low < p < high <= hi0 <= t1.len(),
        t1[p - 1] == pivot,
        forall|k: int| low <= k < p ==> le_by(ord, #[trigger] t1[k - 1], pivot),
        forall|k: int| p < k <= high ==> le_by(ord, pivot, #[trigger] t1[k - 1]),
        perm_seg(t1, t2, low, p - 1),
        sorted_seg(ord, t2, low, p - 1),
    ensures
        framed(ord, t2, lo0, p + 1, high, hi0),
{
    assert forall|a: int, b: int| lo0 <= a <= b <= p implies le_by(ord, #[trigger] t2[a - 1], #[trigger] t2[b - 1]) by {
        if a < low {
            assert(t2[a - 1] == t1[a - 1]);
            if low <= b <= p - 1 {
                let b2 = lemma_perm_member(t1, t2, low, p - 1, b);
                assert(le_by(ord, t1[a - 1], t1[b2 - 1]));
            } else {
                assert(t2[b - 1] == t1[b - 1]);
            }
        } else if b == p {
            assert(t2[b - 1] == pivot);
            if a < p {
                let a2 = lemma_perm_member(t1, t2, low, p - 1, a);
                assert(le_by(ord, t1[a2 - 1], pivot));
            }
        }
    }
    assert forall|a: int, b: int| lo0 <= a < p + 1 && p + 1 <= b <= hi0 implies le_by(ord, #[trigger] t2[a - 1], #[trigger] t2[b - 1]) by {
        assert(t2[b - 1] == t1[b - 1]);
        if a < low {
            assert(t2[a - 1] == t1[a - 1]);
        } else if a < p {
            let a2 = lemma_perm_member(t1, t2, low, p - 1, a);
            if b <= high {
                assert(le_by(ord, t1[a2 - 1], pivot));
            } else {
                assert(le_by(ord, t1[a2 - 1], t1[b - 1]));
            }
        } else {
            assert(t2[a - 1] == pivot);
            if b > high {
                assert(le_by(ord, t1[p - 1], t1[b - 1]));
            }
        }
    }
    assert forall|a: int, b: int| lo0 <= a <= high && high < b <= hi0 implies le_by(ord, #[trigger] t2[a - 1], #[trigger] t2[b - 1]) by {
        assert(t2[b - 1] == t1[b - 1]);
        if low <= a < p {
            let a2 = lemma_perm_member(t1, t2, low, p - 1, a);
            assert(le_by(ord, t1[a2 - 1], t1[b - 1]));
        } else {
            assert(t2[a - 1] == t1[a - 1]);
        }
    }
    assert forall|a: int, b: int| high + 1 <= a <= b <= hi0 implies le_by(ord, #[trigger] t2[a - 1], #[trigger] t2[b - 1]) by {
        assert(t2[a - 1] == t1[a - 1]);
        assert(t2[b - 1] == t1[b - 1]);
    }
}

/// After the part right of the pivot at `p` has been sorted, what is left
/// is the part left of it.
proof fn lemma_frame_right<T>(
    ord: spec_fn(T, T) -> bool, 
    t1: Seq<T>,
    t2: Seq<T>,
    lo0: int,
    low: int,
    high: int,
    hi0: int,
    p: int,
    pivot: T,
)
    requires
        strict_weak_order(ord),
        framed(ord, t1, lo0, low, high, hi0),
        1 <= lo0 <= low < p < high <= hi0 <= t1.len(),
        t1[p - 1] == pivot,
        forall|k: int| low <= k < p ==> le_by(ord, #[trigger] t1[k - 1], pivot),
        forall|k: int| p < k <= high ==> le_by(ord, pivot, #[trigger] t1[k - 1]),
        perm_seg(t1, t2, p + 1, high),
        sorted_seg(ord, t2, p + 1, high),
    ensures
        framed(ord, t2, lo0, low, p - 1, hi0),
{
    assert forall|a: int, b: int| p <= a <= b <= hi0 implies le_by(ord, #[trigger] t2[a - 1], #[trigger] t2[b - 1]) by {
        if b > high {
            assert(t2[b - 1] == t1[b - 1]);
            if a > p && a <= high {
                let a2 = lemma_perm_member(t1, t2, p + 1, high, a);
                assert(le_by(ord, t1[a2 - 1], t1[b - 1]));
            } else {
                assert(t2[a - 1] == t1[a - 1]);
            }
        } else if a == p {
            assert(t2[a - 1] == pivot);
            if b > p {
                let b2 = lemma_perm_member(t1, t2, p + 1, high, b);
                assert(le_by(ord, pivot, t1[b2 - 1]));
            }
        }
    }
    assert forall|a: int, b: int| lo0 <= a <= p - 1 && p - 1 < b <= hi0 implies le_by(ord, #[trigger] t2[a - 1], #[trigger] t2[b - 1]) by {
        assert(t2[a - 1] == t1[a - 1]);
        if p < b <= high {
            let b2 = lemma_perm_member(t1, t2, p + 1, high, b);
            if a < low {
                assert(le_by(ord, t1[a - 1], t1[b2 - 1]));
            } else {
                assert(le_by(ord, pivot, t1[b2 - 1]));
            }
        } else {
            assert(t2[b - 1] == t1[b - 1]);
            if b == p && a < low {
                assert(le_by(ord, t1[a - 1], t1[p - 1]));
            }
        }
    }
    assert forall|a: int, b: int| lo0 <= a < low && low <= b <= hi0 implies le_by(ord, #[trigger] t2[a - 1], #[trigger] t2[b - 1]) by {
        assert(t2[a - 1] == t1[a - 1]);
        if p < b <= high {
            let b2 = lemma_perm_member(t1, t2, p + 1, high, b);
            assert(le_by(ord, t1[a - 1], t1[b2 - 1]));
        } else {
            assert(t2[b - 1] == t1[b - 1]);
        }
    }
    assert forall|a: int, b: int| lo0 <= a <= b <= low - 1 implies le_by(ord, #[trigger] t2[a - 1], #[trigger] t2[b - 1]) by {
        assert(t2[a - 1] == t1[a - 1]);
        assert(t2[b - 1] == t1[b - 1]);
    }
}


/// The pivot for a long range: a position drawn by `rnd` from the middle
/// half of `low ..= high`.
pub fn choose_pivot(low: u32, high: u32, rnd: u32) -> (p: u32)
    requires
        low + 4 <= high,
    ensures
        p == (rnd as int) % (2 * ((high - low) / 4)) + low + (high - low) / 4,
        low < p < high,
{
    let r4: u32 = (high - low) / 4;
    proof {
        vstd::arithmetic::div_mod::lemma_mod_pos_bound(rnd as int, 2 * r4 as int);
    }
    rnd % (r4 * 2) + (low + r4)
}

/// The seed of a fresh pivot choice, from a processor-time reading `c` and a
/// wall-clock reading `t`: the wrapping sum of their 32-bit halves.
pub open spec fn spec_randomize_pivot(c: i64, t: i64) -> u32 {
    let cu = c as u64;
    let tu = t as u64;
    ((cu % 0x1_0000_0000 + cu / 0x1_0000_0000 + tu % 0x1_0000_0000 + tu / 0x1_0000_0000)
        % 0x1_0000_0000) as u32
}

fn low_half(x: u64) -> (r: u32)
    ensures
        r == x % 0x1_0000_0000,
{
    let r = x as u32;
    assert(r == x % 0x1_0000_0000) by (bit_vector)
        requires
            r == x as u32,
    ;
    r
}

fn high_half(x: u64) -> (r: u32)
    ensures
        r == x / 0x1_0000_0000,
{
    let r = (x >> 32) as u32;
    assert(r == x / 0x1_0000_0000) by (bit_vector)
        requires
            r == (x >> 32) as u32,
    ;
    r
}

/// Mixes two clock readings into a pivot seed.
pub fn randomize_pivot(c: i64, t: i64) -> (r: u32)
    ensures
        r == spec_randomize_pivot(c, t),
{
    let cu = c as u64;
    let tu = t as u64;
    let mut r: u32 = low_half(cu);
    r = r.wrapping_add(high_half(cu));
    r = r.wrapping_add(low_half(tu));
    r = r.wrapping_add(high_half(tu));
    r
}

/// Reads the wall clock through `SystemTime::elapsed` on the epoch: the
/// sub-second nanoseconds (standing in for the processor time that seeds
/// pivots too) and the seconds since the epoch, both zero for a clock set
/// before it. Nothing is claimed of the values: they only seed the choice of
/// pivots.
#[verifier::external_body]
fn clock_readings() -> (r: (i64, i64)) {
    match std::time::UNIX_EPOCH.elapsed() {
        Ok(d) => (d.subsec_nanos() as i64, d.as_secs() as i64),
        Err(_) => (0, 0),
    }
}

/// The quicksort itself, under an order `ord` that is a strict weak order
/// on all values; `lt` need only compute it on the values of `dom`, where
/// the elements being sorted come from.
fn sort_range<T: Copy, F: Fn(T, T) -> bool>(
    v: &mut Vec<T>,
    low: u32,
    high: u32,
    rnd: u32,
    lt: &F,
    Ghost(ord): Ghost<spec_fn(T, T) -> bool>,
    Ghost(dom): Ghost<Seq<T>>,
)
    requires
        strict_weak_order(ord),
        computes_on(*lt, ord, dom),
        within(old(v)@, low as int, high as int, dom),
        1 <= low <= high,
        high <= old(v).len(),
        high < 0x7fff_ffff,
    ensures
        perm_seg(old(v)@, final(v)@, low as int, high as int),
        sorted_seg(ord, final(v)@, low as int, high as int),
    decreases high - low,
{
    let ghost v0 = v@;
    let ghost lo0 = low as int;
    let ghost hi0 = high as int;
    let mut lo = low;
    let mut hi = high;
    let mut rnd = rnd;
    while lo < hi
        invariant
            1 <= lo0 <= lo <= hi <= hi0,
            lo0 == low,
            hi0 == high,
            hi0 <= v.len(),
            hi0 < 0x7fff_ffff,
            v0 == old(v)@,
            perm_seg(v0, v@, lo0, hi0),
            framed(ord, v@, lo0, lo as int, hi as int, hi0),
            strict_weak_order(ord),
            computes_on(*lt, ord, dom),
            within(v0, lo0, hi0, dom),
        decreases hi - lo,
    {
        let ghost s0 = v@;
        let ghost lw = lo as int;
        let ghost hg = hi as int;
        proof {
            lemma_within_perm(v0, s0, lo0, hi0, dom);
        }
        if lt(get(v, hi), get(v, lo)) {
            swap(v, lo, hi);
            proof {
                lemma_swap_perm(s0, lw, hg, lw, hg);
            }
        } else {
            proof {
                lemma_perm_refl(s0, lw, hg);
            }
        }
        if hi - lo == 1 {
            proof {
                lemma_frame_perm(ord, s0, v@, lo0, lo as int, hi as int, hi0, lo as int, hi as int);
                lemma_perm_widen(s0, v@, lo as int, hi as int, lo0, hi0);
                lemma_perm_trans(v0, s0, v@, lo0, hi0);
                lemma_frame_close(ord, v@, lo0, lo as int, hi as int, hi0);
            }
            return;
        }
        let mut p: u32 = if hi - lo < 100 || rnd == 0 {
            (lo + hi) / 2
        } else {
            choose_pivot(lo, hi, rnd)
        };
        let ghost s1 = v@;
        proof {
            lemma_perm_trans(s0, s0, s1, lw, hg);
            lemma_within_perm(s0, s1, lw, hg, dom);
        }
        if lt(get(v, p), get(v, lo)) {
            swap(v, p, lo);
            proof {
                lemma_swap_perm(s1, lo as int, hi as int, p as int, lo as int);
            }
        } else if lt(get(v, hi), get(v, p)) {
            swap(v, p, hi);
            proof {
                lemma_swap_perm(s1, lo as int, hi as int, p as int, hi as int);
            }
        } else {
            proof {
                lemma_perm_refl(s1, lo as int, hi as int);
            }
        }
        proof {
            lemma_perm_trans(s0, s1, v@, lo as int, hi as int);
        }
        if hi - lo == 2 {
            proof {
                lemma_frame_perm(ord, s0, v@, lo0, lo as int, hi as int, hi0, lo as int, hi as int);
                lemma_perm_widen(s0, v@, lo as int, hi as int, lo0, hi0);
                lemma_perm_trans(v0, s0, v@, lo0, hi0);
                lemma_frame_close(ord, v@, lo0, lo as int, hi as int, hi0);
            }
            return;
        }
        let pivot = get(v, p);
        let ghost s2 = v@;
        swap(v, p, hi - 1);
        proof {
            lemma_swap_perm(s2, lo as int, hi as int, p as int, (hi - 1) as int);
            lemma_perm_trans(s0, s2, v@, lo as int, hi as int);
            lemma_within_perm(s0, v@, lo as int, hi as int, dom);
        }
        let ghost s3 = v@;
        p = partition(v, lo, hi, pivot, lt, Ghost(ord), Ghost(dom));
        let ghost t1 = v@;
        proof {
            lemma_perm_trans(s0, s3, t1, lo as int, hi as int);
            lemma_frame_perm(ord, s0, t1, lo0, lo as int, hi as int, hi0, lo as int, hi as int);
            lemma_within_perm(s0, t1, lo as int, hi as int, dom);
        }
        let n: u32;
        if p - lo < hi - p {
            sort_range(v, lo, p - 1, rnd, lt, Ghost(ord), Ghost(dom));
            proof {
                lemma_frame_left(ord, t1, v@, lo0, lo as int, hi as int, hi0, p as int, pivot);
                lemma_perm_widen(t1, v@, lo as int, (p - 1) as int, lo as int, hi as int);
                lemma_perm_trans(s0, t1, v@, lo as int, hi as int);
            }
            n = p - lo;
            lo = p + 1;
        } else {
            sort_range(v, p + 1, hi, rnd, lt, Ghost(ord), Ghost(dom));
            proof {
                lemma_frame_right(ord, t1, v@, lo0, lo as int, hi as int, hi0, p as int, pivot);
                lemma_perm_widen(t1, v@, (p + 1) as int, hi as int, lo as int, hi as int);
                lemma_perm_trans(s0, t1, v@, lo as int, hi as int);
            }
            n = hi - p;
            hi = p - 1;
        }
        proof {
            lemma_perm_widen(s0, v@, lw, hg, lo0, hi0);
            lemma_perm_trans(v0, s0, v@, lo0, hi0);
        }
        if (hi - lo) / 128 > n {
            let (c, t) = clock_readings();
            rnd = randomize_pivot(c, t);
        }
    }
    proof {
        lemma_frame_close(ord, v@, lo0, lo as int, hi as int, hi0);
    }
}


/// Sorts positions `low ..= high` in place: Lua's quicksort, which orders
/// the ends and a middle element, partitions around that median, sorts the
/// smaller side by recursion and loops on the larger, and draws its pivots
/// from the clock once the sides grow too unbalanced. The comparison `lt`
/// must compute a strict weak order `ord` on the elements being sorted.
pub fn auxsort<T: Copy, F: Fn(T, T) -> bool>(
    v: &mut Vec<T>,
    low: u32,
    high: u32,
    rnd: u32,
    lt: &F,
    Ghost(ord): Ghost<spec_fn(T, T) -> bool>,
)
    requires
        1 <= low <= high,
        high <= old(v).len(),
        high < 0x7fff_ffff,
        swo_on(ord, seg(old(v)@, low as int, high as int)),
        computes_on(*lt, ord, seg(old(v)@, low as int, high as int)),
    ensures
        perm_seg(old(v)@, final(v)@, low as int, high as int),
        sorted_seg(ord, final(v)@, low as int, high as int),
{
    let ghost v0 = v@;
    let ghost dom = seg(v0, low as int, high as int);
    let ghost ext = extend_order(ord, dom);
    proof {
        lemma_extend_order(ord, dom);
        assert forall|k: int| low <= k <= high implies dom.contains(#[trigger] v0[k - 1]) by {
            assert(dom[k - low] == v0[k - 1]);
        }
        assert forall|a: T, b: T, r: bool|
            dom.contains(a) && dom.contains(b) && #[trigger] lt.ensures((a, b), r) implies r == ext(a, b) by {
            assert(extend_order(ord, dom)(a, b) == ord(a, b));
        }
    }
    sort_range(v, low, high, rnd, lt, Ghost(ext), Ghost(dom));
    proof {
        lemma_within_perm(v0, v@, low as int, high as int, dom);
        assert forall|a: int, b: int| low <= a <= b <= high implies le_by(ord, #[trigger] v@[a - 1], #[trigger] v@[b - 1]) by {
            assert(le_by(ext, v@[a - 1], v@[b - 1]));
            assert(dom.contains(v@[a - 1]) && dom.contains(v@[b - 1]));
            assert(extend_order(ord, dom)(v@[b - 1], v@[a - 1]) == ord(v@[b - 1], v@[a - 1]));
        }
    }
}


/// Why `table.sort` refused a table.
#[derive(Debug, Clone, Copy, PartialEq, Eq)]
pub enum SortError {
    /// The table holds `0x7fffffff` elements or more (`array too big`).
    ArrayTooBig,
}

/// `table.sort` on the elements `t[1] .. t[#t]` of a table, held in order in
/// `v`, under the default order `<`: refused for a table of `0x7fffffff`
/// elements or more, else `v` ends up in ascending order and holds the same
/// elements as before.
pub fn table_sort(v: &mut Vec<i64>) -> (r: Result<(), SortError>)
    ensures
        old(v).len() >= 0x7fff_ffff ==> r == Err::<(), SortError>(SortError::ArrayTooBig) && final(v)@ == old(v)@,
        old(v).len() < 0x7fff_ffff ==> {
            &&& r is Ok
            &&& final(v)@.to_multiset() == old(v)@.to_multiset()
            &&& final(v)@.len() == old(v)@.len()
            &&& forall|i: int, j: int| 0 <= i <= j < final(v)@.len() ==> #[trigger] final(v)@[i] <= #[trigger] final(v)@[j]
        },
{
    let n = v.len();
    if n > 1 {
        if n >= 0x7fff_ffff {
            return Err(SortError::ArrayTooBig);
        }
        let ghost v0 = v@;
        let less = |a: i64, b: i64| -> (r: bool)
            ensures
                r == (a < b),
            { a < b };
        let ghost ord = |a: i64, b: i64| a < b;
        proof {
            assert(seg(v0, 1, n as int) =~= v0);
            assert(swo_on(ord, v0));
            assert(computes_on(less, ord, v0));
        }
        auxsort(v, 1, n as u32, 0, &less, Ghost(ord));
        proof {
            assert(seg(v0, 1, n as int) =~= v0);
            assert(seg(v@, 1, n as int) =~= v@);
            assert forall|i: int, j: int| 0 <= i <= j < v@.len() implies #[trigger] v@[i] <= #[trigger] v@[j] by {
                assert(le_by(ord, v@[(i + 1) - 1], v@[(j + 1) - 1]));
            }
        }
    }
    Ok(())
}

/// `table.sort(t, lt)` on the elements `t[1] .. t[#t]` of a table, held in
/// order in `v`, with the comparison `lt`, which must be a strict weak
/// order on those elements: refused for a table of `0x7fffffff` elements or
/// more, else `v` holds the same elements as before, and `lt` holds of no
/// element and one before it.
pub fn table_sort_by<T: Copy, F: Fn(T, T) -> bool>(v: &mut Vec<T>, lt: &F) -> (r: Result<(), SortError>)
    requires
        exists|ord: spec_fn(T, T) -> bool| swo_on(ord, old(v)@) && computes_on(*lt, ord, old(v)@),
    ensures
        old(v).len() >= 0x7fff_ffff ==> r == Err::<(), SortError>(SortError::ArrayTooBig) && final(v)@ == old(v)@,
        old(v).len() < 0x7fff_ffff ==> {
            &&& r is Ok
            &&& final(v)@.to_multiset() == old(v)@.to_multiset()
            &&& final(v)@.len() == old(v)@.len()
            &&& forall|i: int, j: int, b: bool|
                0 <= i <= j < final(v)@.len() && #[trigger] lt.ensures((final(v)@[j], final(v)@[i]), b) ==> !b
        },
{
    let ghost v0 = v@;
    let ghost ord = choose|ord: spec_fn(T, T) -> bool| swo_on(ord, v0) && computes_on(*lt, ord, v0);
    let n = v.len();
    if n > 1 {
        if n >= 0x7fff_ffff {
            return Err(SortError::ArrayTooBig);
        }
        proof {
            assert(seg(v0, 1, n as int) =~= v0);
        }
        auxsort(v, 1, n as u32, 0, lt, Ghost(ord));
        proof {
            assert(seg(v@, 1, n as int) =~= v@);
            assert forall|i: int, j: int, b: bool|
                0 <= i <= j < v@.len() && #[trigger] lt.ensures((v@[j], v@[i]), b) implies !b by {
                assert(le_by(ord, v@[(i + 1) - 1], v@[(j + 1) - 1]));
                assert(v@.to_multiset().count(v@[i]) > 0);
                assert(v@.to_multiset().count(v@[j]) > 0);
                assert(v0.contains(v@[i]) && v0.contains(v@[j]));
            }
        }
    } else {
        proof {
            assert forall|i: int, j: int, b: bool|
                0 <= i <= j < v@.len() && #[trigger] lt.ensures((v@[j], v@[i]), b) implies !b by {
                assert(i == j);
            }
        }
    }
    Ok(())
}


/// Why `table.insert` refused its arguments.
#[derive(Debug, Clone, Copy, PartialEq, Eq)]
pub enum InsertError {
    /// The position lies outside `1 ..= #t + 1` (`position out of bounds`).
    PositionOutOfBounds,
}

/// What `table.insert` makes of the sequence `s`: with no position the
/// value goes at the end; with a position in `1 ..= #s + 1` it goes there
/// and the elements from it on move up by one; any other position is
/// refused.
pub open spec fn spec_table_insert(s: Seq<i64>, position: Option<i64>, value: i64) -> Result<Seq<i64>, InsertError> {
    match position {
        None => Ok(s.push(value)),
        Some(pos) => if 1 <= pos <= s.len() + 1 {
            Ok(s.insert(pos - 1, value))
        } else {
            Err(InsertError::PositionOutOfBounds)
        },
    }
}

/// `table.insert` on the sequence `t[1] .. t[#t]`, held in order in `v`
/// (see `spec_table_insert`); a refused call leaves it as it was.
pub fn table_insert(v: &mut Vec<i64>, position: Option<i64>, value: i64) -> (r: Result<(), InsertError>)
    requires
        old(v).len() < i64::MAX,
    ensures
        match spec_table_insert(old(v)@, position, value) {
            Ok(s) => r is Ok && final(v)@ == s,
            Err(e) => r == Err::<(), InsertError>(e) && final(v)@ == old(v)@,
        },
{
    let e: i64 = v.len() as i64 + 1;
    match position {
        None => {
            v.push(value);
            Ok(())
        },
        Some(pos) => {
            if pos < 1 || pos > e {
                return Err(InsertError::PositionOutOfBounds);
            }
            v.insert((pos - 1) as usize, value);
            Ok(())
        },
    }
}

/// Why `table.remove` refused its arguments.
#[derive(Debug, Clone, Copy, PartialEq, Eq)]
pub enum RemoveError {
    /// The position is neither `#t` nor in `1 ..= #t + 1`
    /// (`position out of bounds`).
    PositionOutOfBounds,
}

/// What `table.remove` does to the sequence `s`, the position defaulting
/// to `#s`: a position in `1 ..= #s` takes its element out (the later ones
/// move down by one) and gives it; `#s + 1`, and `0` on an empty sequence,
/// give nil (`None`) and leave the sequence as it is, which holds no element
/// there; any other position is refused.
pub open spec fn spec_table_remove(s: Seq<i64>, position: Option<i64>) -> Result<(Option<i64>, Seq<i64>), RemoveError> {
    let size = s.len() as int;
    let pos: int = match position {
        None => size,
        Some(p) => p as int,
    };
    if 1 <= pos <= size {
        Ok((Some(s[pos - 1]), s.remove(pos - 1)))
    } else if pos == size + 1 || pos == size {
        Ok((None, s))
    } else {
        Err(RemoveError::PositionOutOfBounds)
    }
}

/// `table.remove` on the sequence `t[1] .. t[#t]`, held in order in `v`
/// (see `spec_table_remove`); a refused call leaves it as it was.
pub fn table_remove(v: &mut Vec<i64>, position: Option<i64>) -> (r: Result<Option<i64>, RemoveError>)
    requires
        old(v).len() < i64::MAX,
    ensures
        match spec_table_remove(old(v)@, position) {
            Ok((x, s)) => r == Ok::<Option<i64>, RemoveError>(x) && final(v)@ == s,
            Err(e) => r == Err::<Option<i64>, RemoveError>(e) && final(v)@ == old(v)@,
        },
{
    let size: i64 = v.len() as i64;
    let pos: i64 = match position {
        None => size,
        Some(p) => p,
    };
    if pos != size && (pos < 1 || pos > size + 1) {
        return Err(RemoveError::PositionOutOfBounds);
    }
    if 1 <= pos && pos <= size {
        let x = v.remove((pos - 1) as usize);
        Ok(Some(x))
    } else {
        Ok(None)
    }
}

/// `table.remove(t, pos)` undoes `table.insert(t, pos, x)`: it gives `x`
/// back and leaves the sequence as it was before the insertion; likewise
/// `table.remove(t)` undoes `table.insert(t, x)`.
pub proof fn lemma_remove_undoes_insert(s: Seq<i64>, position: Option<i64>, x: i64)
    requires
        spec_table_insert(s, position, x) is Ok,
    ensures
        spec_table_remove(spec_table_insert(s, position, x)->Ok_0, position) == Ok::<
            (Option<i64>, Seq<i64>),
            RemoveError,
        >((Some(x), s)),
{
    let t = spec_table_insert(s, position, x)->Ok_0;
    match position {
        Some(pos) => {
            assert(t[pos - 1] == x);
            assert(t.remove(pos - 1) =~= s);
        },
        None => {
            assert(t[t.len() - 1] == x);
            assert(t.remove(t.len() - 1) =~= s);
        },
    }
}

/// Why `table.move` refused its arguments.
#[derive(Debug, Clone, Copy, PartialEq, Eq)]
pub enum MoveError {
    /// The source range has `2^63` elements or more (`too many elements to move`).
    TooManyElements,
    /// The destination range runs past the largest integer
    /// (`destination wrap around`).
    DestinationWrapAround,
}

/// How `table.move` copies: how many elements, and whether from the first
/// to the last (`forward`) or from the last to the first.
#[derive(Debug, Clone, Copy, PartialEq, Eq)]
pub struct MovePlan {
    pub count: i64,
    pub forward: bool,
}

/// What `table.move` does for `a1[f ..= e]` into `a2[t ..]`; `same_table`
/// says whether `a2` is `a1`.
pub open spec fn spec_move_plan(f: i64, e: i64, t: i64, same_table: bool) -> Result<Option<MovePlan>, MoveError> {
    if e < f {
        Ok(None)
    } else if !(f > 0 || e < i64::MAX + f) {
        Err(MoveError::TooManyElements)
    } else if !(t <= i64::MAX - (e - f + 1) + 1) {
        Err(MoveError::DestinationWrapAround)
    } else {
        Ok(Some(MovePlan { count: (e - f + 1) as i64, forward: t > e || t <= f || !same_table }))
    }
}

/// Decides what `table.move(a1, f, e, t [, a2])` does: nothing for an empty
/// range; an error for a range too long or a destination that wraps round;
/// else copies `e - f + 1` elements, backward only when the destination
/// starts inside the source of the same table.
pub fn move_plan(f: i64, e: i64, t: i64, same_table: bool) -> (r: Result<Option<MovePlan>, MoveError>)
    ensures
        r == spec_move_plan(f, e, t, same_table),
{
    if e < f {
        return Ok(None);
    }
    if !(f > 0 || e < i64::MAX + f) {
        return Err(MoveError::TooManyElements);
    }
    let n: i64 = e - f + 1;
    if !(t <= i64::MAX - n + 1) {
        return Err(MoveError::DestinationWrapAround);
    }
    Ok(Some(MovePlan { count: n, forward: t > e || t <= f || !same_table }))
}

/// Carries out a plan of [`move_plan`] inside one sequence, whose positions
/// `1 ..= v.len()` hold both ranges: position `t + k` receives what position
/// `f + k` held before, for each `k` below the count, as if the source had
/// been read in full before any write.
pub fn move_within(v: &mut Vec<i64>, f: i64, t: i64, plan: MovePlan)
    requires
        1 <= f,
        1 <= t,
        0 <= plan.count,
        f + plan.count - 1 <= old(v).len(),
        t + plan.count - 1 <= old(v).len(),
        plan.forward ==> t > f + plan.count - 1 || t <= f,
        !plan.forward ==> f <= t,
        old(v).len() <= i64::MAX,
    ensures
        final(v)@.len() == old(v)@.len(),
        forall|k: int| 0 <= k < plan.count ==> #[trigger] final(v)@[t - 1 + k] == old(v)@[f - 1 + k],
        forall|q: int| 0 <= q < old(v)@.len() && !(t - 1 <= q < t - 1 + plan.count) ==> #[trigger] final(v)@[q] == old(v)@[q],
{
    let ghost v0 = v@;
    let len: usize = v.len();
    let n = plan.count;
    if plan.forward {
        let mut i: i64 = 0;
        while i < n
            invariant
                0 <= i <= n,
                n == plan.count,
                1 <= f,
                1 <= t,
                f + n - 1 <= v0.len(),
                t + n - 1 <= v0.len(),
                v0.len() <= i64::MAX,
                v0.len() == len,
                t > f + n - 1 || t <= f,
                v@.len() == v0.len(),
                forall|k: int| 0 <= k < i ==> #[trigger] v@[t - 1 + k] == v0[f - 1 + k],
                forall|q: int| 0 <= q < v0.len() && !(t - 1 <= q < t - 1 + i) ==> #[trigger] v@[q] == v0[q],
            decreases n - i,
        {
            let src: usize = (f - 1 + i) as usize;
            let dst: usize = (t - 1 + i) as usize;
            assert(src == f - 1 + i && dst == t - 1 + i);
            assert(v@[src as int] == v0[src as int]);
            let x = v[src];
            let ghost before = v@;
            v.set(dst, x);
            assert forall|k: int| 0 <= k < i + 1 implies #[trigger] v@[t - 1 + k] == v0[f - 1 + k] by {
                if k < i {
                    assert(v@[t - 1 + k] == before[t - 1 + k]);
                }
            }
            i = i + 1;
        }
    } else {
        let mut i: i64 = n;
        while i > 0
            invariant
                0 <= i <= n,
                n == plan.count,
                1 <= f,
                1 <= t,
                f + n - 1 <= v0.len(),
                t + n - 1 <= v0.len(),
                v0.len() <= i64::MAX,
                v0.len() == len,
                v@.len() == v0.len(),
                f <= t,
                forall|k: int| i <= k < n ==> #[trigger] v@[t - 1 + k] == v0[f - 1 + k],
                forall|q: int| 0 <= q < v0.len() && !(t - 1 + i <= q < t - 1 + n) ==> #[trigger] v@[q] == v0[q],
            decreases i,
        {
            i = i - 1;
            let src: usize = (f - 1 + i) as usize;
            let dst: usize = (t - 1 + i) as usize;
            assert(src == f - 1 + i && dst == t - 1 + i);
            assert(v@[src as int] == v0[src as int]);
            let x = v[src];
            let ghost before = v@;
            v.set(dst, x);
            assert forall|k: int| i <= k < n implies #[trigger] v@[t - 1 + k] == v0[f - 1 + k] by {
                if k > i {
                    assert(v@[t - 1 + k] == before[t - 1 + k]);
                }
            }
        }
    }
}

/// Why `table.unpack` refused its range.
#[derive(Debug, Clone, Copy, PartialEq, Eq)]
pub enum UnpackError {
    /// The range holds `0x7fffffff` positions or more (`too many results to unpack`).
    TooManyResults,
}

/// How many values `table.unpack(t, i, e)` gives: none for `i > e`, else
/// `e - i + 1`, refused from `0x7fffffff` on. (The interpreter may refuse a
/// smaller count too, when its stack cannot grow that far.)
pub fn unpack_count(i: i64, e: i64) -> (r: Result<u32, UnpackError>)
    ensures
        i > e ==> r == Ok::<u32, UnpackError>(0),
        i <= e && e - i < 0x7fff_ffff ==> r == Ok::<u32, UnpackError>((e - i + 1) as u32),
        i <= e && e - i >= 0x7fff_ffff ==> r == Err::<u32, UnpackError>(UnpackError::TooManyResults),
{
    if i > e {
        return Ok(0);
    }
    if (e as i128) - (i as i128) >= 0x7fff_ffff {
        return Err(UnpackError::TooManyResults);
    }
    Ok((e - i + 1) as u32)
}


/// The value at position `k` of a sequence whose elements are texts or
/// other values (`None`); positions outside it hold nil, no text either.
pub open spec fn text_at(s: Seq<Option<Seq<u8>>>, k: int) -> Option<Seq<u8>> {
    if 1 <= k <= s.len() {
        s[k - 1]
    } else {
        None
    }
}

/// The texts at positions `i ..= k - 1`, each followed by `sep`, or the
/// first of those positions that holds no text.
pub open spec fn joined(s: Seq<Option<Seq<u8>>>, sep: Seq<u8>, i: int, k: int) -> Result<Seq<u8>, int>
    decreases k - i,
{
    if k <= i {
        Ok(Seq::empty())
    } else {
        match joined(s, sep, i, k - 1) {
            Err(j) => Err(j),
            Ok(acc) => match text_at(s, k - 1) {
                None => Err(k - 1),
                Some(x) => Ok(acc + x + sep),
            },
        }
    }
}

/// `table.concat(t, sep, i, last)`: the texts at positions `i ..= last`
/// joined by `sep` (empty when `i > last`), or the first position whose
/// value is no text.
pub open spec fn spec_table_concat(s: Seq<Option<Seq<u8>>>, sep: Seq<u8>, i: int, last: int) -> Result<Seq<u8>, int> {
    if i > last {
        Ok(Seq::empty())
    } else {
        match joined(s, sep, i, last) {
            Err(j) => Err(j),
            Ok(acc) => match text_at(s, last) {
                None => Err(last),
                Some(x) => Ok(acc + x),
            },
        }
    }
}

proof fn lemma_joined_err(s: Seq<Option<Seq<u8>>>, sep: Seq<u8>, i: int, k: int, m: int, j: int)
    requires
        joined(s, sep, i, k) == Err::<Seq<u8>, int>(j),
        k <= m,
    ensures
        joined(s, sep, i, m) == Err::<Seq<u8>, int>(j),
    decreases m - k,
{
    if k < m {
        lemma_joined_err(s, sep, i, k, m - 1, j);
    }
}

/// Why `table.concat` failed.
#[derive(Debug, Clone, Copy, PartialEq, Eq)]
pub enum ConcatError {
    /// The value at this position is neither a string nor a number
    /// (`invalid value (...) at index ... in table for 'concat'`).
    InvalidValue(i64),
}

fn text_at_exec(v: &Vec<Option<Vec<u8>>>, k: i64) -> (r: Option<&Vec<u8>>)
    ensures
        match r {
            None => text_at(items_view(v@), k as int) is None,
            Some(x) => text_at(items_view(v@), k as int) == Some(x@),
        },
{
    let n: usize = v.len();
    if k >= 1 && (k as u128) <= (n as u128) {
        let idx: usize = (k - 1) as usize;
        match &v[idx] {
            Some(x) => Some(x),
            None => None,
        }
    } else {
        None
    }
}

/// The texts of the elements, `None` for the other values.
pub open spec fn items_view(v: Seq<Option<Vec<u8>>>) -> Seq<Option<Seq<u8>>> {
    v.map_values(|o: Option<Vec<u8>>| match o {
        Some(x) => Some(x@),
        None => None,
    })
}

/// `table.concat(t, sep, i, last)` on the elements `t[1] .. t[#t]`, held in
/// order in `v`, a number element held as its text: the texts at positions
/// `i ..= last` joined by `sep`, or an error at the first position that holds
/// no text (positions past `#t` hold nil).
pub fn table_concat(v: &Vec<Option<Vec<u8>>>, sep: &[u8], i: i64, last: i64) -> (r: Result<Vec<u8>, ConcatError>)
    ensures
        match spec_table_concat(items_view(v@), sep@, i as int, last as int) {
            Ok(text) => r is Ok && r->Ok_0@ == text,
            Err(k) => r == Err::<Vec<u8>, ConcatError>(ConcatError::InvalidValue(k as i64)),
        },
{
    let ghost s = items_view(v@);
    let mut out: Vec<u8> = Vec::new();
    if i > last {
        return Ok(out);
    }
    let mut k: i64 = i;
    while k < last
        invariant
            i <= k <= last,
            s == items_view(v@),
            joined(s, sep@, i as int, k as int) == Ok::<Seq<u8>, int>(out@),
        decreases last - k,
    {
        match text_at_exec(v, k) {
            None => {
                proof {
                    assert(joined(s, sep@, i as int, k + 1) == Err::<Seq<u8>, int>(k as int));
                    lemma_joined_err(s, sep@, i as int, k + 1, last as int, k as int);
                }
                return Err(ConcatError::InvalidValue(k));
            },
            Some(x) => {
                let ghost before = out@;
                out.extend_from_slice(x.as_slice());
                out.extend_from_slice(sep);
                proof {
                    assert(out@ == before + x@ + sep@);
                    assert(text_at(s, k as int) == Some(x@));
                    assert(joined(s, sep@, i as int, k + 1) == Ok::<Seq<u8>, int>(before + x@ + sep@));
                }
            },
        }
        k = k + 1;
    }
    match text_at_exec(v, last) {
        None => Err(ConcatError::InvalidValue(last)),
        Some(x) => {
            out.extend_from_slice(x.as_slice());
            Ok(out)
        },
    }
}

} // verus!
