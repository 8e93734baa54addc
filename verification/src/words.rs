use vstd::prelude::*;
use vstd::arithmetic::div_mod::{lemma_fundamental_div_mod, lemma_fundamental_div_mod_converse};

use crate::word::{count_true, word_seq, PrimStore};

verus! {

/// Width of a word of `T`, as an integer.
pub open spec fn wd<T: PrimStore>() -> int {
    T::width() as int
}

/// Whether bit `i` of the word sequence `ws` is set: bit `i % W` of word `i / W`.
pub open spec fn has_bit<T: PrimStore>(ws: Seq<T>, i: int) -> bool {
    0 <= i && i / wd::<T>() < ws.len() && ws[i / wd::<T>()].bit(i % wd::<T>())
}

/// Number of bit positions that `ws` can hold.
pub open spec fn capacity_of<T: PrimStore>(ws: Seq<T>) -> int {
    ws.len() * wd::<T>()
}

/// The bits of a word sequence, one entry per position.
pub open spec fn words_view<T: PrimStore>(ws: Seq<T>) -> Seq<bool> {
    Seq::new(capacity_of(ws) as nat, |i: int| has_bit(ws, i))
}

/// `r` is `ws` up to its last word that holds a set bit.
pub open spec fn significant_run<T: PrimStore>(ws: Seq<T>, r: Seq<T>) -> bool {
    &&& r.len() <= ws.len()
    &&& r == ws.take(r.len() as int)
    &&& forall|j: int, b: int| r.len() <= j < ws.len() ==> !#[trigger] ws[j].bit(b)
    &&& r.len() > 0 ==> exists|b: int| #[trigger] r.last().bit(b)
}

/// No bit of `ws` is set.
pub open spec fn no_bit_set<T: PrimStore>(ws: Seq<T>) -> bool {
    forall|i: int| !has_bit(ws, i)
}

/// `r` is the lowest set position of `ws` (`None` when none is set).
pub open spec fn lowest_set<T: PrimStore>(ws: Seq<T>, r: Option<usize>) -> bool {
    match r {
        None => forall|i: int| !has_bit(ws, i),
        Some(p) => has_bit(ws, p as int) && forall|i: int| i < p ==> !has_bit(ws, i),
    }
}

/// `r` is the highest set position of `ws` (`None` when none is set).
pub open spec fn highest_set<T: PrimStore>(ws: Seq<T>, r: Option<usize>) -> bool {
    match r {
        None => forall|i: int| !has_bit(ws, i),
        Some(p) => has_bit(ws, p as int) && forall|i: int| i > p ==> !has_bit(ws, i),
    }
}

/// Every bit set in `a` is set in `b`.
pub open spec fn bits_within<T: PrimStore>(a: Seq<T>, b: Seq<T>) -> bool {
    forall|i: int| has_bit(a, i) ==> has_bit(b, i)
}

/// No bit is set in both `a` and `b`.
pub open spec fn bits_apart<T: PrimStore>(a: Seq<T>, b: Seq<T>) -> bool {
    forall|i: int| !(has_bit(a, i) && has_bit(b, i))
}

/// The capacity of `ws` can be counted in a `usize`.
pub open spec fn fits<T: PrimStore>(ws: Seq<T>) -> bool {
    capacity_of(ws) <= usize::MAX
}

/// Whether position `i` is a member of the bit sequence `s` (false beyond its end).
pub open spec fn member(s: Seq<bool>, i: int) -> bool {
    0 <= i < s.len() && s[i]
}

/// The positions set in `s`, in increasing order.
pub open spec fn ones(s: Seq<bool>) -> Seq<usize>
    decreases s.len(),
{
    if s.len() == 0 {
        Seq::empty()
    } else if s.last() {
        ones(s.drop_last()).push((s.len() - 1) as usize)
    } else {
        ones(s.drop_last())
    }
}

/// Position-wise combination by `op` of two bit sequences of possibly different lengths,
/// over the first `len` positions.
pub open spec fn combine(a: Seq<bool>, b: Seq<bool>, len: nat, op: WordOp) -> Seq<bool> {
    Seq::new(len, |i: int| op.spec_apply(member(a, i), member(b, i)))
}

pub proof fn lemma_div_mod_word(i: int, w: int, k: int, j: int)
    requires
        w > 0,
        0 <= j < w,
        i == k * w + j,
    ensures
        i / w == k,
        i % w == j,
{
    lemma_fundamental_div_mod_converse(i, w, k, j);
}

proof fn lemma_in_range_aux(i: int, w: int, n: int, q: int, r: int)
    by (nonlinear_arith)
    requires
        w > 0,
        n >= 0,
        i >= 0,
        0 <= r < w,
        i == q * w + r,
    ensures
        q >= 0,
        q < n <==> i < n * w,
{
}

/// A position is inside the capacity exactly when its word index is.
pub proof fn lemma_in_range<T: PrimStore>(n: int, i: int)
    requires
        n >= 0,
        i >= 0,
    ensures
        i / wd::<T>() >= 0,
        0 <= i % wd::<T>() < wd::<T>(),
        i / wd::<T>() < n <==> i < n * wd::<T>(),
        i == (i / wd::<T>()) * wd::<T>() + i % wd::<T>(),
{
    T::lemma_width();
    let w = wd::<T>();
    lemma_fundamental_div_mod(i, w);
    assert(i == w * (i / w) + i % w);
    assert(w * (i / w) == (i / w) * w) by (nonlinear_arith);
    lemma_in_range_aux(i, w, n, i / w, i % w);
}

/// Position `k * W + j` addresses bit `j` of word `k`.
pub proof fn lemma_has_bit_at<T: PrimStore>(ws: Seq<T>, k: int, j: int)
    requires
        0 <= k,
        0 <= j < wd::<T>(),
    ensures
        has_bit(ws, k * wd::<T>() + j) == (k < ws.len() && ws[k].bit(j)),
        0 <= k * wd::<T>() + j,
{
    T::lemma_width();
    lemma_div_mod_word(k * wd::<T>() + j, wd::<T>(), k, j);
    assert(0 <= k * wd::<T>()) by (nonlinear_arith)
        requires
            0 <= k,
            0 < wd::<T>(),
    ;
}

/// Bits outside a word's width are never set, so `has_bit` is false beyond the capacity.
pub proof fn lemma_has_bit_bound<T: PrimStore>(ws: Seq<T>, i: int)
    ensures
        has_bit(ws, i) ==> 0 <= i < capacity_of(ws),
        has_bit(ws, i) == member(words_view(ws), i),
{
    if 0 <= i {
        lemma_in_range::<T>(ws.len() as int, i);
    }
}

/// Changing one word only changes the bits of that word.
pub proof fn lemma_has_bit_update<T: PrimStore>(ws: Seq<T>, k: int, x: T, i: int)
    requires
        0 <= k < ws.len(),
    ensures
        has_bit(ws.update(k, x), i) == if 0 <= i && i / wd::<T>() == k {
            x.bit(i % wd::<T>())
        } else {
            has_bit(ws, i)
        },
{
    if 0 <= i {
        lemma_in_range::<T>(ws.len() as int, i);
    }
}

/// `k * W + j` stays below the capacity of `n` words.
pub proof fn lemma_pos_bound<T: PrimStore>(n: int, k: int, j: int)
    requires
        0 <= k < n,
        0 <= j < wd::<T>(),
    ensures
        0 <= k * wd::<T>() + j < n * wd::<T>(),
        (k + 1) * wd::<T>() <= n * wd::<T>(),
        k * wd::<T>() + wd::<T>() == (k + 1) * wd::<T>(),
{
    T::lemma_width();
    let w = wd::<T>();
    assert(0 <= k * w + j < n * w && (k + 1) * w <= n * w && k * w + w == (k + 1) * w)
        by (nonlinear_arith)
        requires
            0 <= k < n,
            0 <= j < w,
    ;
}

pub proof fn lemma_count_true_append(a: Seq<bool>, b: Seq<bool>)
    ensures
        count_true(a + b) == count_true(a) + count_true(b),
    decreases b.len(),
{
    if b.len() == 0 {
        assert(a + b =~= a);
    } else {
        lemma_count_true_append(a, b.drop_last());
        assert((a + b).drop_last() =~= a + b.drop_last());
    }
}

pub proof fn lemma_count_true_bound(s: Seq<bool>)
    ensures
        count_true(s) <= s.len(),
    decreases s.len(),
{
    if s.len() > 0 {
        lemma_count_true_bound(s.drop_last());
    }
}

/// A sequence with no `true` entry counts zero, and conversely.
pub proof fn lemma_count_true_zero(s: Seq<bool>)
    ensures
        count_true(s) == 0 <==> (forall|i: int| 0 <= i < s.len() ==> !s[i]),
    decreases s.len(),
{
    if s.len() > 0 {
        lemma_count_true_zero(s.drop_last());
        if count_true(s) == 0 {
            assert forall|i: int| 0 <= i < s.len() implies !s[i] by {
                if i < s.len() - 1 {
                    assert(s[i] == s.drop_last()[i]);
                }
            }
        }
        if forall|i: int| 0 <= i < s.len() ==> !s[i] {
            assert forall|i: int| 0 <= i < s.drop_last().len() implies !s.drop_last()[i] by {
                assert(s.drop_last()[i] == s[i]);
            }
        }
    }
}

/// The view of the first `k + 1` words is the view of the first `k` words followed by word `k`.
pub proof fn lemma_view_take_step<T: PrimStore>(ws: Seq<T>, k: int)
    requires
        0 <= k < ws.len(),
    ensures
        words_view(ws.take(k + 1)) == words_view(ws.take(k)) + word_seq(ws[k]),
        capacity_of(ws.take(k + 1)) == capacity_of(ws.take(k)) + wd::<T>(),
{
    T::lemma_width();
    let w = wd::<T>();
    let a = words_view(ws.take(k + 1));
    let b = words_view(ws.take(k)) + word_seq(ws[k]);
    lemma_pos_bound::<T>(k + 1, k, 0);
    assert(a.len() == b.len());
    assert forall|i: int| 0 <= i < a.len() implies a[i] == b[i] by {
        lemma_in_range::<T>(k + 1, i);
        if i < k * w {
            lemma_in_range::<T>(k, i);
        } else {
            lemma_div_mod_word(i, w, k, i - k * w);
        }
    }
    assert(a =~= b);
}

/// The number of set bits of `ws` is the sum of the set bits of its words, prefix by prefix.
pub proof fn lemma_view_take_all<T: PrimStore>(ws: Seq<T>)
    ensures
        words_view(ws.take(ws.len() as int)) == words_view(ws),
        words_view(ws.take(0)).len() == 0,
{
    assert(ws.take(ws.len() as int) =~= ws);
    T::lemma_width();
    assert(ws.take(0).len() == 0);
    assert(capacity_of(ws.take(0)) == 0 * wd::<T>());
    assert(0 * wd::<T>() == 0) by (nonlinear_arith);
}

/// Positions `[a, b)` that are all unset add nothing to `ones`.
pub proof fn lemma_ones_skip(s: Seq<bool>, a: int, b: int)
    requires
        0 <= a <= b <= s.len(),
        forall|i: int| a <= i < b ==> !s[i],
    ensures
        ones(s.take(b)) == ones(s.take(a)),
    decreases b - a,
{
    if a < b {
        lemma_ones_skip(s, a, b - 1);
        assert(s.take(b).drop_last() =~= s.take(b - 1));
    }
}

/// A set position extends `ones` by itself.
pub proof fn lemma_ones_push(s: Seq<bool>, b: int)
    requires
        0 <= b < s.len(),
        s[b],
    ensures
        ones(s.take(b + 1)) == ones(s.take(b)).push(b as usize),
{
    assert(s.take(b + 1).drop_last() =~= s.take(b));
}

/// Every entry of `ones(s)` is a set position of `s`, strictly increasing, and every set
/// position appears.
pub proof fn lemma_ones_members(s: Seq<bool>)
    requires
        s.len() <= usize::MAX + 1,
    ensures
        forall|j: int| 0 <= j < ones(s).len() ==> 0 <= #[trigger] ones(s)[j] < s.len() && s[ones(s)[j] as int],
        forall|j1: int, j2: int| 0 <= j1 < j2 < ones(s).len() ==> ones(s)[j1] < ones(s)[j2],
        forall|i: int| 0 <= i < s.len() && s[i] ==> ones(s).contains(i as usize),
        ones(s).len() == count_true(s),
    decreases s.len(),
{
    if s.len() > 0 {
        let p = s.drop_last();
        lemma_ones_members(p);
        assert forall|i: int| 0 <= i < s.len() && s[i] implies ones(s).contains(i as usize) by {
            if i < s.len() - 1 {
                assert(p[i] == s[i]);
                let j = choose|j: int| 0 <= j < ones(p).len() && ones(p)[j] == i as usize;
                assert(ones(s)[j] == i as usize);
            } else {
                assert(ones(s)[ones(s).len() - 1] == i as usize);
            }
        }
    }
}

/// The word holding position `idx`, and the single-bit mask of `idx` inside it.
pub fn index_of<T: PrimStore>(idx: usize) -> (r: (usize, T))
    ensures
        r.0 == idx as int / wd::<T>(),
        forall|j: int| r.1.bit(j) == (j == idx as int % wd::<T>()),
        0 <= idx as int % wd::<T>() < wd::<T>(),
        idx as int == r.0 * wd::<T>() + idx as int % wd::<T>(),
{
    proof {
        T::lemma_width();
        lemma_in_range::<T>(0, idx as int);
    }
    let w = T::bit_width() as usize;
    let seg = idx / w;
    let bit = (idx % w) as u32;
    (seg, T::single(bit))
}

/// Bit `idx` of the word sequence; false beyond the capacity.
pub fn words_contains<T: PrimStore>(ws: &[T], idx: usize) -> (r: bool)
    ensures
        r == has_bit(ws@, idx as int),
{
    let (seg, mask) = index_of::<T>(idx);
    if seg < ws.len() {
        let x = ws[seg].and(mask);
        let z = x.is_zero();
        proof {
            let b = idx as int % wd::<T>();
            if ws@[seg as int].bit(b) {
                assert(x.bit(b));
            }
        }
        !z
    } else {
        false
    }
}

/// Sets bit `idx` to `value`; positions beyond the capacity are ignored.
pub fn words_set<T: PrimStore>(ws: &mut [T], idx: usize, value: bool)
    ensures
        final(ws)@.len() == old(ws)@.len(),
        forall|i: int|
            #![trigger has_bit(final(ws)@, i)]
            has_bit(final(ws)@, i) == if i == idx && (idx as int) < capacity_of(old(ws)@) {
                value
            } else {
                has_bit(old(ws)@, i)
            },
{
    let (seg, mask) = index_of::<T>(idx);
    if seg < ws.len() {
        let old_word = ws[seg];
        let x = if value {
            old_word.or(mask)
        } else {
            old_word.and_not(mask)
        };
        ws[seg] = x;
        proof {
            assert forall|i: int|
                #![trigger has_bit(ws@, i)]
                has_bit(ws@, i) == if i == idx && (idx as int) < capacity_of(old(ws)@) {
                    value
                } else {
                    has_bit(old(ws)@, i)
                } by {
                lemma_in_range::<T>(old(ws)@.len() as int, idx as int);
                lemma_has_bit_update(old(ws)@, seg as int, x, i);
                if 0 <= i {
                    lemma_in_range::<T>(old(ws)@.len() as int, i);
                }
            }
        }
    } else {
        proof {
            lemma_in_range::<T>(old(ws)@.len() as int, idx as int);
        }
    }
}

/// Sets bit `idx`; returns whether it was unset before. Positions beyond the capacity are
/// ignored and give `false`.
pub fn words_insert<T: PrimStore>(ws: &mut [T], idx: usize) -> (r: bool)
    ensures
        r == ((idx as int) < capacity_of(old(ws)@) && !has_bit(old(ws)@, idx as int)),
        final(ws)@.len() == old(ws)@.len(),
        forall|i: int|
            #![trigger has_bit(final(ws)@, i)]
            has_bit(final(ws)@, i) == (has_bit(old(ws)@, i) || (i == idx && (idx as int)
                < capacity_of(old(ws)@))),
{
    let was = words_contains(ws, idx);
    words_set(ws, idx, true);
    proof {
        lemma_in_range::<T>(old(ws)@.len() as int, idx as int);
    }
    let cap_ok = index_of::<T>(idx).0 < ws.len();
    cap_ok && !was
}

/// Clears bit `idx`; returns whether it was set before.
pub fn words_remove<T: PrimStore>(ws: &mut [T], idx: usize) -> (r: bool)
    ensures
        r == has_bit(old(ws)@, idx as int),
        final(ws)@.len() == old(ws)@.len(),
        forall|i: int|
            #![trigger has_bit(final(ws)@, i)]
            has_bit(final(ws)@, i) == (has_bit(old(ws)@, i) && i != idx),
{
    let was = words_contains(ws, idx);
    words_set(ws, idx, false);
    proof {
        assert forall|i: int| #![trigger has_bit(ws@, i)] has_bit(ws@, i) == (has_bit(old(ws)@, i) && i != idx) by {
            lemma_has_bit_bound(old(ws)@, i);
        }
    }
    was
}

/// Flips bit `idx`; positions beyond the capacity are ignored.
pub fn words_toggle<T: PrimStore>(ws: &mut [T], idx: usize)
    ensures
        final(ws)@.len() == old(ws)@.len(),
        forall|i: int|
            #![trigger has_bit(final(ws)@, i)]
            has_bit(final(ws)@, i) == if i == idx && (idx as int) < capacity_of(old(ws)@) {
                !has_bit(old(ws)@, i)
            } else {
                has_bit(old(ws)@, i)
            },
{
    let was = words_contains(ws, idx);
    words_set(ws, idx, !was);
}

/// Clears every bit.
pub fn words_clear<T: PrimStore>(ws: &mut [T])
    ensures
        final(ws)@.len() == old(ws)@.len(),
        forall|i: int| !has_bit(final(ws)@, i),
{
    let n = ws.len();
    let mut k: usize = 0;
    while k < n
        invariant
            n == ws@.len(),
            n == old(ws)@.len(),
            k <= n,
            forall|j: int, b: int| 0 <= j < k ==> !(#[trigger] ws@[j].bit(b)),
        decreases n - k,
    {
        ws[k] = T::zero();
        k = k + 1;
    }
    proof {
        assert forall|i: int| !has_bit(ws@, i) by {
            if 0 <= i {
                lemma_in_range::<T>(n as int, i);
            }
        }
    }
}

/// Number of set bits.
pub fn words_len<T: PrimStore>(ws: &[T]) -> (r: usize)
    requires
        fits(ws@),
    ensures
        r == count_true(words_view(ws@)),
{
    let n = ws.len();
    let mut total: usize = 0;
    let mut k: usize = 0;
    proof {
        lemma_view_take_all(ws@);
        T::lemma_width();
    }
    while k < n
        invariant
            n == ws@.len(),
            k <= n,
            fits(ws@),
            total == count_true(words_view(ws@.take(k as int))),
            total <= capacity_of(ws@.take(k as int)),
            capacity_of(ws@.take(k as int)) == k * wd::<T>(),
        decreases n - k,
    {
        let c = ws[k].count_ones();
        proof {
            lemma_view_take_step(ws@, k as int);
            lemma_count_true_append(words_view(ws@.take(k as int)), word_seq(ws@[k as int]));
            assert(word_seq(ws@[k as int]) =~= Seq::new(T::width(), |i: int| ws@[k as int].bit(i)));
            lemma_count_true_bound(word_seq(ws@[k as int]));
            T::lemma_width();
            lemma_pos_bound::<T>(n as int, k as int, 0);
        }
        total = total + c as usize;
        k = k + 1;
    }
    proof {
        lemma_view_take_all(ws@);
    }
    total
}

/// Whether no bit is set.
pub fn words_is_empty<T: PrimStore>(ws: &[T]) -> (r: bool)
    ensures
        r == (forall|i: int| !has_bit(ws@, i)),
{
    let n = ws.len();
    let mut k: usize = 0;
    while k < n
        invariant
            n == ws@.len(),
            k <= n,
            forall|j: int, b: int| 0 <= j < k ==> !(#[trigger] ws@[j].bit(b)),
        decreases n - k,
    {
        if !ws[k].is_zero() {
            proof {
                let b = choose|b: int| ws@[k as int].bit(b);
                T::lemma_bit_range(ws@[k as int], b);
                lemma_has_bit_at(ws@, k as int, b);
            }
            return false;
        }
        k = k + 1;
    }
    proof {
        assert forall|i: int| !has_bit(ws@, i) by {
            if 0 <= i {
                lemma_in_range::<T>(n as int, i);
            }
        }
    }
    true
}

/// Number of bit positions.
pub fn words_capacity<T: PrimStore>(ws: &[T]) -> (r: usize)
    requires
        fits(ws@),
    ensures
        r == capacity_of(ws@),
{
    ws.len() * (T::bit_width() as usize)
}

/// Appends the positions of the set bits of `w`, read as word `k` of the bit sequence `s`.
fn push_word_ones<T: PrimStore>(v: &mut Vec<usize>, w: T, k: usize, Ghost(s): Ghost<Seq<bool>>)
    requires
        old(v)@ == ones(s.take(k * wd::<T>())),
        (k + 1) * wd::<T>() <= s.len(),
        s.len() <= usize::MAX,
        forall|j: int| 0 <= j < wd::<T>() ==> #[trigger] w.bit(j) == s[k * wd::<T>() + j],
    ensures
        final(v)@ == ones(s.take((k + 1) * wd::<T>())),
{
    proof {
        T::lemma_width();
        assert(k * wd::<T>() + wd::<T>() == (k + 1) * wd::<T>()) by (nonlinear_arith);
        assert(0 <= k * wd::<T>()) by (nonlinear_arith)
            requires
                k >= 0,
                wd::<T>() > 0,
        ;
    }
    let base = k * (T::bit_width() as usize);
    let mut rest = w;
    let ghost mut p: int = 0;
    proof {
        assert forall|j: int| #[trigger] rest.bit(j) == (w.bit(j) && j >= p) by {
            T::lemma_bit_range(w, j);
        }
    }
    while !rest.is_zero()
        invariant
            8 <= T::width() <= 64,
            base == k * wd::<T>(),
            0 <= base,
            base + wd::<T>() <= s.len() <= usize::MAX,
            0 <= p <= wd::<T>(),
            forall|j: int| #[trigger] rest.bit(j) == (w.bit(j) && j >= p),
            forall|j: int| 0 <= j < wd::<T>() ==> #[trigger] w.bit(j) == s[base + j],
            v@ == ones(s.take(base + p)),
        decreases wd::<T>() - p,
    {
        let t = rest.trailing_zeros();
        proof {
            assert(t < T::width()) by {
                let b = choose|b: int| rest.bit(b);
                T::lemma_bit_range(rest, b);
            }
            assert(rest.bit(t as int));
            assert forall|i: int| base + p <= i < base + t implies !s[i] by {
                assert(!rest.bit(i - base));
            }
            lemma_ones_skip(s, base + p, base + t);
            lemma_ones_push(s, base + t);
        }
        v.push(base + t as usize);
        rest = rest.and_not(T::single(t));
        proof {
            p = t + 1;
        }
    }
    proof {
        assert forall|i: int| base + p <= i < base + wd::<T>() implies !s[i] by {
            assert(!rest.bit(i - base));
        }
        lemma_ones_skip(s, base + p, base + wd::<T>());
    }
}

/// Positions of all set bits, in increasing order.
pub fn words_iter<T: PrimStore>(ws: &[T]) -> (r: Vec<usize>)
    requires
        fits(ws@),
    ensures
        r@ == ones(words_view(ws@)),
{
    let n = ws.len();
    let mut v: Vec<usize> = Vec::new();
    let mut k: usize = 0;
    let ghost s = words_view(ws@);
    proof {
        T::lemma_width();
        assert(s.take(0) =~= Seq::<bool>::empty());
    }
    while k < n
        invariant
            n == ws@.len(),
            k <= n,
            fits(ws@),
            s == words_view(ws@),
            v@ == ones(s.take(k * wd::<T>())),
        decreases n - k,
    {
        proof {
            T::lemma_width();
            lemma_pos_bound::<T>(n as int, k as int, 0);
            assert forall|j: int| 0 <= j < wd::<T>() implies #[trigger] ws@[k as int].bit(j) == s[k * wd::<T>() + j] by {
                lemma_pos_bound::<T>(n as int, k as int, j);
                lemma_has_bit_at(ws@, k as int, j);
            }
        }
        push_word_ones(&mut v, ws[k], k, Ghost(s));
        k = k + 1;
    }
    proof {
        assert(s.take(n * wd::<T>()) =~= s);
    }
    v
}

/// Lowest set position, if any.
pub fn words_first<T: PrimStore>(ws: &[T]) -> (r: Option<usize>)
    requires
        fits(ws@),
    ensures
        match r {
            None => forall|i: int| !has_bit(ws@, i),
            Some(p) => has_bit(ws@, p as int) && forall|i: int| i < p ==> !has_bit(ws@, i),
        },
{
    let n = ws.len();
    let mut k: usize = 0;
    while k < n
        invariant
            n == ws@.len(),
            k <= n,
            fits(ws@),
            forall|j: int, b: int| 0 <= j < k ==> !(#[trigger] ws@[j].bit(b)),
        decreases n - k,
    {
        let word = ws[k];
        if !word.is_zero() {
            let t = word.trailing_zeros();
            proof {
                T::lemma_width();
                assert(t < T::width()) by {
                    let b = choose|b: int| word.bit(b);
                    T::lemma_bit_range(word, b);
                }
                lemma_pos_bound::<T>(n as int, k as int, t as int);
                lemma_has_bit_at(ws@, k as int, t as int);
            }
            let pos = k * (T::bit_width() as usize) + t as usize;
            proof {
                assert forall|i: int| i < pos implies !has_bit(ws@, i) by {
                    if 0 <= i {
                        lemma_in_range::<T>(n as int, i);
                        let q = i / wd::<T>();
                        if q == k {
                            lemma_div_mod_word(i, wd::<T>(), k as int, i % wd::<T>());
                        } else if q > k {
                            lemma_div_mod_word(pos as int, wd::<T>(), k as int, t as int);
                            assert(q * wd::<T>() >= (k + 1) * wd::<T>()) by (nonlinear_arith)
                                requires
                                    q >= k + 1,
                                    wd::<T>() > 0,
                            ;
                        }
                    }
                }
            }
            return Some(pos);
        }
        k = k + 1;
    }
    proof {
        assert forall|i: int| !has_bit(ws@, i) by {
            if 0 <= i {
                lemma_in_range::<T>(n as int, i);
            }
        }
    }
    None
}

/// Highest set position, if any.
pub fn words_last<T: PrimStore>(ws: &[T]) -> (r: Option<usize>)
    requires
        fits(ws@),
    ensures
        match r {
            None => forall|i: int| !has_bit(ws@, i),
            Some(p) => has_bit(ws@, p as int) && forall|i: int| i > p ==> !has_bit(ws@, i),
        },
{
    let n = ws.len();
    let mut k: usize = n;
    while k > 0
        invariant
            n == ws@.len(),
            k <= n,
            fits(ws@),
            forall|j: int, b: int| k <= j < n ==> !(#[trigger] ws@[j].bit(b)),
        decreases k,
    {
        let word = ws[k - 1];
        if !word.is_zero() {
            let lz = word.leading_zeros();
            proof {
                T::lemma_width();
                assert(lz < T::width()) by {
                    let b = choose|b: int| word.bit(b);
                    T::lemma_bit_range(word, b);
                }
                lemma_pos_bound::<T>(n as int, k - 1, T::width() - 1 - lz);
                lemma_has_bit_at(ws@, k - 1, T::width() - 1 - lz);
            }
            let bit = (T::bit_width() - 1 - lz) as usize;
            let pos = (k - 1) * (T::bit_width() as usize) + bit;
            proof {
                assert forall|i: int| i > pos implies !has_bit(ws@, i) by {
                    lemma_in_range::<T>(n as int, i);
                    let q = i / wd::<T>();
                    if q == k - 1 {
                        lemma_div_mod_word(i, wd::<T>(), k - 1, i % wd::<T>());
                    } else if q < k - 1 {
                        assert(i < (k - 1) * wd::<T>()) by (nonlinear_arith)
                            requires
                                q <= k - 2,
                                i == q * wd::<T>() + i % wd::<T>(),
                                i % wd::<T>() < wd::<T>(),
                        ;
                    }
                }
            }
            return Some(pos);
        }
        k = k - 1;
    }
    proof {
        assert forall|i: int| !has_bit(ws@, i) by {
            if 0 <= i {
                lemma_in_range::<T>(n as int, i);
            }
        }
    }
    None
}

/// Removes and returns the lowest set position, if any.
pub fn words_pop_first<T: PrimStore>(ws: &mut [T]) -> (r: Option<usize>)
    requires
        fits(old(ws)@),
    ensures
        final(ws)@.len() == old(ws)@.len(),
        match r {
            None => (forall|i: int| !has_bit(old(ws)@, i)) && final(ws)@ == old(ws)@,
            Some(p) => has_bit(old(ws)@, p as int) && (forall|i: int|
                i < p ==> !has_bit(old(ws)@, i)) && (forall|i: int|
                #![trigger has_bit(final(ws)@, i)]
                has_bit(final(ws)@, i) == (has_bit(old(ws)@, i) && i != p)),
        },
{
    let r = words_first(ws);
    if let Some(p) = r {
        words_remove(ws, p);
    }
    r
}

/// Removes and returns the highest set position, if any.
pub fn words_pop_last<T: PrimStore>(ws: &mut [T]) -> (r: Option<usize>)
    requires
        fits(old(ws)@),
    ensures
        final(ws)@.len() == old(ws)@.len(),
        match r {
            None => (forall|i: int| !has_bit(old(ws)@, i)) && final(ws)@ == old(ws)@,
            Some(p) => has_bit(old(ws)@, p as int) && (forall|i: int|
                i > p ==> !has_bit(old(ws)@, i)) && (forall|i: int|
                #![trigger has_bit(final(ws)@, i)]
                has_bit(final(ws)@, i) == (has_bit(old(ws)@, i) && i != p)),
        },
{
    let r = words_last(ws);
    if let Some(p) = r {
        words_remove(ws, p);
    }
    r
}

/// Whether every set position of `a` is set in `b`.
pub fn words_is_subset<T: PrimStore>(a: &[T], b: &[T]) -> (r: bool)
    ensures
        r == (forall|i: int| has_bit(a@, i) ==> has_bit(b@, i)),
{
    let na = a.len();
    let nb = b.len();
    let min = if na < nb {
        na
    } else {
        nb
    };
    let mut k: usize = 0;
    while k < min
        invariant
            na == a@.len(),
            nb == b@.len(),
            min <= na,
            min <= nb,
            min == na || min == nb,
            k <= min,
            forall|j: int, c: int| 0 <= j < k ==> #[trigger] a@[j].bit(c) ==> b@[j].bit(c),
        decreases min - k,
    {
        let d = a[k].and_not(b[k]);
        if !d.is_zero() {
            proof {
                let c = choose|c: int| d.bit(c);
                T::lemma_bit_range(d, c);
                lemma_has_bit_at(a@, k as int, c);
                lemma_has_bit_at(b@, k as int, c);
            }
            return false;
        }
        k = k + 1;
    }
    while k < na
        invariant
            na == a@.len(),
            nb == b@.len(),
            min <= na,
            min <= nb,
            min == na || min == nb,
            min <= k <= na,
            forall|j: int, c: int| 0 <= j < min ==> #[trigger] a@[j].bit(c) ==> b@[j].bit(c),
            forall|j: int, c: int| min <= j < k ==> !(#[trigger] a@[j].bit(c)),
        decreases na - k,
    {
        if !a[k].is_zero() {
            proof {
                let c = choose|c: int| a@[k as int].bit(c);
                T::lemma_bit_range(a@[k as int], c);
                lemma_has_bit_at(a@, k as int, c);
                lemma_has_bit_at(b@, k as int, c);
            }
            return false;
        }
        k = k + 1;
    }
    proof {
        assert forall|i: int| has_bit(a@, i) implies has_bit(b@, i) by {
            lemma_in_range::<T>(na as int, i);
        }
    }
    true
}

/// Whether no position is set in both `a` and `b`.
pub fn words_is_disjoint<T: PrimStore>(a: &[T], b: &[T]) -> (r: bool)
    ensures
        r == (forall|i: int| !(has_bit(a@, i) && has_bit(b@, i))),
{
    let na = a.len();
    let nb = b.len();
    let min = if na < nb {
        na
    } else {
        nb
    };
    let mut k: usize = 0;
    while k < min
        invariant
            na == a@.len(),
            nb == b@.len(),
            min <= na,
            min <= nb,
            min == na || min == nb,
            k <= min,
            forall|j: int, c: int| 0 <= j < k ==> !(#[trigger] a@[j].bit(c) && b@[j].bit(c)),
        decreases min - k,
    {
        let d = a[k].and(b[k]);
        if !d.is_zero() {
            proof {
                let c = choose|c: int| d.bit(c);
                T::lemma_bit_range(d, c);
                lemma_has_bit_at(a@, k as int, c);
                lemma_has_bit_at(b@, k as int, c);
            }
            return false;
        }
        k = k + 1;
    }
    proof {
        assert forall|i: int| !(has_bit(a@, i) && has_bit(b@, i)) by {
            if 0 <= i {
                lemma_in_range::<T>(na as int, i);
                if has_bit(a@, i) && has_bit(b@, i) {
                    let q = i / wd::<T>();
                    assert(q < min);
                    assert(!(a@[q].bit(i % wd::<T>()) && b@[q].bit(i % wd::<T>())));
                }
            }
        }
    }
    true
}

/// Whether `a` and `b` hold the same positions, whatever their lengths.
pub fn words_eq<T: PrimStore>(a: &[T], b: &[T]) -> (r: bool)
    ensures
        r == (forall|i: int| has_bit(a@, i) == has_bit(b@, i)),
{
    let x = words_is_subset(a, b);
    let y = words_is_subset(b, a);
    x && y
}

/// A word-wise set operation.
#[derive(Clone, Copy, PartialEq, Eq, Structural, Debug)]
pub enum WordOp {
    /// Positions in the left operand and not the right.
    Difference,
    /// Positions in both operands.
    Intersection,
    /// Positions in either operand.
    Union,
    /// Positions in exactly one operand.
    SymmetricDifference,
}

impl WordOp {
    pub open spec fn spec_apply(self, x: bool, y: bool) -> bool {
        match self {
            WordOp::Difference => x && !y,
            WordOp::Intersection => x && y,
            WordOp::Union => x || y,
            WordOp::SymmetricDifference => x != y,
        }
    }

    pub fn apply<T: PrimStore>(self, a: T, b: T) -> (r: T)
        ensures
            forall|i: int| #[trigger] r.bit(i) == self.spec_apply(a.bit(i), b.bit(i)),
    {
        match self {
            WordOp::Difference => a.and_not(b),
            WordOp::Intersection => a.and(b),
            WordOp::Union => a.or(b),
            WordOp::SymmetricDifference => a.xor(b),
        }
    }
}

/// The bits of `op` applied to `a` and `b` over the first `len` words.
pub open spec fn op_view<T: PrimStore>(a: Seq<T>, b: Seq<T>, len: int, op: WordOp) -> Seq<bool> {
    Seq::new((len * wd::<T>()) as nat, |i: int| op.spec_apply(has_bit(a, i), has_bit(b, i)))
}

/// The bits of `op` over words are the bits of `op` over the views.
pub proof fn lemma_op_view_combine<T: PrimStore>(a: Seq<T>, b: Seq<T>, len: int, op: WordOp)
    requires
        len >= 0,
    ensures
        op_view(a, b, len, op) == combine(
            words_view(a),
            words_view(b),
            (len * wd::<T>()) as nat,
            op,
        ),
{
    assert forall|i: int| #![trigger has_bit(a, i)] 0 <= i < len * wd::<T>() implies has_bit(a, i) == member(words_view(a), i) && has_bit(b, i) == member(words_view(b), i) by {
        lemma_has_bit_bound(a, i);
        lemma_has_bit_bound(b, i);
    }
    assert(op_view(a, b, len, op) =~= combine(words_view(a), words_view(b), (len * wd::<T>()) as nat, op));
}

/// Positions, in increasing order, of `op` applied to `a` and `b` over the first `len` words.
pub fn words_op_ones<T: PrimStore>(a: &[T], b: &[T], len: usize, op: WordOp) -> (r: Vec<usize>)
    requires
        len * wd::<T>() <= usize::MAX,
    ensures
        r@ == ones(op_view(a@, b@, len as int, op)),
{
    let mut v: Vec<usize> = Vec::new();
    let mut k: usize = 0;
    let ghost s = op_view(a@, b@, len as int, op);
    proof {
        T::lemma_width();
        assert(s.take(0) =~= Seq::<bool>::empty());
        assert(0 <= len * wd::<T>()) by (nonlinear_arith)
            requires
                wd::<T>() > 0,
        ;
    }
    while k < len
        invariant
            k <= len,
            len * wd::<T>() <= usize::MAX,
            s == op_view(a@, b@, len as int, op),
            v@ == ones(s.take(k * wd::<T>())),
        decreases len - k,
    {
        let wa = if k < a.len() {
            a[k]
        } else {
            T::zero()
        };
        let wb = if k < b.len() {
            b[k]
        } else {
            T::zero()
        };
        let c = op.apply(wa, wb);
        proof {
            T::lemma_width();
            lemma_pos_bound::<T>(len as int, k as int, 0);
            assert forall|j: int| 0 <= j < wd::<T>() implies #[trigger] c.bit(j) == s[k * wd::<T>() + j] by {
                lemma_pos_bound::<T>(len as int, k as int, j);
                lemma_has_bit_at(a@, k as int, j);
                lemma_has_bit_at(b@, k as int, j);
            }
        }
        push_word_ones(&mut v, c, k, Ghost(s));
        k = k + 1;
    }
    proof {
        assert(s.take(len * wd::<T>()) =~= s);
    }
    v
}

/// Moves the bits of `b` into `a` over the words both have; the words of `b` beyond the
/// length of `a` are left as they are.
pub fn words_append<T: PrimStore>(a: &mut [T], b: &mut [T])
    ensures
        final(a)@.len() == old(a)@.len(),
        final(b)@.len() == old(b)@.len(),
        forall|i: int|
            #![trigger has_bit(final(a)@, i)]
            has_bit(final(a)@, i) == (has_bit(old(a)@, i) || (has_bit(old(b)@, i) && i
                < capacity_of(old(a)@))),
        forall|i: int|
            #![trigger has_bit(final(b)@, i)]
            has_bit(final(b)@, i) == (has_bit(old(b)@, i) && i >= capacity_of(old(a)@)),
{
    let na = a.len();
    let nb = b.len();
    let min = if na < nb {
        na
    } else {
        nb
    };
    let mut k: usize = 0;
    while k < min
        invariant
            na == a@.len() == old(a)@.len(),
            nb == b@.len() == old(b)@.len(),
            min <= na,
            min <= nb,
            min == na || min == nb,
            k <= min,
            forall|j: int| 0 <= j < na && !(0 <= j < k) ==> a@[j] == old(a)@[j],
            forall|j: int| 0 <= j < nb && !(0 <= j < k) ==> b@[j] == old(b)@[j],
            forall|j: int, c: int|
                0 <= j < k ==> #[trigger] a@[j].bit(c) == (old(a)@[j].bit(c) || old(b)@[j].bit(c)),
            forall|j: int, c: int| 0 <= j < k ==> !(#[trigger] b@[j].bit(c)),
        decreases min - k,
    {
        let x = a[k].or(b[k]);
        a[k] = x;
        b[k] = T::zero();
        k = k + 1;
    }
    proof {
        assert forall|i: int| #![trigger has_bit(a@, i)] has_bit(a@, i) == (has_bit(old(a)@, i) || (has_bit(old(b)@, i) && i
                < capacity_of(old(a)@))) by {
            if 0 <= i {
                lemma_in_range::<T>(na as int, i);
                lemma_in_range::<T>(nb as int, i);
            }
        }
        assert forall|i: int| #![trigger has_bit(b@, i)] has_bit(b@, i) == (has_bit(old(b)@, i) && i >= capacity_of(old(a)@)) by {
            if 0 <= i {
                lemma_in_range::<T>(na as int, i);
                lemma_in_range::<T>(nb as int, i);
            }
        }
    }
}

/// Returns all set positions in increasing order and clears them.
pub fn words_drain<T: PrimStore>(ws: &mut [T]) -> (r: Vec<usize>)
    requires
        fits(old(ws)@),
    ensures
        r@ == ones(words_view(old(ws)@)),
        final(ws)@.len() == old(ws)@.len(),
        forall|i: int| !has_bit(final(ws)@, i),
{
    let r = words_iter(ws);
    words_clear(ws);
    r
}

/// Keeps exactly the set positions `p` for which `f(p)` answers `true`.
pub fn words_retain<T: PrimStore, F: Fn(usize) -> bool>(ws: &mut [T], f: F)
    requires
        fits(old(ws)@),
        forall|p: usize| call_requires(f, (p,)),
    ensures
        final(ws)@.len() == old(ws)@.len(),
        forall|i: int|
            #![trigger has_bit(final(ws)@, i)]
            has_bit(final(ws)@, i) ==> has_bit(old(ws)@, i) && call_ensures(f, (i as usize,), true),
        forall|i: int|
            #![trigger has_bit(old(ws)@, i)]
            has_bit(old(ws)@, i) && !has_bit(final(ws)@, i) ==> call_ensures(
                f,
                (i as usize,),
                false,
            ),
{
    let n = ws.len();
    let w_bits = T::bit_width() as usize;
    let mut k: usize = 0;
    proof {
        T::lemma_width();
    }
    while k < n
        invariant
            n == ws@.len() == old(ws)@.len(),
            k <= n,
            fits(old(ws)@),
            w_bits == wd::<T>(),
            8 <= T::width() <= 64,
            forall|p: usize| call_requires(f, (p,)),
            forall|j: int| k <= j < n ==> ws@[j] == old(ws)@[j],
            forall|j: int, c: int|
                0 <= j < k && #[trigger] ws@[j].bit(c) ==> old(ws)@[j].bit(c) && call_ensures(
                    f,
                    ((j * wd::<T>() + c) as usize,),
                    true,
                ),
            forall|j: int, c: int|
                0 <= j < k && #[trigger] old(ws)@[j].bit(c) && !ws@[j].bit(c) ==> call_ensures(
                    f,
                    ((j * wd::<T>() + c) as usize,),
                    false,
                ),
        decreases n - k,
    {
        proof {
            lemma_pos_bound::<T>(n as int, k as int, 0);
        }
        let base = k * w_bits;
        let w = ws[k];
        let mut rest = w;
        let mut keep = w;
        let ghost mut p: int = 0;
        proof {
            assert forall|c: int| #[trigger] rest.bit(c) == (w.bit(c) && c >= p) by {
                T::lemma_bit_range(w, c);
            }
        }
        while !rest.is_zero()
            invariant
                8 <= T::width() <= 64,
                base == k * wd::<T>(),
                k < n,
                fits(old(ws)@),
                n == old(ws)@.len(),
                0 <= p <= wd::<T>(),
                forall|q: usize| call_requires(f, (q,)),
                forall|c: int| #[trigger] rest.bit(c) == (w.bit(c) && c >= p),
                forall|c: int| #[trigger] keep.bit(c) ==> w.bit(c),
                forall|c: int| c >= p ==> #[trigger] keep.bit(c) == w.bit(c),
                forall|c: int|
                    c < p && #[trigger] keep.bit(c) ==> call_ensures(f, ((base + c) as usize,), true),
                forall|c: int|
                    c < p && #[trigger] w.bit(c) && !keep.bit(c) ==> call_ensures(
                        f,
                        ((base + c) as usize,),
                        false,
                    ),
            decreases wd::<T>() - p,
        {
            let t = rest.trailing_zeros();
            proof {
                assert(t < T::width()) by {
                    let b = choose|b: int| rest.bit(b);
                    T::lemma_bit_range(rest, b);
                }
                assert(rest.bit(t as int));
                lemma_pos_bound::<T>(n as int, k as int, t as int);
            }
            let pos = base + t as usize;
            let keep_it = f(pos);
            let ghost old_keep = keep;
            if !keep_it {
                keep = keep.and_not(T::single(t));
            }
            rest = rest.and_not(T::single(t));
            proof {
                assert forall|c: int| c < t + 1 && #[trigger] keep.bit(c) implies call_ensures(
                    f,
                    ((base + c) as usize,),
                    true,
                ) by {
                    if c < p {
                    } else if c < t {
                        assert(!rest.bit(c) || c < p);
                    }
                }
                assert forall|c: int| c < t + 1 && #[trigger] w.bit(c) && !keep.bit(c) implies call_ensures(
                    f,
                    ((base + c) as usize,),
                    false,
                ) by {
                    if c < p {
                    } else if c < t {
                        assert(!rest.bit(c) || c < p);
                    }
                }
                p = t + 1;
            }
        }
        ws[k] = keep;
        proof {
            assert forall|j: int, c: int|
                0 <= j < k + 1 && #[trigger] ws@[j].bit(c) implies old(ws)@[j].bit(c) && call_ensures(
                    f,
                    ((j * wd::<T>() + c) as usize,),
                    true,
                ) by {
                if j == k {
                    T::lemma_bit_range(keep, c);
                    if c >= p {
                        assert(rest.bit(c));
                    }
                }
            }
            assert forall|j: int, c: int|
                0 <= j < k + 1 && #[trigger] old(ws)@[j].bit(c) && !ws@[j].bit(c) implies call_ensures(
                    f,
                    ((j * wd::<T>() + c) as usize,),
                    false,
                ) by {
                if j == k {
                    if c >= p {
                        assert(rest.bit(c));
                    }
                }
            }
        }
        k = k + 1;
    }
    proof {
        assert forall|i: int| #![trigger has_bit(ws@, i)]
            has_bit(ws@, i) implies has_bit(old(ws)@, i) && call_ensures(f, (i as usize,), true) by {
            lemma_in_range::<T>(n as int, i);
        }
        assert forall|i: int| #![trigger has_bit(old(ws)@, i)]
            has_bit(old(ws)@, i) && !has_bit(ws@, i) implies call_ensures(f, (i as usize,), false) by {
            lemma_in_range::<T>(n as int, i);
        }
    }
}

/// A single word seen as a word sequence has the bits of the word.
pub proof fn lemma_single_word<T: PrimStore>(w: T)
    ensures
        words_view(seq![w]) == word_seq(w),
        fits(seq![w]),
        capacity_of(seq![w]) == wd::<T>(),
        forall|i: int| #[trigger] has_bit(seq![w], i) == w.bit(i),
{
    T::lemma_width();
    assert forall|i: int| #[trigger] has_bit(seq![w], i) == w.bit(i) by {
        T::lemma_bit_range(w, i);
        if 0 <= i < wd::<T>() {
            lemma_div_mod_word(i, wd::<T>(), 0, i);
        } else if i >= wd::<T>() {
            lemma_in_range::<T>(1, i);
        }
    }
    assert(seq![w].len() == 1);
    assert(1 * wd::<T>() == wd::<T>()) by (nonlinear_arith);
    assert(capacity_of(seq![w]) == wd::<T>());
    assert(words_view(seq![w]).len() == word_seq(w).len());
    assert(words_view(seq![w]) =~= word_seq(w));
}

/// Replaces each word of `a` by `op` of it and the matching word of `b` (a zero word where
/// `b` is shorter).
pub fn words_apply<T: PrimStore>(a: &mut [T], b: &[T], op: WordOp)
    ensures
        final(a)@.len() == old(a)@.len(),
        forall|i: int|
            #![trigger has_bit(final(a)@, i)]
            has_bit(final(a)@, i) == (0 <= i < capacity_of(old(a)@) && op.spec_apply(
                has_bit(old(a)@, i),
                has_bit(b@, i),
            )),
{
    let n = a.len();
    let mut k: usize = 0;
    while k < n
        invariant
            n == a@.len() == old(a)@.len(),
            k <= n,
            forall|j: int| k <= j < n ==> a@[j] == old(a)@[j],
            forall|j: int, c: int|
                0 <= j < k ==> #[trigger] a@[j].bit(c) == op.spec_apply(
                    old(a)@[j].bit(c),
                    j < b@.len() && b@[j].bit(c),
                ),
        decreases n - k,
    {
        let wb = if k < b.len() {
            b[k]
        } else {
            T::zero()
        };
        let x = op.apply(a[k], wb);
        a[k] = x;
        k = k + 1;
    }
    proof {
        assert forall|i: int| #![trigger has_bit(a@, i)] has_bit(a@, i) == (0 <= i < capacity_of(old(a)@) && op.spec_apply(
                has_bit(old(a)@, i),
                has_bit(b@, i),
            )) by {
            if 0 <= i {
                lemma_in_range::<T>(n as int, i);
                lemma_in_range::<T>(b@.len() as int, i);
                let q = i / wd::<T>();
                let c = i % wd::<T>();
                if q < n {
                    T::lemma_bit_range(a@[q], c);
                }
            }
        }
    }
}

/// Flips every bit.
pub fn words_not<T: PrimStore>(a: &mut [T])
    ensures
        final(a)@.len() == old(a)@.len(),
        forall|i: int|
            #![trigger has_bit(final(a)@, i)]
            has_bit(final(a)@, i) == (0 <= i < capacity_of(old(a)@) && !has_bit(old(a)@, i)),
{
    let n = a.len();
    let mut k: usize = 0;
    while k < n
        invariant
            n == a@.len() == old(a)@.len(),
            k <= n,
            forall|j: int| k <= j < n ==> a@[j] == old(a)@[j],
            forall|j: int, c: int|
                0 <= j < k ==> #[trigger] a@[j].bit(c) == (0 <= c < wd::<T>() && !old(a)@[j].bit(c)),
        decreases n - k,
    {
        let x = a[k].not();
        a[k] = x;
        k = k + 1;
    }
    proof {
        assert forall|i: int| #![trigger has_bit(a@, i)] has_bit(a@, i) == (0 <= i < capacity_of(old(a)@) && !has_bit(old(a)@, i)) by {
            if 0 <= i {
                lemma_in_range::<T>(n as int, i);
            }
        }
    }
}

} // verus!

verus! {

/// The bits of `w` that `f` rejects, where `f` is asked about each set bit `c` as position
/// `base + c`.
pub fn rejected_bits<T: PrimStore, F: Fn(usize) -> bool>(w: T, base: usize, f: &F) -> (m: T)
    requires
        base + wd::<T>() <= usize::MAX + 1,
        forall|p: usize| call_requires(*f, (p,)),
    ensures
        forall|c: int| #[trigger] m.bit(c) ==> w.bit(c) && call_ensures(*f, ((base + c) as usize,), false),
        forall|c: int| w.bit(c) && !#[trigger] m.bit(c) ==> call_ensures(*f, ((base + c) as usize,), true),
{
    let mut m = T::zero();
    let mut rest = w;
    let ghost mut p: int = 0;
    proof {
        T::lemma_width();
        assert forall|c: int| #[trigger] rest.bit(c) == (w.bit(c) && c >= p) by {
            T::lemma_bit_range(w, c);
        }
    }
    while !rest.is_zero()
        invariant
            8 <= T::width() <= 64,
            base + wd::<T>() <= usize::MAX + 1,
            forall|q: usize| call_requires(*f, (q,)),
            0 <= p <= wd::<T>(),
            forall|c: int| #[trigger] rest.bit(c) == (w.bit(c) && c >= p),
            forall|c: int| #[trigger] m.bit(c) ==> w.bit(c) && c < p && call_ensures(*f, ((base + c) as usize,), false),
            forall|c: int| w.bit(c) && c < p && !#[trigger] m.bit(c) ==> call_ensures(*f, ((base + c) as usize,), true),
        decreases wd::<T>() - p,
    {
        let t = rest.trailing_zeros();
        proof {
            assert(t < T::width()) by {
                let b = choose|b: int| rest.bit(b);
                T::lemma_bit_range(rest, b);
            }
            assert(rest.bit(t as int));
            assert forall|c: int| p <= c < t implies !w.bit(c) by {
                assert(!rest.bit(c));
            }
        }
        let single = T::single(t);
        rest = rest.and_not(single);
        let keep = f(base + t as usize);
        let ghost before = m;
        if !keep {
            m = m.or(single);
        }
        proof {
            p = t + 1;
        }
    }
    proof {
        assert forall|c: int| w.bit(c) implies c < p by {
            assert(!rest.bit(c));
        }
    }
    m
}

} // verus!

verus! {

/// For a word read, the lowest set bit and the mask that clears exactly that bit when an
/// atomic `and` applies it; `None` when no bit is set.
pub fn lowest_bit_clear<T: PrimStore>(w: T) -> (r: Option<(u32, T)>)
    ensures
        match r {
            None => forall|c: int| !w.bit(c),
            Some((b, keep)) => b < T::width() && w.bit(b as int) && (forall|j: int| j < b ==> !w.bit(j))
                && forall|c: int| #[trigger] keep.bit(c) == (0 <= c < T::width() && c != b),
        },
{
    if w.is_zero() {
        return None;
    }
    let t = w.trailing_zeros();
    proof {
        assert(t < T::width()) by {
            let b = choose|b: int| w.bit(b);
            T::lemma_bit_range(w, b);
        }
        assert forall|j: int| j < t implies !w.bit(j) by {
            T::lemma_bit_range(w, j);
        }
    }
    Some((t, T::single(t).not()))
}

/// For a word read, the highest set bit and the mask that clears exactly that bit when an
/// atomic `and` applies it; `None` when no bit is set.
pub fn highest_bit_clear<T: PrimStore>(w: T) -> (r: Option<(u32, T)>)
    ensures
        match r {
            None => forall|c: int| !w.bit(c),
            Some((b, keep)) => b < T::width() && w.bit(b as int) && (forall|j: int| j > b ==> !w.bit(j))
                && forall|c: int| #[trigger] keep.bit(c) == (0 <= c < T::width() && c != b),
        },
{
    if w.is_zero() {
        return None;
    }
    let lz = w.leading_zeros();
    proof {
        T::lemma_width();
        assert(lz < T::width()) by {
            let b = choose|b: int| w.bit(b);
            T::lemma_bit_range(w, b);
        }
        assert forall|j: int| j > T::width() - 1 - lz implies !w.bit(j) by {
            T::lemma_bit_range(w, j);
        }
    }
    let b = T::bit_width() - 1 - lz;
    Some((b, T::single(b).not()))
}

/// For a word read, the mask that an atomic `and` applies to keep exactly the bits that `f`
/// accepts: the bits of `w` that `f` rejects (asking about bit `c` as position `base + c`)
/// are clear, every other bit below the width is set.
pub fn retain_mask<T: PrimStore, F: Fn(usize) -> bool>(w: T, base: usize, f: &F) -> (keep: T)
    requires
        base + wd::<T>() <= usize::MAX + 1,
        forall|p: usize| call_requires(*f, (p,)),
    ensures
        forall|c: int|
            0 <= c < T::width() && !#[trigger] keep.bit(c) ==> w.bit(c) && call_ensures(
                *f,
                ((base + c) as usize,),
                false,
            ),
        forall|c: int|
            0 <= c < T::width() && w.bit(c) && #[trigger] keep.bit(c) ==> call_ensures(
                *f,
                ((base + c) as usize,),
                true,
            ),
        forall|c: int| 0 <= c < T::width() && !w.bit(c) ==> #[trigger] keep.bit(c),
        forall|c: int| #[trigger] keep.bit(c) ==> 0 <= c < T::width(),
{
    let rejected = rejected_bits(w, base, f);
    rejected.not()
}

} // verus!
