use vstd::prelude::*;
use core::marker::PhantomData;

use crate::atomic::{ascending_below, take_outcome, AtomicPrimStore, PopAttempt};
use crate::word::{count_true, PrimStore};
use crate::words::{
    capacity_of, combine, index_of, lemma_count_true_bound, lemma_ones_members, lemma_pos_bound,
    ones, op_view, retain_mask, wd, words_iter, words_len, words_op_ones, words_view, WordOp,
    bits_apart, bits_within, has_bit, highest_set, lemma_has_bit_at, lemma_has_bit_bound,
    highest_bit_clear, lowest_bit_clear, lowest_set, no_bit_set, words_first, words_is_disjoint, words_is_subset, words_last,
};

verus! {

/// Number of positions `n` atomic words of `A` hold.
pub open spec fn atomic_capacity<A: AtomicPrimStore>(n: int) -> int {
    n * wd::<A::Item>()
}

/// Words of `A` hold no position only when there are none of them.
pub proof fn lemma_atomic_capacity_zero<A: AtomicPrimStore>(n: int)
    requires
        0 <= n,
    ensures
        atomic_capacity::<A>(n) == 0 <==> n == 0,
{
    A::Item::lemma_width();
    assert(atomic_capacity::<A>(n) == 0 <==> n == 0) by (nonlinear_arith)
        requires
            0 <= n,
            wd::<A::Item>() > 0,
    ;
}

/// Reads every word once, in order (relaxed).
pub fn atomic_snapshot<A: AtomicPrimStore>(ws: &[A]) -> (r: Vec<A::Item>)
    ensures
        r@.len() == ws@.len(),
{
    let n = ws.len();
    let mut v: Vec<A::Item> = Vec::new();
    let mut k: usize = 0;
    while k < n
        invariant
            n == ws@.len(),
            k <= n,
            v@.len() == k,
        decreases n - k,
    {
        v.push(ws[k].load_relaxed());
        k = k + 1;
    }
    v
}

/// Number of set bits in a snapshot.
pub fn atomic_len<A: AtomicPrimStore>(ws: &[A]) -> (r: usize)
    requires
        atomic_capacity::<A>(ws@.len() as int) <= usize::MAX,
    ensures
        count_of_some_read::<A::Item>(ws@.len() as int, r as int),
        r <= atomic_capacity::<A>(ws@.len() as int),
{
    let snap = atomic_snapshot(ws);
    proof {
        lemma_count_true_bound(words_view(snap@));
    }
    let r = words_len(snap.as_slice());
    proof {
        assert(count_true(words_view(snap@)) == r as int);
    }
    r
}

/// Some contents of `n` words, as they might be read, have `r` set bits.
pub open spec fn count_of_some_read<T: PrimStore>(n: int, r: int) -> bool {
    exists|s: Seq<T>| s.len() == n && #[trigger] count_true(words_view(s)) == r
}

/// Some contents of `n` words, as they might be read, have the set positions `r`, in order.
pub open spec fn iter_of_some_read<T: PrimStore>(n: int, r: Seq<usize>) -> bool {
    exists|s: Seq<T>| s.len() == n && #[trigger] ones(words_view(s)) == r
}

/// Some contents of `n` words, as they might be read, have no set bit exactly when `r`.
pub open spec fn empty_of_some_read<T: PrimStore>(n: int, r: bool) -> bool {
    exists|s: Seq<T>| s.len() == n && #[trigger] no_bit_set(s) == r
}

/// Some contents of `n` words, as they might be read, have `r` as lowest set position.
pub open spec fn first_of_some_read<T: PrimStore>(n: int, r: Option<usize>) -> bool {
    exists|s: Seq<T>| s.len() == n && #[trigger] lowest_set(s, r)
}

/// Some contents of `n` words, as they might be read, have `r` as highest set position.
pub open spec fn last_of_some_read<T: PrimStore>(n: int, r: Option<usize>) -> bool {
    exists|s: Seq<T>| s.len() == n && #[trigger] highest_set(s, r)
}

/// Some contents of `na` and `nb` words, as they might be read, give `r` as the answer to
/// "is every bit of the first set in the second".
pub open spec fn subset_of_some_reads<T: PrimStore>(na: int, nb: int, r: bool) -> bool {
    exists|sa: Seq<T>, sb: Seq<T>|
        sa.len() == na && sb.len() == nb && #[trigger] bits_within(sa, sb) == r
}

/// Some contents of `na` and `nb` words, as they might be read, give `r` as the answer to
/// "do the two sets share no bit".
pub open spec fn disjoint_of_some_reads<T: PrimStore>(na: int, nb: int, r: bool) -> bool {
    exists|sa: Seq<T>, sb: Seq<T>|
        sa.len() == na && sb.len() == nb && #[trigger] bits_apart(sa, sb) == r
}

/// Whether every word read is zero; stops at the first nonzero word.
pub fn atomic_is_empty<A: AtomicPrimStore>(ws: &[A]) -> (r: bool)
    ensures
        empty_of_some_read::<A::Item>(ws@.len() as int, r),
        ws@.len() == 0 ==> r,
{
    let n = ws.len();
    let mut k: usize = 0;
    let ghost mut seen: Seq<A::Item> = Seq::empty();
    while k < n
        invariant
            n == ws@.len(),
            k <= n,
            seen.len() == k,
            forall|j: int, b: int| 0 <= j < k ==> !#[trigger] seen[j].bit(b),
        decreases n - k,
    {
        let word = ws[k].load_relaxed();
        if !word.is_zero() {
            proof {
                let b = choose|b: int| word.bit(b);
                A::Item::lemma_bit_range(word, b);
                let s = seen.push(word) + Seq::new((n - k - 1) as nat, |j: int| word);
                assert(s[k as int] == word);
                lemma_has_bit_at(s, k as int, b);
                assert(!no_bit_set(s));
            }
            return false;
        }
        proof {
            seen = seen.push(word);
        }
        k = k + 1;
    }
    proof {
        A::Item::lemma_width();
        assert forall|i: int| !has_bit(seen, i) by {
            if has_bit(seen, i) {
                let w = wd::<A::Item>();
                let j = i / w;
                assert(0 <= j) by (nonlinear_arith)
                    requires
                        0 <= i,
                        w > 0,
                        j == i / w,
                ;
                assert(!seen[j].bit(i % w));
            }
        }
        assert(no_bit_set(seen));
    }
    true
}

/// The lowest set position of the words read, if any: every word is read once, then
/// `words_first` decides on the values read.
pub fn atomic_first<A: AtomicPrimStore>(ws: &[A]) -> (r: Option<usize>)
    requires
        atomic_capacity::<A>(ws@.len() as int) <= usize::MAX,
    ensures
        first_of_some_read::<A::Item>(ws@.len() as int, r),
        r matches Some(p) ==> p < atomic_capacity::<A>(ws@.len() as int),
{
    let snap = atomic_snapshot(ws);
    let r = words_first(snap.as_slice());
    proof {
        assert(lowest_set(snap@, r));
        if let Some(p) = r {
            lemma_has_bit_bound(snap@, p as int);
        }
    }
    r
}

/// The highest set position of the words read, if any: every word is read once, then
/// `words_last` decides on the values read.
pub fn atomic_last<A: AtomicPrimStore>(ws: &[A]) -> (r: Option<usize>)
    requires
        atomic_capacity::<A>(ws@.len() as int) <= usize::MAX,
    ensures
        last_of_some_read::<A::Item>(ws@.len() as int, r),
        r matches Some(p) ==> p < atomic_capacity::<A>(ws@.len() as int),
{
    let snap = atomic_snapshot(ws);
    let r = words_last(snap.as_slice());
    proof {
        assert(highest_set(snap@, r));
        if let Some(p) = r {
            lemma_has_bit_bound(snap@, p as int);
        }
    }
    r
}

/// One attempt to clear bit `bit` of word `k`: applies `keep` with one atomic `and` and
/// answers `take_outcome` of the word that the `and` hands back.
fn atomic_take<A: AtomicPrimStore>(ws: &[A], k: usize, bit: u32, keep: A::Item) -> (r: PopAttempt)
    requires
        k < ws@.len(),
        bit < A::Item::width(),
        atomic_capacity::<A>(ws@.len() as int) <= usize::MAX,
    ensures
        r matches PopAttempt::Taken(p) ==> p == k * wd::<A::Item>() + bit && p
            < atomic_capacity::<A>(ws@.len() as int),
        r !is Empty,
{
    proof {
        lemma_pos_bound::<A::Item>(ws@.len() as int, k as int, bit as int);
    }
    let prev = ws[k].fetch_and_acq_rel(keep);
    take_outcome(prev, bit, k * (A::Item::bit_width() as usize) + bit as usize)
}

/// One attempt to remove the lowest set position at or after word `start`: reads words from
/// `start` on until one holds a set bit, lets `lowest_bit_clear` choose that bit and its
/// mask, and tries to clear it. Also gives the word the attempt stopped at, where a `Lost`
/// attempt is to be retried.
pub fn atomic_try_pop_first_from<A: AtomicPrimStore>(ws: &[A], start: usize) -> (r: (
    PopAttempt,
    usize,
))
    requires
        atomic_capacity::<A>(ws@.len() as int) <= usize::MAX,
        start <= ws@.len(),
    ensures
        r.0 matches PopAttempt::Taken(p) ==> p < atomic_capacity::<A>(ws@.len() as int),
        r.0 == PopAttempt::Lost ==> start <= r.1 < ws@.len(),
{
    let n = ws.len();
    let mut k: usize = start;
    while k < n
        invariant
            n == ws@.len(),
            start <= k <= n,
            atomic_capacity::<A>(n as int) <= usize::MAX,
        decreases n - k,
    {
        let word = ws[k].load_acquire();
        match lowest_bit_clear(word) {
            None => {},
            Some((bit, keep)) => {
                return (atomic_take(ws, k, bit, keep), k);
            },
        }
        k = k + 1;
    }
    (PopAttempt::Empty, n)
}

/// One attempt to remove the lowest set position, scanning from the first word.
pub fn atomic_try_pop_first<A: AtomicPrimStore>(ws: &[A]) -> (r: PopAttempt)
    requires
        atomic_capacity::<A>(ws@.len() as int) <= usize::MAX,
    ensures
        r matches PopAttempt::Taken(p) ==> p < atomic_capacity::<A>(ws@.len() as int),
{
    atomic_try_pop_first_from(ws, 0).0
}

/// One attempt to remove the highest set position below word `end`: reads words from
/// `end - 1` down until one holds a set bit, lets `highest_bit_clear` choose that bit and its
/// mask, and tries to clear it. Also gives the bound to retry a `Lost` attempt with (one past
/// the word the attempt stopped at).
pub fn atomic_try_pop_last_before<A: AtomicPrimStore>(ws: &[A], end: usize) -> (r: (
    PopAttempt,
    usize,
))
    requires
        atomic_capacity::<A>(ws@.len() as int) <= usize::MAX,
        end <= ws@.len(),
    ensures
        r.0 matches PopAttempt::Taken(p) ==> p < atomic_capacity::<A>(ws@.len() as int),
        r.0 == PopAttempt::Lost ==> 0 < r.1 <= end,
{
    let n = ws.len();
    let mut k: usize = end;
    while k > 0
        invariant
            n == ws@.len(),
            k <= end <= n,
            atomic_capacity::<A>(n as int) <= usize::MAX,
        decreases k,
    {
        let word = ws[k - 1].load_acquire();
        match highest_bit_clear(word) {
            None => {},
            Some((bit, keep)) => {
                return (atomic_take(ws, k - 1, bit, keep), k);
            },
        }
        k = k - 1;
    }
    (PopAttempt::Empty, 0)
}

/// One attempt to remove the highest set position, scanning from the last word.
pub fn atomic_try_pop_last<A: AtomicPrimStore>(ws: &[A]) -> (r: PopAttempt)
    requires
        atomic_capacity::<A>(ws@.len() as int) <= usize::MAX,
    ensures
        r matches PopAttempt::Taken(p) ==> p < atomic_capacity::<A>(ws@.len() as int),
{
    atomic_try_pop_last_before(ws, ws.len()).0
}

/// Whether bit `idx` is set in the word read; `false` beyond the capacity.
pub fn atomic_contains<A: AtomicPrimStore>(ws: &[A], idx: usize) -> (r: bool)
    ensures
        r ==> idx < atomic_capacity::<A>(ws@.len() as int),
{
    let (seg, mask) = index_of::<A::Item>(idx);
    if seg >= ws.len() {
        return false;
    }
    proof {
        lemma_pos_bound::<A::Item>(ws@.len() as int, seg as int, idx as int % wd::<A::Item>());
    }
    !ws[seg].load_relaxed().and(mask).is_zero()
}

/// Sets bit `idx` atomically; returns whether it was unset. `false` beyond the capacity.
pub fn atomic_insert<A: AtomicPrimStore>(ws: &[A], idx: usize) -> (r: bool)
    ensures
        r ==> idx < atomic_capacity::<A>(ws@.len() as int),
{
    let (seg, mask) = index_of::<A::Item>(idx);
    if seg >= ws.len() {
        return false;
    }
    proof {
        lemma_pos_bound::<A::Item>(ws@.len() as int, seg as int, idx as int % wd::<A::Item>());
    }
    let prev = ws[seg].fetch_or_acq_rel(mask);
    prev.and(mask).is_zero()
}

/// Clears bit `idx` atomically; returns whether it was set. `false` beyond the capacity.
pub fn atomic_remove<A: AtomicPrimStore>(ws: &[A], idx: usize) -> (r: bool)
    ensures
        r ==> idx < atomic_capacity::<A>(ws@.len() as int),
{
    let (seg, mask) = index_of::<A::Item>(idx);
    if seg >= ws.len() {
        return false;
    }
    proof {
        lemma_pos_bound::<A::Item>(ws@.len() as int, seg as int, idx as int % wd::<A::Item>());
    }
    let prev = ws[seg].fetch_and_acq_rel(mask.not());
    !prev.and(mask).is_zero()
}

/// Flips bit `idx` atomically; positions beyond the capacity are ignored.
pub fn atomic_toggle<A: AtomicPrimStore>(ws: &[A], idx: usize) {
    let (seg, mask) = index_of::<A::Item>(idx);
    if seg >= ws.len() {
        return;
    }
    let _ = ws[seg].fetch_xor_acq_rel(mask);
}

/// Stores zero into every word.
pub fn atomic_clear<A: AtomicPrimStore>(ws: &[A]) {
    let n = ws.len();
    let mut k: usize = 0;
    while k < n
        invariant
            n == ws@.len(),
            k <= n,
        decreases n - k,
    {
        ws[k].store_release(A::Item::zero());
        k = k + 1;
    }
}

/// Keeps, in each word as read, the positions that `f` accepts: for each word, `retain_mask`
/// gives the mask for the value read, and one atomic `and` applies it when it clears anything.
pub fn atomic_retain<A: AtomicPrimStore, F: Fn(usize) -> bool>(ws: &[A], f: F)
    requires
        atomic_capacity::<A>(ws@.len() as int) <= usize::MAX,
        forall|p: usize| call_requires(f, (p,)),
{
    let n = ws.len();
    let mut k: usize = 0;
    while k < n
        invariant
            n == ws@.len(),
            k <= n,
            atomic_capacity::<A>(n as int) <= usize::MAX,
            forall|p: usize| call_requires(f, (p,)),
        decreases n - k,
    {
        proof {
            A::Item::lemma_width();
            lemma_pos_bound::<A::Item>(n as int, k as int, wd::<A::Item>() - 1);
        }
        let base = k * (A::Item::bit_width() as usize);
        let word = ws[k].load_relaxed();
        let keep = retain_mask(word, base, &f);
        if !word.and_not(keep).is_zero() {
            let _ = ws[k].fetch_and_acq_rel(keep);
        }
        k = k + 1;
    }
}

/// Set positions of a snapshot, in increasing order.
pub fn atomic_iter<A: AtomicPrimStore>(ws: &[A]) -> (r: Vec<usize>)
    requires
        atomic_capacity::<A>(ws@.len() as int) <= usize::MAX,
    ensures
        iter_of_some_read::<A::Item>(ws@.len() as int, r@),
        ascending_below(r@, atomic_capacity::<A>(ws@.len() as int)),
{
    let snap = atomic_snapshot(ws);
    proof {
        lemma_ones_members(words_view(snap@));
    }
    let r = words_iter(snap.as_slice());
    proof {
        assert(ones(words_view(snap@)) == r@);
    }
    r
}

/// Positions, in increasing order, of `op` applied to snapshots of `a` and `b` over the
/// first `len` words.
pub fn atomic_op_ones<A: AtomicPrimStore>(a: &[A], b: &[A], len: usize, op: WordOp) -> (r: Vec<
    usize,
>)
    requires
        atomic_capacity::<A>(len as int) <= usize::MAX,
    ensures
        ascending_below(r@, atomic_capacity::<A>(len as int)),
{
    let sa = atomic_snapshot(a);
    let sb = atomic_snapshot(b);
    proof {
        lemma_ones_members(op_view(sa@, sb@, len as int, op));
    }
    words_op_ones(sa.as_slice(), sb.as_slice(), len, op)
}

/// Whether every bit of `a` is set in `b`: every word of both is read once, then
/// `words_is_subset` decides on the values read.
pub fn atomic_is_subset<A: AtomicPrimStore>(a: &[A], b: &[A]) -> (r: bool)
    ensures
        subset_of_some_reads::<A::Item>(a@.len() as int, b@.len() as int, r),
        a@.len() == 0 ==> r,
{
    let sa = atomic_snapshot(a);
    let sb = atomic_snapshot(b);
    let r = words_is_subset(sa.as_slice(), sb.as_slice());
    proof {
        assert(bits_within(sa@, sb@) == r);
        if a@.len() == 0 {
            assert forall|i: int| !has_bit(sa@, i) by {
                lemma_has_bit_bound(sa@, i);
            }
        }
    }
    r
}

/// Whether no bit is set in both `a` and `b`: every word of both is read once, then
/// `words_is_disjoint` decides on the values read.
pub fn atomic_is_disjoint<A: AtomicPrimStore>(a: &[A], b: &[A]) -> (r: bool)
    ensures
        disjoint_of_some_reads::<A::Item>(a@.len() as int, b@.len() as int, r),
        a@.len() == 0 || b@.len() == 0 ==> r,
{
    let sa = atomic_snapshot(a);
    let sb = atomic_snapshot(b);
    let r = words_is_disjoint(sa.as_slice(), sb.as_slice());
    proof {
        assert(bits_apart(sa@, sb@) == r);
        if a@.len() == 0 || b@.len() == 0 {
            assert forall|i: int| !(has_bit(sa@, i) && has_bit(sb@, i)) by {
                lemma_has_bit_bound(sa@, i);
                lemma_has_bit_bound(sb@, i);
            }
        }
    }
    r
}

/// Moves the bits of `b` into `a` word by word (each word of `b` swapped out for zero, then
/// or-ed into `a`), and zeroes the words of `b` beyond `a`'s length.
pub fn atomic_append<A: AtomicPrimStore>(a: &[A], b: &[A]) {
    let na = a.len();
    let nb = b.len();
    let mut k: usize = 0;
    while k < nb
        invariant
            na == a@.len(),
            nb == b@.len(),
            k <= nb,
        decreases nb - k,
    {
        if k < na {
            let val = b[k].swap_acq_rel(A::Item::zero());
            let _ = a[k].fetch_or_acq_rel(val);
        } else {
            b[k].store_release(A::Item::zero());
        }
        k = k + 1;
    }
}

/// Or-s `other` into the words of `a`, word by word.
pub fn atomic_union_from<A: AtomicPrimStore>(a: &[A], other: &[A::Item]) {
    let na = a.len();
    let mut k: usize = 0;
    while k < na && k < other.len()
        invariant
            na == a@.len(),
            k <= na,
        decreases na - k,
    {
        let _ = a[k].fetch_or_acq_rel(other[k]);
        k = k + 1;
    }
}

/// The shared base of the multi-word atomic bitsets: a fixed number of atomic words whose
/// bit `i % W` of word `i / W` says whether position `i` is in the set.
///
/// Each operation is atomic per word only; reads of several words are not one snapshot.
///
/// Positions at or beyond the capacity are accepted and ignored, in every build: `contains`,
/// `insert` and `remove` answer `false` for them, and `set` and `toggle` leave the set as it
/// is. No operation panics on them.
#[derive(Debug)]
pub struct AtomicBitSlice<A, V> {
    words: Vec<A>,
    _marker: PhantomData<V>,
}

impl<A: AtomicPrimStore> AtomicBitSlice<A, usize> {
    /// Number of words.
    pub closed spec fn spec_len(&self) -> nat {
        self.words@.len()
    }

    /// Number of positions the set can hold.
    pub open spec fn spec_capacity(&self) -> int {
        atomic_capacity::<A>(self.spec_len() as int)
    }

    /// Well-formedness: the capacity can be counted in a `usize`.
    pub open spec fn wf(&self) -> bool {
        self.spec_capacity() <= usize::MAX
    }

    /// A set over the given atomic words.
    pub fn from_words(words: Vec<A>) -> (r: Self)
        ensures
            r.spec_len() == words@.len(),
    {
        AtomicBitSlice { words, _marker: PhantomData }
    }

    /// The atomic words.
    pub fn as_raw_slice(&self) -> (r: &[A])
        ensures
            r@.len() == self.spec_len(),
    {
        self.words.as_slice()
    }

    /// Number of positions the set can hold.
    pub fn capacity(&self) -> (r: usize)
        requires
            self.wf(),
        ensures
            r == self.spec_capacity(),
    {
        self.words.len() * (A::Item::bit_width() as usize)
    }

    /// Number of elements, counted word by word.
    pub fn len(&self) -> (r: usize)
        requires
            self.wf(),
        ensures
            count_of_some_read::<A::Item>(self.spec_len() as int, r as int),
            r <= self.spec_capacity(),
    {
        atomic_len(self.words.as_slice())
    }

    /// Whether every word read is empty (always so for a set that can hold nothing).
    pub fn is_empty(&self) -> (r: bool)
        ensures
            empty_of_some_read::<A::Item>(self.spec_len() as int, r),
            self.spec_capacity() == 0 ==> r,
    {
        proof {
            lemma_atomic_capacity_zero::<A>(self.spec_len() as int);
        }
        atomic_is_empty(self.words.as_slice())
    }

    /// Smallest element read, if any.
    pub fn first(&self) -> (r: Option<usize>)
        requires
            self.wf(),
        ensures
            first_of_some_read::<A::Item>(self.spec_len() as int, r),
            r matches Some(p) ==> p < self.spec_capacity(),
    {
        atomic_first(self.words.as_slice())
    }

    /// Largest element read, if any.
    pub fn last(&self) -> (r: Option<usize>)
        requires
            self.wf(),
        ensures
            last_of_some_read::<A::Item>(self.spec_len() as int, r),
            r matches Some(p) ==> p < self.spec_capacity(),
    {
        atomic_last(self.words.as_slice())
    }

    /// One attempt to remove the smallest element.
    pub fn try_pop_first(&self) -> (r: PopAttempt)
        requires
            self.wf(),
        ensures
            r matches PopAttempt::Taken(p) ==> p < self.spec_capacity(),
    {
        atomic_try_pop_first(self.words.as_slice())
    }

    /// One attempt to remove the largest element.
    pub fn try_pop_last(&self) -> (r: PopAttempt)
        requires
            self.wf(),
        ensures
            r matches PopAttempt::Taken(p) ==> p < self.spec_capacity(),
    {
        atomic_try_pop_last(self.words.as_slice())
    }

    /// One attempt to remove the smallest element at or after word `start`, and the word the
    /// attempt stopped at (where a `Lost` attempt is to be retried).
    pub fn try_pop_first_from(&self, start: usize) -> (r: (PopAttempt, usize))
        requires
            self.wf(),
            start <= self.spec_len(),
        ensures
            r.0 matches PopAttempt::Taken(p) ==> p < self.spec_capacity(),
            r.0 == PopAttempt::Lost ==> start <= r.1 < self.spec_len(),
    {
        atomic_try_pop_first_from(self.words.as_slice(), start)
    }

    /// One attempt to remove the largest element below word `end`, and the bound to retry a
    /// `Lost` attempt with.
    pub fn try_pop_last_before(&self, end: usize) -> (r: (PopAttempt, usize))
        requires
            self.wf(),
            end <= self.spec_len(),
        ensures
            r.0 matches PopAttempt::Taken(p) ==> p < self.spec_capacity(),
            r.0 == PopAttempt::Lost ==> 0 < r.1 <= end,
    {
        atomic_try_pop_last_before(self.words.as_slice(), end)
    }

    /// Whether `id` is an element when read; `false` beyond the capacity.
    pub fn contains(&self, id: &usize) -> (r: bool)
        ensures
            r ==> *id < self.spec_capacity(),
    {
        atomic_contains(self.words.as_slice(), *id)
    }

    /// Adds `id`; returns whether it was absent. `false` beyond the capacity.
    pub fn insert(&self, id: usize) -> (r: bool)
        ensures
            r ==> id < self.spec_capacity(),
    {
        atomic_insert(self.words.as_slice(), id)
    }

    /// Removes `id`; returns whether it was present. `false` beyond the capacity.
    pub fn remove(&self, id: usize) -> (r: bool)
        ensures
            r ==> id < self.spec_capacity(),
    {
        atomic_remove(self.words.as_slice(), id)
    }

    /// Sets whether `id` is an element; positions beyond the capacity are ignored.
    pub fn set(&self, id: usize, value: bool) {
        if value {
            self.insert(id);
        } else {
            self.remove(id);
        }
    }

    /// Flips whether `id` is an element; positions beyond the capacity are ignored.
    pub fn toggle(&self, id: usize) {
        atomic_toggle(self.words.as_slice(), id)
    }

    /// Empties every word.
    pub fn clear(&self) {
        atomic_clear(self.words.as_slice())
    }

    /// Keeps the elements read `p` for which `f(p)` answers `true`.
    pub fn retain<F: Fn(usize) -> bool>(&self, f: F)
        requires
            self.wf(),
            forall|p: usize| call_requires(f, (p,)),
    {
        atomic_retain(self.words.as_slice(), f)
    }

    /// Elements read, in increasing order.
    pub fn iter(&self) -> (r: Vec<usize>)
        requires
            self.wf(),
        ensures
            iter_of_some_read::<A::Item>(self.spec_len() as int, r@),
            ascending_below(r@, self.spec_capacity()),
    {
        atomic_iter(self.words.as_slice())
    }

    /// Whether every element read is in `other` as read (always so when this set can hold
    /// nothing).
    pub fn is_subset(&self, other: &Self) -> (r: bool)
        ensures
            subset_of_some_reads::<A::Item>(self.spec_len() as int, other.spec_len() as int, r),
            self.spec_capacity() == 0 ==> r,
    {
        proof {
            lemma_atomic_capacity_zero::<A>(self.spec_len() as int);
        }
        atomic_is_subset(self.words.as_slice(), other.words.as_slice())
    }

    /// Whether every element of `other` read is in this set as read (always so when `other`
    /// can hold nothing).
    pub fn is_superset(&self, other: &Self) -> (r: bool)
        ensures
            subset_of_some_reads::<A::Item>(other.spec_len() as int, self.spec_len() as int, r),
            other.spec_capacity() == 0 ==> r,
    {
        other.is_subset(self)
    }

    /// Whether no element read is in both sets (always so when either can hold nothing).
    pub fn is_disjoint(&self, other: &Self) -> (r: bool)
        ensures
            disjoint_of_some_reads::<A::Item>(self.spec_len() as int, other.spec_len() as int, r),
            self.spec_capacity() == 0 || other.spec_capacity() == 0 ==> r,
    {
        proof {
            lemma_atomic_capacity_zero::<A>(self.spec_len() as int);
            lemma_atomic_capacity_zero::<A>(other.spec_len() as int);
        }
        atomic_is_disjoint(self.words.as_slice(), other.words.as_slice())
    }

    /// Elements read in this set and not in `other`, in increasing order.
    pub fn difference(&self, other: &Self) -> (r: Vec<usize>)
        requires
            self.wf(),
        ensures
            ascending_below(r@, self.spec_capacity()),
    {
        atomic_op_ones(self.words.as_slice(), other.words.as_slice(), self.words.len(), WordOp::Difference)
    }

    /// Elements read in both sets, in increasing order.
    pub fn intersection(&self, other: &Self) -> (r: Vec<usize>)
        requires
            self.wf(),
        ensures
            ascending_below(r@, self.spec_capacity()),
    {
        let n = if self.words.len() < other.words.len() {
            self.words.len()
        } else {
            other.words.len()
        };
        proof {
            A::Item::lemma_width();
            assert(atomic_capacity::<A>(n as int) <= self.spec_capacity()) by (nonlinear_arith)
                requires
                    n <= self.spec_len(),
                    wd::<A::Item>() > 0,
            ;
        }
        atomic_op_ones(self.words.as_slice(), other.words.as_slice(), n, WordOp::Intersection)
    }

    /// Elements read in either set, in increasing order.
    pub fn union(&self, other: &Self) -> (r: Vec<usize>)
        requires
            self.wf(),
            other.wf(),
        ensures
            ascending_below(
                r@,
                if self.spec_len() < other.spec_len() {
                    other.spec_capacity()
                } else {
                    self.spec_capacity()
                },
            ),
    {
        let n = if self.words.len() < other.words.len() {
            other.words.len()
        } else {
            self.words.len()
        };
        atomic_op_ones(self.words.as_slice(), other.words.as_slice(), n, WordOp::Union)
    }

    /// Elements read in exactly one of the sets, in increasing order.
    pub fn symmetric_difference(&self, other: &Self) -> (r: Vec<usize>)
        requires
            self.wf(),
            other.wf(),
        ensures
            ascending_below(
                r@,
                if self.spec_len() < other.spec_len() {
                    other.spec_capacity()
                } else {
                    self.spec_capacity()
                },
            ),
    {
        let n = if self.words.len() < other.words.len() {
            other.words.len()
        } else {
            self.words.len()
        };
        atomic_op_ones(self.words.as_slice(), other.words.as_slice(), n, WordOp::SymmetricDifference)
    }

    /// Moves the elements of `other` into this set word by word, and empties `other`.
    pub fn append(&self, other: &Self) {
        atomic_append(self.words.as_slice(), other.words.as_slice())
    }

    /// Adds the raw words `other`, word by word.
    pub fn union_from(&self, other: &[A::Item]) {
        atomic_union_from(self.words.as_slice(), other)
    }
}

} // verus!
