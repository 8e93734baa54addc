use vstd::prelude::*;
use core::marker::PhantomData;
use core::sync::atomic::{AtomicU16, AtomicU32, AtomicU64, AtomicU8, Ordering};

use crate::bitset::BitSet;
use crate::word::PrimStore;
use crate::atomic_slice::{
    atomic_append, atomic_clear, atomic_contains, atomic_first, atomic_insert, atomic_is_disjoint,
    atomic_is_empty, atomic_is_subset, atomic_iter, atomic_last, atomic_len, atomic_op_ones,
    atomic_remove, atomic_retain, atomic_toggle, atomic_try_pop_first, atomic_try_pop_first_from,
    atomic_try_pop_last, atomic_try_pop_last_before,
    atomic_union_from, count_of_some_read, disjoint_of_some_reads, empty_of_some_read,
    first_of_some_read, iter_of_some_read, last_of_some_read, lemma_atomic_capacity_zero,
    subset_of_some_reads,
};
use crate::words::{
    highest_bit_clear, lemma_count_true_bound, lemma_ones_members, lowest_bit_clear, member, ones,
    retain_mask, wd, WordOp,
};

verus! {

/// Whether `s` is strictly increasing with every entry below `n`.
pub open spec fn ascending_below(s: Seq<usize>, n: int) -> bool {
    &&& forall|j: int| 0 <= j < s.len() ==> #[trigger] s[j] < n
    &&& forall|j1: int, j2: int| 0 <= j1 < j2 < s.len() ==> s[j1] < s[j2]
}

/// An atomic primitive word.
///
/// Another thread may change the word between any two operations, so nothing is said of
/// the values that are read; what the bitset operations promise holds whatever they read.
/// Mutations use acquire-release ordering, plain reads relaxed ordering.
pub trait AtomicPrimStore: Sized {
    type Item: PrimStore;

    fn with_value(v: Self::Item) -> Self;

    fn load_relaxed(&self) -> Self::Item;

    fn load_acquire(&self) -> Self::Item;

    fn store_release(&self, v: Self::Item);

    fn fetch_or_acq_rel(&self, v: Self::Item) -> Self::Item;

    fn fetch_and_acq_rel(&self, v: Self::Item) -> Self::Item;

    fn fetch_xor_acq_rel(&self, v: Self::Item) -> Self::Item;

    fn swap_acq_rel(&self, v: Self::Item) -> Self::Item;
}

impl AtomicPrimStore for AtomicU64 {
    type Item = u64;

    fn with_value(v: u64) -> Self {
        AtomicU64::new(v)
    }

    fn load_relaxed(&self) -> u64 {
        self.load(Ordering::Relaxed)
    }

    fn load_acquire(&self) -> u64 {
        self.load(Ordering::Acquire)
    }

    fn store_release(&self, v: u64) {
        self.store(v, Ordering::Release)
    }

    fn fetch_or_acq_rel(&self, v: u64) -> u64 {
        self.fetch_or(v, Ordering::AcqRel)
    }

    fn fetch_and_acq_rel(&self, v: u64) -> u64 {
        self.fetch_and(v, Ordering::AcqRel)
    }

    fn fetch_xor_acq_rel(&self, v: u64) -> u64 {
        self.fetch_xor(v, Ordering::AcqRel)
    }

    fn swap_acq_rel(&self, v: u64) -> u64 {
        self.swap(v, Ordering::AcqRel)
    }
}

impl AtomicPrimStore for AtomicU32 {
    type Item = u32;

    fn with_value(v: u32) -> Self {
        AtomicU32::new(v)
    }

    fn load_relaxed(&self) -> u32 {
        self.load(Ordering::Relaxed)
    }

    fn load_acquire(&self) -> u32 {
        self.load(Ordering::Acquire)
    }

    fn store_release(&self, v: u32) {
        self.store(v, Ordering::Release)
    }

    fn fetch_or_acq_rel(&self, v: u32) -> u32 {
        self.fetch_or(v, Ordering::AcqRel)
    }

    fn fetch_and_acq_rel(&self, v: u32) -> u32 {
        self.fetch_and(v, Ordering::AcqRel)
    }

    fn fetch_xor_acq_rel(&self, v: u32) -> u32 {
        self.fetch_xor(v, Ordering::AcqRel)
    }

    fn swap_acq_rel(&self, v: u32) -> u32 {
        self.swap(v, Ordering::AcqRel)
    }
}

impl AtomicPrimStore for AtomicU16 {
    type Item = u16;

    fn with_value(v: u16) -> Self {
        AtomicU16::new(v)
    }

    fn load_relaxed(&self) -> u16 {
        self.load(Ordering::Relaxed)
    }

    fn load_acquire(&self) -> u16 {
        self.load(Ordering::Acquire)
    }

    fn store_release(&self, v: u16) {
        self.store(v, Ordering::Release)
    }

    fn fetch_or_acq_rel(&self, v: u16) -> u16 {
        self.fetch_or(v, Ordering::AcqRel)
    }

    fn fetch_and_acq_rel(&self, v: u16) -> u16 {
        self.fetch_and(v, Ordering::AcqRel)
    }

    fn fetch_xor_acq_rel(&self, v: u16) -> u16 {
        self.fetch_xor(v, Ordering::AcqRel)
    }

    fn swap_acq_rel(&self, v: u16) -> u16 {
        self.swap(v, Ordering::AcqRel)
    }
}

impl AtomicPrimStore for AtomicU8 {
    type Item = u8;

    fn with_value(v: u8) -> Self {
        AtomicU8::new(v)
    }

    fn load_relaxed(&self) -> u8 {
        self.load(Ordering::Relaxed)
    }

    fn load_acquire(&self) -> u8 {
        self.load(Ordering::Acquire)
    }

    fn store_release(&self, v: u8) {
        self.store(v, Ordering::Release)
    }

    fn fetch_or_acq_rel(&self, v: u8) -> u8 {
        self.fetch_or(v, Ordering::AcqRel)
    }

    fn fetch_and_acq_rel(&self, v: u8) -> u8 {
        self.fetch_and(v, Ordering::AcqRel)
    }

    fn fetch_xor_acq_rel(&self, v: u8) -> u8 {
        self.fetch_xor(v, Ordering::AcqRel)
    }

    fn swap_acq_rel(&self, v: u8) -> u8 {
        self.swap(v, Ordering::AcqRel)
    }
}

/// An atomic set of positions `0..W` held in one atomic word, or (see the array impl) in
/// an array of atomic words.
///
/// With one word every operation is atomic for the whole set. With an array each operation
/// is atomic per word only.
///
/// Positions at or beyond the capacity are accepted and ignored, in every build: `contains`,
/// `insert` and `remove` answer `false` for them, and `set` and `toggle` leave the set as it
/// is. No operation panics on them.
#[derive(Debug)]
pub struct AtomicBitSet<A, V>(pub(crate) A, pub(crate) PhantomData<V>);

impl<A: AtomicPrimStore> AtomicBitSet<A, usize> {
    /// Number of positions the set can hold.
    pub open spec fn spec_capacity() -> int {
        wd::<A::Item>()
    }

    /// The atomic word.
    pub closed spec fn spec_store(&self) -> A {
        self.0
    }

    /// An empty set.
    pub fn new() -> (r: Self) {
        AtomicBitSet(A::with_value(A::Item::zero()), PhantomData)
    }

    /// The set holding only `elem` (empty when `elem` is beyond the width).
    pub fn from_element(elem: usize) -> (r: Self) {
        let ret = Self::new();
        ret.set(elem, true);
        ret
    }

    /// The set stored in the atomic word `bits`.
    pub fn from_bits(bits: A) -> (r: Self)
        ensures
            r.spec_store() == bits,
    {
        AtomicBitSet(bits, PhantomData)
    }

    /// The atomic word, by reference.
    pub fn as_bits(&self) -> (r: &A)
        ensures
            *r == self.spec_store(),
    {
        &self.0
    }

    /// The atomic word, consuming the set.
    pub fn into_bits(self) -> (r: A)
        ensures
            r == self.spec_store(),
    {
        self.0
    }

    /// A snapshot of the raw bits.
    pub fn load_store(&self) -> (r: A::Item) {
        self.0.load_relaxed()
    }

    /// Exchanges the raw bits with `bits`.
    pub fn swap_store(&self, bits: &mut A::Item) {
        let prev = self.0.swap_acq_rel(*bits);
        *bits = prev;
    }

    /// Number of positions the set can hold.
    pub fn capacity(&self) -> (r: usize)
        ensures
            r == Self::spec_capacity(),
    {
        A::Item::bit_width() as usize
    }

    /// Number of elements in a snapshot.
    pub fn len(&self) -> (r: usize)
        ensures
            r <= Self::spec_capacity(),
    {
        let s = BitSet::<A::Item, usize>::from_bits(self.0.load_relaxed());
        proof {
            s.lemma_view();
            lemma_count_true_bound(s@);
        }
        s.len()
    }

    /// Whether a snapshot has no element.
    pub fn is_empty(&self) -> (r: bool) {
        self.0.load_relaxed().is_zero()
    }

    /// Smallest element of a snapshot, if any.
    pub fn first(&self) -> (r: Option<usize>)
        ensures
            r matches Some(p) ==> p < Self::spec_capacity(),
    {
        let s = BitSet::<A::Item, usize>::from_bits(self.0.load_relaxed());
        proof {
            s.lemma_view();
        }
        s.first()
    }

    /// Largest element of a snapshot, if any.
    pub fn last(&self) -> (r: Option<usize>)
        ensures
            r matches Some(p) ==> p < Self::spec_capacity(),
    {
        let s = BitSet::<A::Item, usize>::from_bits(self.0.load_relaxed());
        proof {
            s.lemma_view();
        }
        s.last()
    }

    /// One attempt to remove the smallest element: reads the word, lets `lowest_bit_clear`
    /// choose its lowest set bit and the mask that clears it, applies that mask with one
    /// atomic `and`, and answers `take_outcome` of the word the `and` hands back. `Lost`
    /// means another thread cleared that bit first.
    pub fn try_pop_first(&self) -> (r: PopAttempt)
        ensures
            r matches PopAttempt::Taken(p) ==> p < Self::spec_capacity(),
    {
        let word = self.0.load_acquire();
        match lowest_bit_clear(word) {
            None => PopAttempt::Empty,
            Some((bit, keep)) => {
                let prev = self.0.fetch_and_acq_rel(keep);
                take_outcome(prev, bit, bit as usize)
            },
        }
    }

    /// One attempt to remove the largest element; as `try_pop_first`, with
    /// `highest_bit_clear` choosing the bit.
    pub fn try_pop_last(&self) -> (r: PopAttempt)
        ensures
            r matches PopAttempt::Taken(p) ==> p < Self::spec_capacity(),
    {
        let word = self.0.load_acquire();
        match highest_bit_clear(word) {
            None => PopAttempt::Empty,
            Some((bit, keep)) => {
                let prev = self.0.fetch_and_acq_rel(keep);
                take_outcome(prev, bit, bit as usize)
            },
        }
    }

    /// Whether `id` is an element of a snapshot; `false` beyond the width.
    pub fn contains(&self, id: &usize) -> (r: bool)
        ensures
            r ==> *id < Self::spec_capacity(),
    {
        if *id >= A::Item::bit_width() as usize {
            return false;
        }
        let s = BitSet::<A::Item, usize>::from_bits(self.0.load_relaxed());
        proof {
            s.lemma_view();
        }
        s.contains(id)
    }

    /// Sets whether `id` is an element; positions beyond the width are ignored.
    pub fn set(&self, id: usize, value: bool) {
        if value {
            self.insert(id);
        } else {
            self.remove(id);
        }
    }

    /// Adds `id`; returns whether it was absent. Positions beyond the width are ignored and
    /// give `false`.
    pub fn insert(&self, id: usize) -> (r: bool)
        ensures
            r ==> id < Self::spec_capacity(),
    {
        if id >= A::Item::bit_width() as usize {
            return false;
        }
        proof {
            A::Item::lemma_width();
        }
        let mask = A::Item::single(id as u32);
        let prev = self.0.fetch_or_acq_rel(mask);
        prev.and(mask).is_zero()
    }

    /// Removes `id`; returns whether it was present. Positions beyond the width give `false`.
    pub fn remove(&self, id: usize) -> (r: bool)
        ensures
            r ==> id < Self::spec_capacity(),
    {
        if id >= A::Item::bit_width() as usize {
            return false;
        }
        proof {
            A::Item::lemma_width();
        }
        let mask = A::Item::single(id as u32);
        let prev = self.0.fetch_and_acq_rel(mask.not());
        !prev.and(mask).is_zero()
    }

    /// Flips whether `id` is an element; positions beyond the width are ignored.
    pub fn toggle(&self, id: usize) {
        if id >= A::Item::bit_width() as usize {
            return;
        }
        proof {
            A::Item::lemma_width();
        }
        let mask = A::Item::single(id as u32);
        let _ = self.0.fetch_xor_acq_rel(mask);
    }

    /// Removes every element.
    pub fn clear(&self) {
        self.0.store_release(A::Item::zero());
    }

    /// Keeps the elements of the word read for which `f` answers `true`: `retain_mask` gives
    /// the mask for the word read, and one atomic `and` applies it when it clears anything.
    pub fn retain<F: Fn(usize) -> bool>(&self, f: F)
        requires
            forall|p: usize| call_requires(f, (p,)),
    {
        proof {
            A::Item::lemma_width();
        }
        let word = self.0.load_relaxed();
        let keep = retain_mask(word, 0, &f);
        if !word.and_not(keep).is_zero() {
            let _ = self.0.fetch_and_acq_rel(keep);
        }
    }

    /// The union of a snapshot with the raw bits `other`.
    pub fn union(&self, other: A::Item) -> (r: BitSet<A::Item, usize>)
        ensures
            forall|i: int| other.bit(i) ==> r@[i],
            r@.len() == Self::spec_capacity(),
    {
        let s = BitSet::<A::Item, usize>::from_bits(self.0.load_relaxed());
        proof {
            s.lemma_view();
            assert forall|i: int| other.bit(i) implies 0 <= i < A::Item::width() by {
                A::Item::lemma_bit_range(other, i);
            }
        }
        s.union(&other)
    }

    /// The difference of a snapshot and the raw bits `other`.
    pub fn difference(&self, other: A::Item) -> (r: BitSet<A::Item, usize>)
        ensures
            forall|i: int| 0 <= i < r@.len() && other.bit(i) ==> !r@[i],
            r@.len() == Self::spec_capacity(),
    {
        let s = BitSet::<A::Item, usize>::from_bits(self.0.load_relaxed());
        proof {
            s.lemma_view();
        }
        s.difference(&other)
    }

    /// Elements of a snapshot, in increasing order.
    pub fn iter(&self) -> (r: Vec<usize>)
        ensures
            ascending_below(r@, Self::spec_capacity()),
    {
        let s = BitSet::<A::Item, usize>::from_bits(self.0.load_relaxed());
        proof {
            s.lemma_view();
            A::Item::lemma_width();
            lemma_ones_members(s@);
        }
        s.iter()
    }

    /// Adds the raw bits `other` atomically.
    pub fn union_from(&self, other: A::Item) {
        let _ = self.0.fetch_or_acq_rel(other);
    }

    /// Atomically empties the set and returns the elements it held, in increasing order.
    pub fn drain(&self) -> (r: Vec<usize>)
        ensures
            ascending_below(r@, Self::spec_capacity()),
    {
        let s = BitSet::<A::Item, usize>::from_bits(self.0.swap_acq_rel(A::Item::zero()));
        proof {
            s.lemma_view();
            A::Item::lemma_width();
            lemma_ones_members(s@);
        }
        s.iter()
    }

    /// Whether every element of a snapshot of this set is in a snapshot of `other`.
    pub fn is_subset(&self, other: &Self) -> (r: bool) {
        let a = BitSet::<A::Item, usize>::from_bits(self.0.load_relaxed());
        let b = BitSet::<A::Item, usize>::from_bits(other.0.load_relaxed());
        a.is_subset(&b)
    }

    /// Whether every element of a snapshot of `other` is in a snapshot of this set.
    pub fn is_superset(&self, other: &Self) -> (r: bool) {
        other.is_subset(self)
    }

    /// Whether snapshots of the two sets have no element in common.
    pub fn is_disjoint(&self, other: &Self) -> (r: bool) {
        let a = BitSet::<A::Item, usize>::from_bits(self.0.load_relaxed());
        let b = BitSet::<A::Item, usize>::from_bits(other.0.load_relaxed());
        a.is_disjoint(&b)
    }
}

/// The outcome of clearing bit `bit` (position `pos` of the set) when the word held `prev`
/// just before: `Taken(pos)` when the bit was set, so that this attempt removed it, and
/// `Lost` when another thread had cleared it first.
pub fn take_outcome<T: PrimStore>(prev: T, bit: u32, pos: usize) -> (r: PopAttempt)
    requires
        bit < T::width(),
    ensures
        r == if prev.bit(bit as int) {
            PopAttempt::Taken(pos)
        } else {
            PopAttempt::Lost
        },
{
    let mask = T::single(bit);
    let both = prev.and(mask);
    if both.is_zero() {
        proof {
            assert(!both.bit(bit as int));
        }
        PopAttempt::Lost
    } else {
        PopAttempt::Taken(pos)
    }
}

/// The outcome of one attempt to remove an element from an atomic set.
#[derive(Clone, Copy, PartialEq, Eq, Structural, Debug)]
pub enum PopAttempt {
    /// The set was empty when read.
    Empty,
    /// This element was removed.
    Taken(usize),
    /// Another thread removed the element first; a new attempt may succeed.
    Lost,
}

/// `core::array::from_fn`, filling an array with empty atomic words.
#[verifier::external_body]
fn empty_words<A: AtomicPrimStore, const N: usize>() -> [A; N] {
    core::array::from_fn(|_| empty_word::<A>())
}

/// An atomic word holding zero.
fn empty_word<A: AtomicPrimStore>() -> A {
    A::with_value(A::Item::zero())
}

/// Array-backed atomic bitset.
pub type AtomicArrayBitSet<A, V, const N: usize> = AtomicBitSet<[A; N], V>;

impl<A: AtomicPrimStore, const N: usize> AtomicBitSet<[A; N], usize> {
    /// Number of positions the set can hold.
    pub open spec fn spec_capacity() -> int {
        N * wd::<A::Item>()
    }

    /// Well-formedness: the capacity can be counted in a `usize`.
    pub open spec fn wf() -> bool {
        Self::spec_capacity() <= usize::MAX
    }

    /// An empty set.
    pub fn new() -> (r: Self) {
        AtomicBitSet(empty_words::<A, N>(), PhantomData)
    }

    /// The atomic words.
    pub closed spec fn spec_store(&self) -> [A; N] {
        self.0
    }

    /// The set stored in the atomic words `raw`.
    pub fn from_bits(raw: [A; N]) -> (r: Self)
        ensures
            r.spec_store() == raw,
    {
        AtomicBitSet(raw, PhantomData)
    }

    /// The set holding only `id` (empty when `id` is beyond the capacity).
    pub fn from_element(id: usize) -> (r: Self) {
        let ret = Self::new();
        ret.set(id, true);
        ret
    }

    /// The atomic words, by reference.
    pub fn as_bits(&self) -> (r: &[A; N])
        ensures
            *r == self.spec_store(),
    {
        &self.0
    }

    /// The atomic words, consuming the set.
    pub fn into_bits(self) -> (r: [A; N])
        ensures
            r == self.spec_store(),
    {
        self.0
    }

    /// Adds the elements of `other`, word by word.
    pub fn union_from(&self, other: &BitSet<[A::Item; N], usize>) {
        atomic_union_from(&self.0, other.as_slice())
    }

    /// The union of the words read with `other`.
    pub fn union(&self, other: &BitSet<[A::Item; N], usize>) -> (r: BitSet<[A::Item; N], usize>)
        ensures
            r@.len() == other@.len(),
            forall|i: int| member(other@, i) ==> member(r@, i),
    {
        self.combine_read(other, WordOp::Union)
    }

    /// The words read, without the elements of `other`.
    pub fn difference(&self, other: &BitSet<[A::Item; N], usize>) -> (r: BitSet<
        [A::Item; N],
        usize,
    >)
        ensures
            r@.len() == other@.len(),
            forall|i: int| member(other@, i) ==> !member(r@, i),
    {
        self.combine_read(other, WordOp::Difference)
    }

    fn combine_read(&self, other: &BitSet<[A::Item; N], usize>, op: WordOp) -> (r: BitSet<
        [A::Item; N],
        usize,
    >)
        requires
            op == WordOp::Union || op == WordOp::Difference,
        ensures
            r@.len() == other@.len(),
            op == WordOp::Union ==> forall|i: int| member(other@, i) ==> member(r@, i),
            op == WordOp::Difference ==> forall|i: int| member(other@, i) ==> !member(r@, i),
    {
        let ob = other.as_bits();
        let mut raw = [A::Item::zero(); N];
        let mut k: usize = 0;
        while k < N
            invariant
                k <= N,
                ob@ == other.spec_words(),
                op == WordOp::Union || op == WordOp::Difference,
                raw@.len() == N,
                ob@.len() == N,
                forall|j: int, c: int|
                    0 <= j < k && #[trigger] ob@[j].bit(c) ==> (raw@[j].bit(c) <==> op
                        == WordOp::Union),
            decreases N - k,
        {
            let loaded = self.0[k].load_relaxed();
            let ob_k = ob[k];
            let x = op.apply(loaded, ob_k);
            let ghost prev = raw@;
            raw[k] = x;
            proof {
                assert(raw@ == prev.update(k as int, x));
                assert forall|j: int, c: int|
                    0 <= j < k + 1 && #[trigger] ob@[j].bit(c) implies (raw@[j].bit(c) <==> op
                        == WordOp::Union) by {
                    if j < k {
                        assert(raw@[j] == prev[j]);
                    } else {
                        assert(raw@[j] == x);
                        assert(ob@[j] == ob_k);
                        assert(x.bit(c) == op.spec_apply(loaded.bit(c), ob_k.bit(c)));
                    }
                }
            }
            k = k + 1;
        }
        let r = BitSet::<[A::Item; N], usize>::from_bits(raw);
        proof {
            r.lemma_view();
            other.lemma_view();
            assert forall|i: int| member(other@, i) implies (member(r@, i) <==> op == WordOp::Union) by {
                crate::words::lemma_in_range::<A::Item>(N as int, i);
            }
        }
        r
    }

    /// Empties the set word by word (each word swapped for zero) and returns what it held.
    pub fn drain(&self) -> (r: BitSet<[A::Item; N], usize>)
        ensures
            r@.len() == Self::spec_capacity(),
    {
        let mut raw = [A::Item::zero(); N];
        let mut k: usize = 0;
        while k < N
            invariant
                k <= N,
                raw@.len() == N,
            decreases N - k,
        {
            raw[k] = self.0[k].swap_acq_rel(A::Item::zero());
            k = k + 1;
        }
        let r = BitSet::<[A::Item; N], usize>::from_bits(raw);
        proof {
            r.lemma_view();
        }
        r
    }

    /// Number of positions the set can hold.
    pub fn capacity(&self) -> (r: usize)
        requires
            Self::wf(),
        ensures
            r == Self::spec_capacity(),
    {
        N * (A::Item::bit_width() as usize)
    }

    /// Number of elements, counted word by word.
    pub fn len(&self) -> (r: usize)
        requires
            Self::wf(),
        ensures
            count_of_some_read::<A::Item>(N as int, r as int),
            r <= Self::spec_capacity(),
    {
        atomic_len(&self.0)
    }

    /// Whether every word read is empty (always so for a set that can hold nothing).
    pub fn is_empty(&self) -> (r: bool)
        ensures
            empty_of_some_read::<A::Item>(N as int, r),
            Self::spec_capacity() == 0 ==> r,
    {
        proof {
            lemma_atomic_capacity_zero::<A>(N as int);
        }
        atomic_is_empty(&self.0)
    }

    /// Smallest element read, if any.
    pub fn first(&self) -> (r: Option<usize>)
        requires
            Self::wf(),
        ensures
            first_of_some_read::<A::Item>(N as int, r),
            r matches Some(p) ==> p < Self::spec_capacity(),
    {
        atomic_first(&self.0)
    }

    /// Largest element read, if any.
    pub fn last(&self) -> (r: Option<usize>)
        requires
            Self::wf(),
        ensures
            last_of_some_read::<A::Item>(N as int, r),
            r matches Some(p) ==> p < Self::spec_capacity(),
    {
        atomic_last(&self.0)
    }

    /// One attempt to remove the smallest element.
    pub fn try_pop_first(&self) -> (r: PopAttempt)
        requires
            Self::wf(),
        ensures
            r matches PopAttempt::Taken(p) ==> p < Self::spec_capacity(),
    {
        atomic_try_pop_first(&self.0)
    }

    /// One attempt to remove the largest element.
    pub fn try_pop_last(&self) -> (r: PopAttempt)
        requires
            Self::wf(),
        ensures
            r matches PopAttempt::Taken(p) ==> p < Self::spec_capacity(),
    {
        atomic_try_pop_last(&self.0)
    }

    /// One attempt to remove the smallest element at or after word `start`, and the word the
    /// attempt stopped at (where a `Lost` attempt is to be retried).
    pub fn try_pop_first_from(&self, start: usize) -> (r: (PopAttempt, usize))
        requires
            Self::wf(),
            start <= N,
        ensures
            r.0 matches PopAttempt::Taken(p) ==> p < Self::spec_capacity(),
            r.0 == PopAttempt::Lost ==> start <= r.1 < N,
    {
        atomic_try_pop_first_from(&self.0, start)
    }

    /// One attempt to remove the largest element below word `end`, and the bound to retry a
    /// `Lost` attempt with.
    pub fn try_pop_last_before(&self, end: usize) -> (r: (PopAttempt, usize))
        requires
            Self::wf(),
            end <= N,
        ensures
            r.0 matches PopAttempt::Taken(p) ==> p < Self::spec_capacity(),
            r.0 == PopAttempt::Lost ==> 0 < r.1 <= end,
    {
        atomic_try_pop_last_before(&self.0, end)
    }

    /// Whether `id` is an element when read; `false` beyond the capacity.
    pub fn contains(&self, id: &usize) -> (r: bool)
        ensures
            r ==> *id < Self::spec_capacity(),
    {
        atomic_contains(&self.0, *id)
    }

    /// Adds `id`; returns whether it was absent. `false` beyond the capacity.
    pub fn insert(&self, id: usize) -> (r: bool)
        ensures
            r ==> id < Self::spec_capacity(),
    {
        atomic_insert(&self.0, id)
    }

    /// Removes `id`; returns whether it was present. `false` beyond the capacity.
    pub fn remove(&self, id: usize) -> (r: bool)
        ensures
            r ==> id < Self::spec_capacity(),
    {
        atomic_remove(&self.0, id)
    }

    /// Sets whether `id` is an element; positions beyond the capacity are ignored.
    pub fn set(&self, id: usize, value: bool) {
        if value {
            self.insert(id);
        } else {
            self.remove(id);
        }
    }

    /// Flips whether `id` is an element; positions beyond the capacity are ignored.
    pub fn toggle(&self, id: usize) {
        atomic_toggle(&self.0, id)
    }

    /// Empties every word.
    pub fn clear(&self) {
        atomic_clear(&self.0)
    }

    /// Keeps the elements read `p` for which `f(p)` answers `true`.
    pub fn retain<F: Fn(usize) -> bool>(&self, f: F)
        requires
            Self::wf(),
            forall|p: usize| call_requires(f, (p,)),
    {
        atomic_retain(&self.0, f)
    }

    /// Elements read, in increasing order.
    pub fn iter(&self) -> (r: Vec<usize>)
        requires
            Self::wf(),
        ensures
            iter_of_some_read::<A::Item>(N as int, r@),
            ascending_below(r@, Self::spec_capacity()),
    {
        atomic_iter(&self.0)
    }

    /// Elements read in both sets, in increasing order.
    pub fn intersection(&self, other: &Self) -> (r: Vec<usize>)
        requires
            Self::wf(),
        ensures
            ascending_below(r@, Self::spec_capacity()),
    {
        atomic_op_ones(&self.0, &other.0, N, WordOp::Intersection)
    }

    /// Elements read in exactly one of the sets, in increasing order.
    pub fn symmetric_difference(&self, other: &Self) -> (r: Vec<usize>)
        requires
            Self::wf(),
        ensures
            ascending_below(r@, Self::spec_capacity()),
    {
        atomic_op_ones(&self.0, &other.0, N, WordOp::SymmetricDifference)
    }

    /// Whether every element read is in `other` as read (always so when the sets can hold
    /// nothing).
    pub fn is_subset(&self, other: &Self) -> (r: bool)
        ensures
            subset_of_some_reads::<A::Item>(N as int, N as int, r),
            Self::spec_capacity() == 0 ==> r,
    {
        proof {
            lemma_atomic_capacity_zero::<A>(N as int);
        }
        atomic_is_subset(&self.0, &other.0)
    }

    /// Whether every element of `other` read is in this set as read (always so when the sets
    /// can hold nothing).
    pub fn is_superset(&self, other: &Self) -> (r: bool)
        ensures
            subset_of_some_reads::<A::Item>(N as int, N as int, r),
            Self::spec_capacity() == 0 ==> r,
    {
        other.is_subset(self)
    }

    /// Whether no element read is in both sets (always so when the sets can hold nothing).
    pub fn is_disjoint(&self, other: &Self) -> (r: bool)
        ensures
            disjoint_of_some_reads::<A::Item>(N as int, N as int, r),
            Self::spec_capacity() == 0 ==> r,
    {
        proof {
            lemma_atomic_capacity_zero::<A>(N as int);
        }
        atomic_is_disjoint(&self.0, &other.0)
    }

    /// Moves the elements of `other` into this set word by word, and empties `other`.
    pub fn append(&self, other: &Self) {
        atomic_append(&self.0, &other.0)
    }
}

} // verus!
