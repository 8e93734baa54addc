use vstd::prelude::*;
use core::marker::PhantomData;

use crate::word::{count_true, word_seq, PrimStore};
use crate::words::{
    capacity_of, combine, fits, has_bit, lemma_has_bit_bound, lemma_op_view_combine,
    lemma_single_word, member, ones, wd, words_append, words_capacity, words_clear,
    words_contains, words_drain, words_eq, words_first, words_insert, words_is_disjoint,
    words_is_empty, words_is_subset, words_iter, words_last, words_len, words_op_ones,
    words_pop_first, words_pop_last, words_remove, words_retain, words_set, words_toggle,
    words_view, WordOp,
};
use crate::slice::lemma_view_update;

verus! {

/// Snapshot iterator over the set positions of one word, lowest first.
#[derive(Debug)]
pub struct PrimBitSetIter<I, V>(pub I, pub PhantomData<V>);

impl<I: Copy, V> Clone for PrimBitSetIter<I, V> {
    fn clone(&self) -> (r: Self)
        ensures
            r == *self,
    {
        PrimBitSetIter(self.0, PhantomData)
    }
}

impl<I: Copy, V> Copy for PrimBitSetIter<I, V> {

}

impl<I: PrimStore, V> View for PrimBitSetIter<I, V> {
    type V = Seq<bool>;

    open spec fn view(&self) -> Seq<bool> {
        word_seq(self.0)
    }
}

impl<I: PrimStore> PrimBitSetIter<I, usize> {
    /// The iterator over the set bits of `raw`.
    pub fn from_raw(raw: I) -> (r: Self)
        ensures
            r.0 == raw,
    {
        PrimBitSetIter(raw, PhantomData)
    }

    /// The iterator with nothing left.
    pub fn empty() -> (r: Self)
        ensures
            r@ == Seq::new(I::width(), |i: int| false),
    {
        let r = PrimBitSetIter(I::zero(), PhantomData);
        assert(r@ =~= Seq::new(I::width(), |i: int| false));
        r
    }

    /// Whether no position is left.
    pub fn is_empty(&self) -> (r: bool)
        ensures
            r == (forall|i: int| 0 <= i < self@.len() ==> !self@[i]),
    {
        let r = self.0.is_zero();
        proof {
            if !r {
                let b = choose|b: int| self.0.bit(b);
                I::lemma_bit_range(self.0, b);
                assert(self@[b]);
            }
        }
        r
    }

    /// The positions not yet returned, as a word.
    pub fn into_bits(&self) -> (r: I)
        ensures
            r == self.0,
    {
        self.0
    }

    /// Number of positions not yet returned.
    pub fn len(&self) -> (r: usize)
        ensures
            r == count_true(self@),
    {
        self.0.count_ones() as usize
    }

    /// Returns the lowest remaining position and removes it.
    pub fn next(&mut self) -> (r: Option<usize>)
        ensures
            match r {
                None => final(self)@ == old(self)@ && forall|i: int|
                    0 <= i < old(self)@.len() ==> !old(self)@[i],
                Some(p) => p < old(self)@.len() && old(self)@[p as int] && (forall|i: int|
                    0 <= i < p ==> !old(self)@[i]) && final(self)@ == old(self)@.update(
                    p as int,
                    false,
                ),
            },
    {
        if self.0.is_zero() {
            return None;
        }
        let t = self.0.trailing_zeros();
        proof {
            assert(t < I::width()) by {
                let b = choose|b: int| old(self).0.bit(b);
                I::lemma_bit_range(old(self).0, b);
            }
        }
        self.0 = self.0.and_not(I::single(t));
        proof {
            assert(self@ =~= old(self)@.update(t as int, false));
        }
        Some(t as usize)
    }
}

/// A set of positions `0..W` held in one primitive word `A` of `W` bits, or (see the array
/// impl) in an array of words.
///
/// `V` names the element type; this library's elements are `usize` positions.
///
/// Positions at or beyond the capacity are accepted and ignored, in every build: `contains`,
/// `insert` and `remove` answer `false` for them, and `set` and `toggle` leave the set as it
/// is. No operation panics on them.
#[derive(Debug, PartialEq, Eq, PartialOrd, Ord, Hash)]
pub struct BitSet<A, V>(pub(crate) A, pub(crate) PhantomData<V>);

impl<A: Copy, V> Clone for BitSet<A, V> {
    fn clone(&self) -> (r: Self)
        ensures
            r == *self,
    {
        BitSet(self.0, PhantomData)
    }
}

impl<A: Copy, V> Copy for BitSet<A, V> {

}

impl<A: PrimStore, V> View for BitSet<A, V> {
    type V = Seq<bool>;

    closed spec fn view(&self) -> Seq<bool> {
        word_seq(self.0)
    }
}

impl<A: PrimStore> BitSet<A, usize> {
    /// The word that holds the bits.
    pub closed spec fn spec_bits(&self) -> A {
        self.0
    }

    pub proof fn lemma_view(&self)
        ensures
            self@ == word_seq(self.spec_bits()),
            self@.len() == A::width(),
            forall|i: int| member(self@, i) == self.spec_bits().bit(i),
    {
        assert forall|i: int| member(self@, i) == self.spec_bits().bit(i) by {
            A::lemma_bit_range(self.0, i);
        }
    }

    /// The empty set.
    pub fn new() -> (r: Self)
        ensures
            r@ == Seq::new(A::width(), |i: int| false),
    {
        let r = BitSet(A::zero(), PhantomData);
        assert(r@ =~= Seq::new(A::width(), |i: int| false));
        r
    }

    /// The set holding only `elem`; empty when `elem` is beyond the width.
    pub fn from_element(elem: usize) -> (r: Self)
        ensures
            r@ == if (elem as int) < A::width() {
                Seq::new(A::width(), |i: int| false).update(elem as int, true)
            } else {
                Seq::new(A::width(), |i: int| false)
            },
    {
        let mut ret = Self::new();
        ret.set(elem, true);
        ret
    }

    /// The set whose bits are `raw`.
    pub fn from_bits(raw: A) -> (r: Self)
        ensures
            r.spec_bits() == raw,
            r@ == word_seq(raw),
    {
        BitSet(raw, PhantomData)
    }

    /// Raw bits.
    pub fn bits(&self) -> (r: A)
        ensures
            r == self.spec_bits(),
    {
        self.0
    }

    /// Raw bits, by reference.
    pub fn as_bits(&self) -> (r: &A)
        ensures
            *r == self.spec_bits(),
    {
        &self.0
    }

    /// Raw bits, consuming the set.
    pub fn into_bits(self) -> (r: A)
        ensures
            r == self.spec_bits(),
    {
        self.0
    }

    /// Raw bits (copied out).
    pub fn load_store(&self) -> (r: A)
        ensures
            r == self.spec_bits(),
    {
        self.0
    }

    /// Exchanges the raw bits with `store`.
    pub fn swap_store(&mut self, store: &mut A)
        ensures
            final(self).spec_bits() == *old(store),
            *final(store) == old(self).spec_bits(),
    {
        let tmp = self.0;
        self.0 = *store;
        *store = tmp;
    }

    /// Replaces the raw bits by what `f` makes of them.
    pub fn mut_store<F: Fn(A) -> A>(&mut self, f: F)
        requires
            call_requires(f, (old(self).spec_bits(),)),
        ensures
            call_ensures(f, (old(self).spec_bits(),), final(self).spec_bits()),
    {
        self.0 = f(self.0);
    }

    /// The union with the raw bits `other`.
    pub fn union(&self, other: &A) -> (r: BitSet<A, usize>)
        ensures
            r@ == Seq::new(A::width(), |i: int| self@[i] || other.bit(i)),
    {
        let r = BitSet(self.0.or(*other), PhantomData);
        assert(r@ =~= Seq::new(A::width(), |i: int| self@[i] || other.bit(i)));
        r
    }

    /// The difference with the raw bits `other`.
    pub fn difference(&self, other: &A) -> (r: BitSet<A, usize>)
        ensures
            r@ == Seq::new(A::width(), |i: int| self@[i] && !other.bit(i)),
    {
        let r = BitSet(self.0.and_not(*other), PhantomData);
        assert(r@ =~= Seq::new(A::width(), |i: int| self@[i] && !other.bit(i)));
        r
    }

    /// Adds the raw bits `other`.
    pub fn union_from(&mut self, other: A)
        ensures
            final(self)@ == Seq::new(A::width(), |i: int| old(self)@[i] || other.bit(i)),
    {
        self.0 = self.0.or(other);
        assert(self@ =~= Seq::new(A::width(), |i: int| old(self)@[i] || other.bit(i)));
    }

    /// The set holding only position `idx`.
    pub fn from_index(idx: usize) -> (r: Self)
        requires
            idx < A::width(),
        ensures
            r@ == Seq::new(A::width(), |i: int| false).update(idx as int, true),
    {
        proof {
            A::lemma_width();
        }
        let r = BitSet(A::single(idx as u32), PhantomData);
        assert(r@ =~= Seq::new(A::width(), |i: int| false).update(idx as int, true));
        r
    }

    /// The set holding exactly the listed positions.
    pub fn from_indices(indices: &[usize]) -> (r: Self)
        requires
            forall|k: int| 0 <= k < indices@.len() ==> indices@[k] < A::width(),
        ensures
            r@ == Seq::new(A::width(), |i: int| indices@.contains(i as usize)),
    {
        let mut raw = A::zero();
        let mut k: usize = 0;
        while k < indices.len()
            invariant
                k <= indices@.len(),
                forall|j: int| 0 <= j < indices@.len() ==> indices@[j] < A::width(),
                forall|i: int|
                    #[trigger] raw.bit(i) == (exists|j: int|
                        0 <= j < k && #[trigger] indices@[j] as int == i),
            decreases indices@.len() - k,
        {
            let ghost old_raw = raw;
            proof {
                A::lemma_width();
                assert(indices@[k as int] < A::width());
            }
            raw = raw.or(A::single(indices[k] as u32));
            proof {
                assert forall|i: int|
                    #[trigger] raw.bit(i) == (exists|j: int|
                        0 <= j < k + 1 && #[trigger] indices@[j] as int == i) by {
                    if exists|j: int| 0 <= j < k + 1 && #[trigger] indices@[j] as int == i {
                        let j = choose|j: int| 0 <= j < k + 1 && #[trigger] indices@[j] as int == i;
                        if j < k {
                            assert(old_raw.bit(i));
                        }
                    }
                }
            }
            k = k + 1;
        }
        let r = BitSet(raw, PhantomData);
        proof {
            A::lemma_width();
            assert forall|i: int| 0 <= i < A::width() implies r@[i] == indices@.contains(i as usize) by {
                if indices@.contains(i as usize) {
                    let j = choose|j: int| 0 <= j < indices@.len() && indices@[j] == i as usize;
                    assert(indices@[j] as int == i);
                }
            }
            assert(r@ =~= Seq::new(A::width(), |i: int| indices@.contains(i as usize)));
        }
        r
    }

    /// Number of positions the set can hold.
    pub fn capacity(&self) -> (r: usize)
        ensures
            r == self@.len(),
    {
        A::bit_width() as usize
    }

    /// Number of elements.
    pub fn len(&self) -> (r: usize)
        ensures
            r == count_true(self@),
    {
        self.0.count_ones() as usize
    }

    /// Whether the set has no element.
    pub fn is_empty(&self) -> (r: bool)
        ensures
            r == (forall|i: int| 0 <= i < self@.len() ==> !self@[i]),
    {
        let r = self.0.is_zero();
        proof {
            if !r {
                let b = choose|b: int| self.0.bit(b);
                A::lemma_bit_range(self.0, b);
                assert(self@[b]);
            }
        }
        r
    }

    /// Whether `idx` is an element; `false` beyond the width.
    pub fn contains(&self, idx: &usize) -> (r: bool)
        ensures
            r == member(self@, *idx as int),
    {
        if *idx >= A::bit_width() as usize {
            return false;
        }
        let m = self.0.and(A::single(*idx as u32));
        let z = m.is_zero();
        proof {
            if self.0.bit(*idx as int) {
                assert(m.bit(*idx as int));
            }
        }
        !z
    }

    /// Sets whether `id` is an element; positions beyond the width are ignored.
    pub fn set(&mut self, id: usize, value: bool)
        ensures
            final(self)@ == if (id as int) < A::width() {
                old(self)@.update(id as int, value)
            } else {
                old(self)@
            },
    {
        if id >= A::bit_width() as usize {
            return;
        }
        let bit = A::single(id as u32);
        if value {
            self.0 = self.0.or(bit);
        } else {
            self.0 = self.0.and_not(bit);
        }
        assert(self@ =~= old(self)@.update(id as int, value));
    }

    /// Adds `id`; returns whether it was absent. Positions beyond the width are ignored and
    /// give `false`.
    pub fn insert(&mut self, id: usize) -> (r: bool)
        ensures
            r == ((id as int) < A::width() && !old(self)@[id as int]),
            final(self)@ == if (id as int) < A::width() {
                old(self)@.update(id as int, true)
            } else {
                old(self)@
            },
    {
        if id >= A::bit_width() as usize {
            return false;
        }
        let was = self.contains(&id);
        self.set(id, true);
        !was
    }

    /// Removes `id`; returns whether it was present.
    pub fn remove(&mut self, id: usize) -> (r: bool)
        ensures
            r == member(old(self)@, id as int),
            final(self)@ == if (id as int) < A::width() {
                old(self)@.update(id as int, false)
            } else {
                old(self)@
            },
    {
        let was = self.contains(&id);
        self.set(id, false);
        was
    }

    /// Flips whether `id` is an element; positions beyond the width are ignored.
    pub fn toggle(&mut self, id: usize)
        ensures
            final(self)@ == if (id as int) < A::width() {
                old(self)@.update(id as int, !old(self)@[id as int])
            } else {
                old(self)@
            },
    {
        if id >= A::bit_width() as usize {
            return;
        }
        self.0 = self.0.xor(A::single(id as u32));
        assert(self@ =~= old(self)@.update(id as int, !old(self)@[id as int]));
    }

    /// Removes every element.
    pub fn clear(&mut self)
        ensures
            final(self)@ == Seq::new(A::width(), |i: int| false),
    {
        self.0 = A::zero();
        assert(self@ =~= Seq::new(A::width(), |i: int| false));
    }

    /// Smallest element, if any.
    pub fn first(&self) -> (r: Option<usize>)
        ensures
            match r {
                None => forall|i: int| 0 <= i < self@.len() ==> !self@[i],
                Some(p) => p < self@.len() && self@[p as int] && forall|i: int|
                    0 <= i < p ==> !self@[i],
            },
    {
        let mut it = PrimBitSetIter(self.0, PhantomData);
        it.next()
    }

    /// Largest element, if any.
    pub fn last(&self) -> (r: Option<usize>)
        ensures
            match r {
                None => forall|i: int| 0 <= i < self@.len() ==> !self@[i],
                Some(p) => p < self@.len() && self@[p as int] && forall|i: int|
                    p < i < self@.len() ==> !self@[i],
            },
    {
        if self.0.is_zero() {
            return None;
        }
        let lz = self.0.leading_zeros();
        proof {
            assert(lz < A::width()) by {
                let b = choose|b: int| self.0.bit(b);
                A::lemma_bit_range(self.0, b);
            }
        }
        Some((A::bit_width() - 1 - lz) as usize)
    }

    /// Removes and returns the smallest element, if any.
    pub fn pop_first(&mut self) -> (r: Option<usize>)
        ensures
            match r {
                None => final(self)@ == old(self)@ && forall|i: int|
                    0 <= i < old(self)@.len() ==> !old(self)@[i],
                Some(p) => p < old(self)@.len() && old(self)@[p as int] && (forall|i: int|
                    0 <= i < p ==> !old(self)@[i]) && final(self)@ == old(self)@.update(
                    p as int,
                    false,
                ),
            },
    {
        let r = self.first();
        if let Some(p) = r {
            self.remove(p);
        }
        r
    }

    /// Removes and returns the largest element, if any.
    pub fn pop_last(&mut self) -> (r: Option<usize>)
        ensures
            match r {
                None => final(self)@ == old(self)@ && forall|i: int|
                    0 <= i < old(self)@.len() ==> !old(self)@[i],
                Some(p) => p < old(self)@.len() && old(self)@[p as int] && (forall|i: int|
                    p < i < old(self)@.len() ==> !old(self)@[i]) && final(self)@ == old(
                    self,
                )@.update(p as int, false),
            },
    {
        let r = self.last();
        if let Some(p) = r {
            self.remove(p);
        }
        r
    }

    /// All elements in increasing order.
    pub fn iter(&self) -> (r: Vec<usize>)
        ensures
            r@ == ones(self@),
    {
        let a = [self.0];
        proof {
            lemma_single_word(self.0);
            assert(a@ =~= seq![self.0]);
        }
        words_iter(&a)
    }

    /// Consumes the set into an iterator over its elements.
    pub fn into_iter(self) -> (r: PrimBitSetIter<A, usize>)
        ensures
            r@ == self@,
    {
        PrimBitSetIter(self.0, PhantomData)
    }

    /// Returns all elements in increasing order and leaves the set empty.
    pub fn drain(&mut self) -> (r: Vec<usize>)
        ensures
            r@ == ones(old(self)@),
            final(self)@ == Seq::new(A::width(), |i: int| false),
    {
        let mut store = A::zero();
        self.swap_store(&mut store);
        let taken = BitSet::<A, usize>(store, PhantomData);
        proof {
            assert(self@ =~= Seq::new(A::width(), |i: int| false));
        }
        taken.iter()
    }

    /// Keeps exactly the elements `p` for which `f(p)` answers `true`.
    pub fn retain<F: Fn(usize) -> bool>(&mut self, f: F)
        requires
            forall|p: usize| call_requires(f, (p,)),
        ensures
            final(self)@.len() == old(self)@.len(),
            forall|i: int|
                #![trigger member(final(self)@, i)]
                member(final(self)@, i) ==> member(old(self)@, i) && call_ensures(f, (i as usize,), true),
            forall|i: int|
                #![trigger member(old(self)@, i)]
                member(old(self)@, i) && !member(final(self)@, i) ==> call_ensures(f, (i as usize,), false),
    {
        let mut a = [self.0];
        proof {
            lemma_single_word(self.0);
            assert(a@ =~= seq![self.0]);
        }
        words_retain(&mut a, f);
        self.0 = a[0];
        proof {
            assert(a@ =~= seq![self.0]);
            lemma_single_word(self.0);
            assert forall|i: int| #![trigger member(self@, i)] #![trigger member(old(self)@, i)]
                member(self@, i) == has_bit(a@, i) && member(old(self)@, i) == has_bit(seq![old(self).0], i) by {
                A::lemma_bit_range(self.0, i);
                A::lemma_bit_range(old(self).0, i);
            }
        }
    }

    /// Whether every element is also in `other`.
    pub fn is_subset(&self, other: &Self) -> (r: bool)
        ensures
            r == (forall|i: int| member(self@, i) ==> member(other@, i)),
    {
        let d = self.0.and_not(other.0);
        let r = d.is_zero();
        proof {
            if !r {
                let b = choose|b: int| d.bit(b);
                A::lemma_bit_range(self.0, b);
                assert(member(self@, b) && !member(other@, b));
            }
        }
        r
    }

    /// Whether every element of `other` is in this set.
    pub fn is_superset(&self, other: &Self) -> (r: bool)
        ensures
            r == (forall|i: int| member(other@, i) ==> member(self@, i)),
    {
        other.is_subset(self)
    }

    /// Whether the sets have no element in common.
    pub fn is_disjoint(&self, other: &Self) -> (r: bool)
        ensures
            r == (forall|i: int| !(member(self@, i) && member(other@, i))),
    {
        let d = self.0.and(other.0);
        let r = d.is_zero();
        proof {
            if !r {
                let b = choose|b: int| d.bit(b);
                A::lemma_bit_range(self.0, b);
                assert(member(self@, b) && member(other@, b));
            }
        }
        r
    }
}

/// Backward-compatible name of the array-backed bitset.
pub type ArrayBitSet<A, V, const N: usize> = BitSet<[A; N], V>;

impl<T: PrimStore, V, const N: usize> View for BitSet<[T; N], V> {
    type V = Seq<bool>;

    closed spec fn view(&self) -> Seq<bool> {
        words_view(self.0@)
    }
}

impl<T: PrimStore, const N: usize> BitSet<[T; N], usize> {
    /// The words that hold the bits.
    pub closed spec fn spec_words(&self) -> Seq<T> {
        self.0@
    }

    /// The capacity `N * W` can be counted in a `usize`.
    pub open spec fn wf(&self) -> bool {
        N * T::width() <= usize::MAX
    }

    pub proof fn lemma_view(&self)
        ensures
            self@ == words_view(self.spec_words()),
            self.spec_words().len() == N,
            self@.len() == capacity_of(self.spec_words()),
            self.wf() == fits(self.spec_words()),
            forall|i: int|
                #![trigger member(self@, i)]
                #![trigger has_bit(self.spec_words(), i)]
                member(self@, i) == has_bit(self.spec_words(), i),
    {
        assert forall|i: int| #![trigger member(self@, i)] #![trigger has_bit(self.spec_words(), i)] member(self@, i) == has_bit(self.spec_words(), i) by {
            lemma_has_bit_bound(self.0@, i);
        }
    }

    /// The empty set.
    pub fn new() -> (r: Self)
        ensures
            r@ == Seq::new(r@.len(), |i: int| false),
            r@.len() == N * T::width(),
    {
        let r = BitSet([T::zero(); N], PhantomData);
        proof {
            assert forall|i: int| 0 <= i < r@.len() implies !r@[i] by {
                lemma_has_bit_bound(r.0@, i);
            }
            assert(r@ =~= Seq::new(r@.len(), |i: int| false));
        }
        r
    }

    /// The empty set.
    pub fn empty() -> (r: Self)
        ensures
            r@ == Seq::new(r@.len(), |i: int| false),
            r@.len() == N * T::width(),
    {
        Self::new()
    }

    /// The set whose words are `raw`.
    pub fn from_bits(raw: [T; N]) -> (r: Self)
        ensures
            r.spec_words() == raw@,
    {
        BitSet(raw, PhantomData)
    }

    /// The set holding only `id`; empty when `id` is beyond the capacity.
    pub fn from_element(id: usize) -> (r: Self)
        ensures
            r@ == if (id as int) < N * T::width() {
                Seq::new(r@.len(), |i: int| false).update(id as int, true)
            } else {
                Seq::new(r@.len(), |i: int| false)
            },
            r@.len() == N * T::width(),
    {
        let mut zelf = Self::new();
        zelf.set(id, true);
        zelf
    }

    /// The words, by reference.
    pub fn as_bits(&self) -> (r: &[T; N])
        ensures
            r@ == self.spec_words(),
    {
        &self.0
    }

    /// The words, consuming the set.
    pub fn into_bits(self) -> (r: [T; N])
        ensures
            r@ == self.spec_words(),
    {
        self.0
    }

    /// The words as a slice.
    pub fn as_slice(&self) -> (r: &[T])
        ensures
            r@ == self.spec_words(),
    {
        self.0.as_slice()
    }

    /// Raw word slice accessor.
    pub fn raw_words(&self) -> (r: &[T])
        ensures
            r@ == self.spec_words(),
    {
        self.0.as_slice()
    }

    /// The words as a mutable slice; what is written through it is the new content.
    pub fn as_mut_slice(&mut self) -> (r: &mut [T])
        ensures
            r@ == old(self).spec_words(),
            final(self).spec_words() == final(r)@,
    {
        let r: &mut [T] = &mut self.0;
        r
    }

    /// Number of positions the set can hold.
    pub fn capacity(&self) -> (r: usize)
        requires
            self.wf(),
        ensures
            r == self@.len(),
    {
        words_capacity(&self.0)
    }

    /// Number of elements.
    pub fn len(&self) -> (r: usize)
        requires
            self.wf(),
        ensures
            r == count_true(self@),
    {
        words_len(&self.0)
    }

    /// Whether the set has no element.
    pub fn is_empty(&self) -> (r: bool)
        ensures
            r == (forall|i: int| 0 <= i < self@.len() ==> !self@[i]),
    {
        let r = words_is_empty(&self.0);
        proof {
            if r {
                assert forall|i: int| 0 <= i < self@.len() implies !self@[i] by {
                    lemma_has_bit_bound(self.0@, i);
                }
            } else {
                let i = choose|i: int| has_bit(self.0@, i);
                lemma_has_bit_bound(self.0@, i);
                assert(self@[i]);
            }
        }
        r
    }

    /// Whether `id` is an element; `false` beyond the capacity.
    pub fn contains(&self, id: &usize) -> (r: bool)
        ensures
            r == member(self@, *id as int),
    {
        let r = words_contains(&self.0, *id);
        proof {
            lemma_has_bit_bound(self.0@, *id as int);
        }
        r
    }

    /// Smallest element, if any.
    pub fn first(&self) -> (r: Option<usize>)
        requires
            self.wf(),
        ensures
            match r {
                None => forall|i: int| 0 <= i < self@.len() ==> !self@[i],
                Some(p) => p < self@.len() && self@[p as int] && forall|i: int|
                    0 <= i < p ==> !self@[i],
            },
    {
        let r = words_first(&self.0);
        proof {
            assert forall|i: int| 0 <= i < self@.len() implies #[trigger] self@[i] == has_bit(self.0@, i) by {
                lemma_has_bit_bound(self.0@, i);
            }
            if let Some(p) = r {
                lemma_has_bit_bound(self.0@, p as int);
            }
        }
        r
    }

    /// Largest element, if any.
    pub fn last(&self) -> (r: Option<usize>)
        requires
            self.wf(),
        ensures
            match r {
                None => forall|i: int| 0 <= i < self@.len() ==> !self@[i],
                Some(p) => p < self@.len() && self@[p as int] && forall|i: int|
                    p < i < self@.len() ==> !self@[i],
            },
    {
        let r = words_last(&self.0);
        proof {
            assert forall|i: int| 0 <= i < self@.len() implies #[trigger] self@[i] == has_bit(self.0@, i) by {
                lemma_has_bit_bound(self.0@, i);
            }
            if let Some(p) = r {
                lemma_has_bit_bound(self.0@, p as int);
            }
        }
        r
    }

    /// Sets whether `id` is an element; positions beyond the capacity are ignored.
    pub fn set(&mut self, id: usize, value: bool)
        ensures
            final(self)@ == if (id as int) < old(self)@.len() {
                old(self)@.update(id as int, value)
            } else {
                old(self)@
            },
    {
        words_set(&mut self.0, id, value);
        proof {
            lemma_view_update(old(self).0@, self.0@, if (id as int) < old(self)@.len() {
                old(self)@.update(id as int, value)
            } else {
                old(self)@
            });
        }
    }

    /// Adds `id`; returns whether it was absent. Positions beyond the capacity are ignored
    /// and give `false`.
    pub fn insert(&mut self, id: usize) -> (r: bool)
        ensures
            r == ((id as int) < old(self)@.len() && !old(self)@[id as int]),
            final(self)@ == if (id as int) < old(self)@.len() {
                old(self)@.update(id as int, true)
            } else {
                old(self)@
            },
    {
        let r = words_insert(&mut self.0, id);
        proof {
            lemma_has_bit_bound(old(self).0@, id as int);
            lemma_view_update(old(self).0@, self.0@, if (id as int) < old(self)@.len() {
                old(self)@.update(id as int, true)
            } else {
                old(self)@
            });
        }
        r
    }

    /// Removes `id`; returns whether it was present.
    pub fn remove(&mut self, id: usize) -> (r: bool)
        ensures
            r == member(old(self)@, id as int),
            final(self)@ == if (id as int) < old(self)@.len() {
                old(self)@.update(id as int, false)
            } else {
                old(self)@
            },
    {
        let r = words_remove(&mut self.0, id);
        proof {
            lemma_has_bit_bound(old(self).0@, id as int);
            lemma_view_update(old(self).0@, self.0@, if (id as int) < old(self)@.len() {
                old(self)@.update(id as int, false)
            } else {
                old(self)@
            });
        }
        r
    }

    /// Flips whether `id` is an element; positions beyond the capacity are ignored.
    pub fn toggle(&mut self, id: usize)
        ensures
            final(self)@ == if (id as int) < old(self)@.len() {
                old(self)@.update(id as int, !old(self)@[id as int])
            } else {
                old(self)@
            },
    {
        words_toggle(&mut self.0, id);
        proof {
            lemma_has_bit_bound(old(self).0@, id as int);
            lemma_view_update(old(self).0@, self.0@, if (id as int) < old(self)@.len() {
                old(self)@.update(id as int, !old(self)@[id as int])
            } else {
                old(self)@
            });
        }
    }

    /// Removes every element.
    pub fn clear(&mut self)
        ensures
            final(self)@ == Seq::new(old(self)@.len(), |i: int| false),
    {
        words_clear(&mut self.0);
        proof {
            lemma_view_update(old(self).0@, self.0@, Seq::new(old(self)@.len(), |i: int| false));
        }
    }

    /// Removes and returns the smallest element, if any.
    pub fn pop_first(&mut self) -> (r: Option<usize>)
        requires
            old(self).wf(),
        ensures
            match r {
                None => final(self)@ == old(self)@ && forall|i: int|
                    0 <= i < old(self)@.len() ==> !old(self)@[i],
                Some(p) => p < old(self)@.len() && old(self)@[p as int] && (forall|i: int|
                    0 <= i < p ==> !old(self)@[i]) && final(self)@ == old(self)@.update(p as int, false),
            },
    {
        let r = words_pop_first(&mut self.0);
        proof {
            assert forall|i: int| 0 <= i < old(self)@.len() implies #[trigger] old(self)@[i] == has_bit(old(self).0@, i) by {
                lemma_has_bit_bound(old(self).0@, i);
            }
            if let Some(p) = r {
                lemma_has_bit_bound(old(self).0@, p as int);
                lemma_view_update(old(self).0@, self.0@, old(self)@.update(p as int, false));
            }
        }
        r
    }

    /// Removes and returns the largest element, if any.
    pub fn pop_last(&mut self) -> (r: Option<usize>)
        requires
            old(self).wf(),
        ensures
            match r {
                None => final(self)@ == old(self)@ && forall|i: int|
                    0 <= i < old(self)@.len() ==> !old(self)@[i],
                Some(p) => p < old(self)@.len() && old(self)@[p as int] && (forall|i: int|
                    p < i < old(self)@.len() ==> !old(self)@[i]) && final(self)@ == old(
                    self,
                )@.update(p as int, false),
            },
    {
        let r = words_pop_last(&mut self.0);
        proof {
            assert forall|i: int| 0 <= i < old(self)@.len() implies #[trigger] old(self)@[i] == has_bit(old(self).0@, i) by {
                lemma_has_bit_bound(old(self).0@, i);
            }
            if let Some(p) = r {
                lemma_has_bit_bound(old(self).0@, p as int);
                lemma_view_update(old(self).0@, self.0@, old(self)@.update(p as int, false));
            }
        }
        r
    }

    /// All elements in increasing order.
    pub fn iter(&self) -> (r: Vec<usize>)
        requires
            self.wf(),
        ensures
            r@ == ones(self@),
    {
        words_iter(&self.0)
    }

    /// Consumes the set into its elements in increasing order.
    pub fn into_iter(self) -> (r: Vec<usize>)
        requires
            self.wf(),
        ensures
            r@ == ones(self@),
    {
        words_iter(&self.0)
    }

    /// Returns all elements in increasing order and leaves the set empty.
    pub fn drain(&mut self) -> (r: Vec<usize>)
        requires
            old(self).wf(),
        ensures
            r@ == ones(old(self)@),
            final(self)@ == Seq::new(old(self)@.len(), |i: int| false),
    {
        let r = words_drain(&mut self.0);
        proof {
            lemma_view_update(old(self).0@, self.0@, Seq::new(old(self)@.len(), |i: int| false));
        }
        r
    }

    /// Keeps exactly the elements `p` for which `f(p)` answers `true`.
    pub fn retain<F: Fn(usize) -> bool>(&mut self, f: F)
        requires
            old(self).wf(),
            forall|p: usize| call_requires(f, (p,)),
        ensures
            final(self)@.len() == old(self)@.len(),
            forall|i: int|
                #![trigger member(final(self)@, i)]
                member(final(self)@, i) ==> member(old(self)@, i) && call_ensures(f, (i as usize,), true),
            forall|i: int|
                #![trigger member(old(self)@, i)]
                member(old(self)@, i) && !member(final(self)@, i) ==> call_ensures(f, (i as usize,), false),
    {
        words_retain(&mut self.0, f);
        proof {
            assert forall|i: int| #![trigger member(self@, i)] #![trigger member(old(self)@, i)] member(self@, i) == has_bit(self.0@, i) && member(old(self)@, i) == has_bit(old(self).0@, i) by {
                lemma_has_bit_bound(self.0@, i);
                lemma_has_bit_bound(old(self).0@, i);
            }
        }
    }

    /// Moves the elements of `other` into this set and empties `other`.
    pub fn append(&mut self, other: &mut Self)
        ensures
            final(self)@ == Seq::new(old(self)@.len(), |i: int| old(self)@[i] || old(other)@[i]),
            final(other)@ == Seq::new(old(other)@.len(), |i: int| false),
    {
        words_append(&mut self.0, &mut other.0);
        proof {
            lemma_view_update(old(self).0@, self.0@, Seq::new(old(self)@.len(), |i: int| old(self)@[i] || old(other)@[i]));
            lemma_view_update(old(other).0@, other.0@, Seq::new(old(other)@.len(), |i: int| false));
        }
    }

    /// Whether every element is also in `other`.
    pub fn is_subset(&self, other: &Self) -> (r: bool)
        ensures
            r == (forall|i: int| member(self@, i) ==> member(other@, i)),
    {
        let r = words_is_subset(&self.0, &other.0);
        proof {
            self.lemma_view();
            other.lemma_view();
        }
        r
    }

    /// Whether every element of `other` is in this set.
    pub fn is_superset(&self, other: &Self) -> (r: bool)
        ensures
            r == (forall|i: int| member(other@, i) ==> member(self@, i)),
    {
        other.is_subset(self)
    }

    /// Whether the sets have no element in common.
    pub fn is_disjoint(&self, other: &Self) -> (r: bool)
        ensures
            r == (forall|i: int| !(member(self@, i) && member(other@, i))),
    {
        let r = words_is_disjoint(&self.0, &other.0);
        proof {
            self.lemma_view();
            other.lemma_view();
        }
        r
    }

    fn op_ones(&self, other: &Self, op: WordOp) -> (r: Vec<usize>)
        requires
            self.wf(),
        ensures
            r@ == ones(combine(self@, other@, self@.len(), op)),
    {
        proof {
            lemma_op_view_combine(self.0@, other.0@, N as int, op);
        }
        words_op_ones(&self.0, &other.0, N, op)
    }

    /// Elements of this set that are not in `other`, in increasing order.
    pub fn difference(&self, other: &Self) -> (r: Vec<usize>)
        requires
            self.wf(),
        ensures
            r@ == ones(combine(self@, other@, self@.len(), WordOp::Difference)),
    {
        self.op_ones(other, WordOp::Difference)
    }

    /// Elements in both sets, in increasing order.
    pub fn intersection(&self, other: &Self) -> (r: Vec<usize>)
        requires
            self.wf(),
        ensures
            r@ == ones(combine(self@, other@, self@.len(), WordOp::Intersection)),
    {
        self.op_ones(other, WordOp::Intersection)
    }

    /// Elements in either set, in increasing order.
    pub fn union(&self, other: &Self) -> (r: Vec<usize>)
        requires
            self.wf(),
        ensures
            r@ == ones(combine(self@, other@, self@.len(), WordOp::Union)),
    {
        self.op_ones(other, WordOp::Union)
    }

    /// Elements in exactly one of the sets, in increasing order.
    pub fn symmetric_difference(&self, other: &Self) -> (r: Vec<usize>)
        requires
            self.wf(),
        ensures
            r@ == ones(combine(self@, other@, self@.len(), WordOp::SymmetricDifference)),
    {
        self.op_ones(other, WordOp::SymmetricDifference)
    }

    /// Whether both sets hold the same elements.
    pub fn set_eq(&self, other: &Self) -> (r: bool)
        ensures
            r == (self@ == other@),
    {
        let r = words_eq(&self.0, &other.0);
        proof {
            self.lemma_view();
            other.lemma_view();
            if r {
                assert(self@ =~= other@);
            }
        }
        r
    }
}

} // verus!

verus! {

impl<A: PrimStore> BitSet<A, usize> {
    /// Two single-word sets with the same elements are the same set.
    pub proof fn lemma_view_injective(a: Self, b: Self)
        requires
            a@ == b@,
        ensures
            a == b,
    {
        a.lemma_view();
        b.lemma_view();
        assert forall|i: int| 0 <= i < A::width() implies a.0.bit(i) == b.0.bit(i) by {
            assert(member(a@, i) == a.spec_bits().bit(i));
            assert(member(b@, i) == b.spec_bits().bit(i));
        }
        A::lemma_ext(a.0, b.0);
    }

    /// The set whose view is `op` of the views of `a` and `b`.
    pub open spec fn spec_op(a: Self, b: Self, op: WordOp) -> Self {
        choose|r: Self| r@ == combine(a@, b@, A::width(), op)
    }

    /// The set whose view is the complement of the view of `a`.
    pub open spec fn spec_not(a: Self) -> Self {
        choose|r: Self| r@ == Seq::new(A::width(), |i: int| !a@[i])
    }

    fn op(self, rhs: Self, op: WordOp) -> (r: Self)
        ensures
            r@ == combine(self@, rhs@, A::width(), op),
            r == Self::spec_op(self, rhs, op),
    {
        let r = BitSet(op.apply(self.0, rhs.0), PhantomData);
        proof {
            self.lemma_view();
            rhs.lemma_view();
            assert(r@ =~= combine(self@, rhs@, A::width(), op));
            let c = Self::spec_op(self, rhs, op);
            Self::lemma_view_injective(r, c);
        }
        r
    }

    /// Adds the elements of `rhs`.
    pub fn bitor_assign(&mut self, rhs: Self)
        ensures
            final(self)@ == combine(old(self)@, rhs@, A::width(), WordOp::Union),
    {
        *self = self.op(rhs, WordOp::Union);
    }

    /// Keeps only the elements also in `rhs`.
    pub fn bitand_assign(&mut self, rhs: Self)
        ensures
            final(self)@ == combine(old(self)@, rhs@, A::width(), WordOp::Intersection),
    {
        *self = self.op(rhs, WordOp::Intersection);
    }

    /// Flips the elements of `rhs`.
    pub fn bitxor_assign(&mut self, rhs: Self)
        ensures
            final(self)@ == combine(old(self)@, rhs@, A::width(), WordOp::SymmetricDifference),
    {
        *self = self.op(rhs, WordOp::SymmetricDifference);
    }

    /// Removes the elements of `rhs`.
    pub fn sub_assign(&mut self, rhs: Self)
        ensures
            final(self)@ == combine(old(self)@, rhs@, A::width(), WordOp::Difference),
    {
        *self = self.op(rhs, WordOp::Difference);
    }
}

impl<A: PrimStore> core::ops::BitOr for BitSet<A, usize> {
    type Output = Self;

    fn bitor(self, rhs: Self) -> (r: Self)
        ensures
            r@ == combine(self@, rhs@, A::width(), WordOp::Union),
    {
        self.op(rhs, WordOp::Union)
    }
}

impl<A: PrimStore> vstd::std_specs::ops::BitOrSpecImpl for BitSet<A, usize> {
    open spec fn obeys_bitor_spec() -> bool {
        true
    }

    open spec fn bitor_req(self, rhs: Self) -> bool {
        true
    }

    open spec fn bitor_spec(self, rhs: Self) -> Self {
        Self::spec_op(self, rhs, WordOp::Union)
    }
}

impl<A: PrimStore> core::ops::BitAnd for BitSet<A, usize> {
    type Output = Self;

    fn bitand(self, rhs: Self) -> (r: Self)
        ensures
            r@ == combine(self@, rhs@, A::width(), WordOp::Intersection),
    {
        self.op(rhs, WordOp::Intersection)
    }
}

impl<A: PrimStore> vstd::std_specs::ops::BitAndSpecImpl for BitSet<A, usize> {
    open spec fn obeys_bitand_spec() -> bool {
        true
    }

    open spec fn bitand_req(self, rhs: Self) -> bool {
        true
    }

    open spec fn bitand_spec(self, rhs: Self) -> Self {
        Self::spec_op(self, rhs, WordOp::Intersection)
    }
}

impl<A: PrimStore> core::ops::BitXor for BitSet<A, usize> {
    type Output = Self;

    fn bitxor(self, rhs: Self) -> (r: Self)
        ensures
            r@ == combine(self@, rhs@, A::width(), WordOp::SymmetricDifference),
    {
        self.op(rhs, WordOp::SymmetricDifference)
    }
}

impl<A: PrimStore> vstd::std_specs::ops::BitXorSpecImpl for BitSet<A, usize> {
    open spec fn obeys_bitxor_spec() -> bool {
        true
    }

    open spec fn bitxor_req(self, rhs: Self) -> bool {
        true
    }

    open spec fn bitxor_spec(self, rhs: Self) -> Self {
        Self::spec_op(self, rhs, WordOp::SymmetricDifference)
    }
}

impl<A: PrimStore> core::ops::Sub for BitSet<A, usize> {
    type Output = Self;

    fn sub(self, rhs: Self) -> (r: Self)
        ensures
            r@ == combine(self@, rhs@, A::width(), WordOp::Difference),
    {
        self.op(rhs, WordOp::Difference)
    }
}

impl<A: PrimStore> vstd::std_specs::ops::SubSpecImpl for BitSet<A, usize> {
    open spec fn obeys_sub_spec() -> bool {
        true
    }

    open spec fn sub_req(self, rhs: Self) -> bool {
        true
    }

    open spec fn sub_spec(self, rhs: Self) -> Self {
        Self::spec_op(self, rhs, WordOp::Difference)
    }
}

impl<A: PrimStore> core::ops::Not for BitSet<A, usize> {
    type Output = Self;

    fn not(self) -> (r: Self)
        ensures
            r@ == Seq::new(A::width(), |i: int| !self@[i]),
    {
        let r = BitSet(self.0.not(), PhantomData);
        proof {
            self.lemma_view();
            assert(r@ =~= Seq::new(A::width(), |i: int| !self@[i]));
            Self::lemma_view_injective(r, Self::spec_not(self));
        }
        r
    }
}

impl<A: PrimStore> vstd::std_specs::ops::NotSpecImpl for BitSet<A, usize> {
    open spec fn obeys_not_spec() -> bool {
        true
    }

    open spec fn not_req(self) -> bool {
        true
    }

    open spec fn not_spec(self) -> Self {
        Self::spec_not(self)
    }
}

} // verus!

verus! {

impl<T: PrimStore, const N: usize> BitSet<[T; N], usize> {
    /// Two array sets with the same elements are the same set.
    pub proof fn lemma_view_injective(a: Self, b: Self)
        requires
            a@ == b@,
        ensures
            a == b,
    {
        a.lemma_view();
        b.lemma_view();
        assert forall|k: int| 0 <= k < N implies a.0[k] == b.0[k] by {
            assert forall|j: int| 0 <= j < T::width() implies a.0[k].bit(j) == b.0[k].bit(j) by {
                crate::words::lemma_has_bit_at(a.0@, k, j);
                crate::words::lemma_has_bit_at(b.0@, k, j);
                let p = k * wd::<T>() + j;
                assert(member(a@, p) == member(b@, p));
            }
            T::lemma_ext(a.0[k], b.0[k]);
        }
        assert(a.0 =~= b.0);
    }

    /// The array set whose view is `op` of the views of `a` and `b`.
    pub open spec fn spec_op(a: Self, b: Self, op: WordOp) -> Self {
        choose|r: Self| r@ == combine(a@, b@, a@.len(), op)
    }

    /// The array set whose view is the complement of the view of `a`.
    pub open spec fn spec_not(a: Self) -> Self {
        choose|r: Self| r@ == Seq::new(a@.len(), |i: int| !a@[i])
    }

    fn op(self, rhs: Self, op: WordOp) -> (r: Self)
        ensures
            r@ == combine(self@, rhs@, self@.len(), op),
            r == Self::spec_op(self, rhs, op),
    {
        let mut r = self;
        crate::words::words_apply(&mut r.0, &rhs.0, op);
        proof {
            self.lemma_view();
            rhs.lemma_view();
            lemma_view_update(self.0@, r.0@, combine(self@, rhs@, self@.len(), op));
            let c = Self::spec_op(self, rhs, op);
            Self::lemma_view_injective(r, c);
        }
        r
    }

    /// Adds the elements of `rhs`.
    pub fn bitor_assign(&mut self, rhs: Self)
        ensures
            final(self)@ == combine(old(self)@, rhs@, old(self)@.len(), WordOp::Union),
    {
        *self = self.op(rhs, WordOp::Union);
    }

    /// Keeps only the elements also in `rhs`.
    pub fn bitand_assign(&mut self, rhs: Self)
        ensures
            final(self)@ == combine(old(self)@, rhs@, old(self)@.len(), WordOp::Intersection),
    {
        *self = self.op(rhs, WordOp::Intersection);
    }

    /// Flips the elements of `rhs`.
    pub fn bitxor_assign(&mut self, rhs: Self)
        ensures
            final(self)@ == combine(old(self)@, rhs@, old(self)@.len(), WordOp::SymmetricDifference),
    {
        *self = self.op(rhs, WordOp::SymmetricDifference);
    }

    /// Removes the elements of `rhs`.
    pub fn sub_assign(&mut self, rhs: Self)
        ensures
            final(self)@ == combine(old(self)@, rhs@, old(self)@.len(), WordOp::Difference),
    {
        *self = self.op(rhs, WordOp::Difference);
    }
}

impl<T: PrimStore, const N: usize> core::ops::BitOr for BitSet<[T; N], usize> {
    type Output = Self;

    fn bitor(self, rhs: Self) -> (r: Self)
        ensures
            r@ == combine(self@, rhs@, self@.len(), WordOp::Union),
    {
        self.op(rhs, WordOp::Union)
    }
}

impl<T: PrimStore, const N: usize> vstd::std_specs::ops::BitOrSpecImpl for BitSet<[T; N], usize> {
    open spec fn obeys_bitor_spec() -> bool {
        true
    }

    open spec fn bitor_req(self, rhs: Self) -> bool {
        true
    }

    open spec fn bitor_spec(self, rhs: Self) -> Self {
        Self::spec_op(self, rhs, WordOp::Union)
    }
}

impl<T: PrimStore, const N: usize> core::ops::BitAnd for BitSet<[T; N], usize> {
    type Output = Self;

    fn bitand(self, rhs: Self) -> (r: Self)
        ensures
            r@ == combine(self@, rhs@, self@.len(), WordOp::Intersection),
    {
        self.op(rhs, WordOp::Intersection)
    }
}

impl<T: PrimStore, const N: usize> vstd::std_specs::ops::BitAndSpecImpl for BitSet<[T; N], usize> {
    open spec fn obeys_bitand_spec() -> bool {
        true
    }

    open spec fn bitand_req(self, rhs: Self) -> bool {
        true
    }

    open spec fn bitand_spec(self, rhs: Self) -> Self {
        Self::spec_op(self, rhs, WordOp::Intersection)
    }
}

impl<T: PrimStore, const N: usize> core::ops::BitXor for BitSet<[T; N], usize> {
    type Output = Self;

    fn bitxor(self, rhs: Self) -> (r: Self)
        ensures
            r@ == combine(self@, rhs@, self@.len(), WordOp::SymmetricDifference),
    {
        self.op(rhs, WordOp::SymmetricDifference)
    }
}

impl<T: PrimStore, const N: usize> vstd::std_specs::ops::BitXorSpecImpl for BitSet<[T; N], usize> {
    open spec fn obeys_bitxor_spec() -> bool {
        true
    }

    open spec fn bitxor_req(self, rhs: Self) -> bool {
        true
    }

    open spec fn bitxor_spec(self, rhs: Self) -> Self {
        Self::spec_op(self, rhs, WordOp::SymmetricDifference)
    }
}

impl<T: PrimStore, const N: usize> core::ops::Sub for BitSet<[T; N], usize> {
    type Output = Self;

    fn sub(self, rhs: Self) -> (r: Self)
        ensures
            r@ == combine(self@, rhs@, self@.len(), WordOp::Difference),
    {
        self.op(rhs, WordOp::Difference)
    }
}

impl<T: PrimStore, const N: usize> vstd::std_specs::ops::SubSpecImpl for BitSet<[T; N], usize> {
    open spec fn obeys_sub_spec() -> bool {
        true
    }

    open spec fn sub_req(self, rhs: Self) -> bool {
        true
    }

    open spec fn sub_spec(self, rhs: Self) -> Self {
        Self::spec_op(self, rhs, WordOp::Difference)
    }
}

impl<T: PrimStore, const N: usize> core::ops::Not for BitSet<[T; N], usize> {
    type Output = Self;

    fn not(self) -> (r: Self)
        ensures
            r@ == Seq::new(self@.len(), |i: int| !self@[i]),
    {
        let mut r = self;
        crate::words::words_not(&mut r.0);
        proof {
            self.lemma_view();
            lemma_view_update(self.0@, r.0@, Seq::new(self@.len(), |i: int| !self@[i]));
            Self::lemma_view_injective(r, Self::spec_not(self));
        }
        r
    }
}

impl<T: PrimStore, const N: usize> vstd::std_specs::ops::NotSpecImpl for BitSet<[T; N], usize> {
    open spec fn obeys_not_spec() -> bool {
        true
    }

    open spec fn not_req(self) -> bool {
        true
    }

    open spec fn not_spec(self) -> Self {
        Self::spec_not(self)
    }
}

} // verus!

verus! {

/// Whether position `i` is in at least one of `sets`.
pub open spec fn in_any<S: View<V = Seq<bool>>>(sets: Seq<S>, i: int) -> bool {
    exists|k: int| 0 <= k < sets.len() && member(#[trigger] sets[k]@, i)
}

pub(crate) proof fn lemma_in_any_step<S: View<V = Seq<bool>>>(sets: Seq<S>, k: int, i: int)
    requires
        0 <= k < sets.len(),
    ensures
        in_any(sets.take(k + 1), i) == (in_any(sets.take(k), i) || member(sets[k]@, i)),
{
    let t = sets.take(k + 1);
    let t0 = sets.take(k);
    if in_any(t, i) {
        let j = choose|j: int| 0 <= j < t.len() && member(#[trigger] t[j]@, i);
        if j < k {
            assert(t0[j] == t[j]);
        }
    }
    if in_any(t0, i) {
        let j = choose|j: int| 0 <= j < t0.len() && member(#[trigger] t0[j]@, i);
        assert(t[j] == t0[j]);
    }
    if member(sets[k]@, i) {
        assert(t[k] == sets[k]);
    }
}

proof fn lemma_contains_step(elems: Seq<usize>, k: int, i: int)
    requires
        0 <= k < elems.len(),
    ensures
        elems.take(k + 1).contains(i as usize) == (elems.take(k).contains(i as usize) || elems[k]
            == i as usize),
{
    let t = elems.take(k + 1);
    let t0 = elems.take(k);
    if t.contains(i as usize) {
        let j = choose|j: int| 0 <= j < t.len() && t[j] == i as usize;
        if j < k {
            assert(t0[j] == t[j]);
        }
    }
    if t0.contains(i as usize) {
        let j = choose|j: int| 0 <= j < t0.len() && t0[j] == i as usize;
        assert(t[j] == t0[j]);
    }
    if elems[k] == i as usize {
        assert(t[k] == elems[k]);
    }
}

impl<A: PrimStore> BitSet<A, usize> {
    /// Adds every listed position; positions beyond the width are ignored.
    pub fn extend(&mut self, elems: &[usize])
        ensures
            final(self)@ == Seq::new(A::width(), |i: int| old(self)@[i] || elems@.contains(i as usize)),
    {
        proof {
            old(self).lemma_view();
        }
        let mut k: usize = 0;
        while k < elems.len()
            invariant
                k <= elems@.len(),
                old(self)@.len() == A::width(),
                self@ == Seq::new(A::width(), |i: int| old(self)@[i] || elems@.take(k as int).contains(i as usize)),
            decreases elems@.len() - k,
        {
            let ghost before = self@;
            self.set(elems[k], true);
            proof {
                A::lemma_width();
                assert forall|i: int| 0 <= i < A::width() implies self@[i] == (old(self)@[i] || elems@.take(k + 1).contains(i as usize)) by {
                    lemma_contains_step(elems@, k as int, i);
                    assert(before[i] == (old(self)@[i] || elems@.take(k as int).contains(i as usize)));
                    assert(i as usize == i);
                }
                assert(self@ =~= Seq::new(A::width(), |i: int| old(self)@[i] || elems@.take(k + 1).contains(i as usize)));
            }
            k = k + 1;
        }
        proof {
            assert(elems@.take(elems@.len() as int) =~= elems@);
        }
    }

    /// The set of the listed positions that lie below the width.
    pub fn from_elements(elems: &[usize]) -> (r: Self)
        ensures
            r@ == Seq::new(A::width(), |i: int| elems@.contains(i as usize)),
    {
        let mut r = Self::new();
        r.extend(elems);
        proof {
            assert(r@ =~= Seq::new(A::width(), |i: int| elems@.contains(i as usize)));
        }
        r
    }

    /// Adds the elements of every set of `sets`.
    pub fn extend_sets(&mut self, sets: &[Self])
        ensures
            final(self)@ == Seq::new(A::width(), |i: int| old(self)@[i] || in_any(sets@, i)),
    {
        proof {
            old(self).lemma_view();
        }
        let mut k: usize = 0;
        while k < sets.len()
            invariant
                k <= sets@.len(),
                old(self)@.len() == A::width(),
                self@ == Seq::new(A::width(), |i: int| old(self)@[i] || in_any(sets@.take(k as int), i)),
            decreases sets@.len() - k,
        {
            let ghost before = self@;
            *self = self.op(sets[k], WordOp::Union);
            proof {
                sets@[k as int].lemma_view();
                assert forall|i: int| 0 <= i < A::width() implies self@[i] == (old(self)@[i] || in_any(sets@.take(k + 1), i)) by {
                    lemma_in_any_step(sets@, k as int, i);
                    assert(before[i] == (old(self)@[i] || in_any(sets@.take(k as int), i)));
                }
                assert(self@ =~= Seq::new(A::width(), |i: int| old(self)@[i] || in_any(sets@.take(k + 1), i)));
            }
            k = k + 1;
        }
        proof {
            assert(sets@.take(sets@.len() as int) =~= sets@);
        }
    }

    /// The union of all of `sets` (empty when there is none).
    pub fn from_sets(sets: &[Self]) -> (r: Self)
        ensures
            r@ == Seq::new(A::width(), |i: int| in_any(sets@, i)),
    {
        let mut r = Self::new();
        r.extend_sets(sets);
        proof {
            assert(r@ =~= Seq::new(A::width(), |i: int| in_any(sets@, i)));
        }
        r
    }
}

} // verus!

verus! {

impl<T: PrimStore, const N: usize> BitSet<[T; N], usize> {
    /// Adds every listed position; positions beyond the capacity are ignored.
    pub fn extend(&mut self, elems: &[usize])
        requires
            old(self).wf(),
        ensures
            final(self)@ == Seq::new(old(self)@.len(), |i: int| old(self)@[i] || elems@.contains(i as usize)),
    {
        let ghost n = old(self)@.len();
        proof {
            old(self).lemma_view();
            T::lemma_width();
        }
        let mut k: usize = 0;
        while k < elems.len()
            invariant
                k <= elems@.len(),
                n == old(self)@.len(),
                n <= usize::MAX,
                self@ == Seq::new(n, |i: int| old(self)@[i] || elems@.take(k as int).contains(i as usize)),
            decreases elems@.len() - k,
        {
            let ghost before = self@;
            self.set(elems[k], true);
            proof {
                assert forall|i: int| 0 <= i < n implies self@[i] == (old(self)@[i] || elems@.take(k + 1).contains(i as usize)) by {
                    lemma_contains_step(elems@, k as int, i);
                    assert(before[i] == (old(self)@[i] || elems@.take(k as int).contains(i as usize)));
                }
                assert(self@ =~= Seq::new(n, |i: int| old(self)@[i] || elems@.take(k + 1).contains(i as usize)));
            }
            k = k + 1;
        }
        proof {
            assert(elems@.take(elems@.len() as int) =~= elems@);
        }
    }

    /// The set of the listed positions that lie below the capacity.
    pub fn from_elements(elems: &[usize]) -> (r: Self)
        requires
            N * T::width() <= usize::MAX,
        ensures
            r@ == Seq::new(r@.len(), |i: int| elems@.contains(i as usize)),
            r@.len() == N * T::width(),
    {
        let mut r = Self::new();
        r.extend(elems);
        proof {
            assert(r@ =~= Seq::new(r@.len(), |i: int| elems@.contains(i as usize)));
        }
        r
    }

    /// Adds the elements of every set of `sets`.
    pub fn extend_sets(&mut self, sets: &[Self])
        ensures
            final(self)@ == Seq::new(old(self)@.len(), |i: int| old(self)@[i] || in_any(sets@, i)),
    {
        let ghost n = old(self)@.len();
        let mut k: usize = 0;
        while k < sets.len()
            invariant
                k <= sets@.len(),
                n == old(self)@.len(),
                self@ == Seq::new(n, |i: int| old(self)@[i] || in_any(sets@.take(k as int), i)),
            decreases sets@.len() - k,
        {
            let ghost before = self@;
            *self = self.op(sets[k], WordOp::Union);
            proof {
                sets@[k as int].lemma_view();
                self.lemma_view();
                assert forall|i: int| 0 <= i < n implies self@[i] == (old(self)@[i] || in_any(sets@.take(k + 1), i)) by {
                    lemma_in_any_step(sets@, k as int, i);
                    assert(before[i] == (old(self)@[i] || in_any(sets@.take(k as int), i)));
                }
                assert(self@ =~= Seq::new(n, |i: int| old(self)@[i] || in_any(sets@.take(k + 1), i)));
            }
            k = k + 1;
        }
        proof {
            assert(sets@.take(sets@.len() as int) =~= sets@);
        }
    }

    /// The union of all of `sets` (empty when there is none).
    pub fn from_sets(sets: &[Self]) -> (r: Self)
        ensures
            r@ == Seq::new(r@.len(), |i: int| in_any(sets@, i)),
            r@.len() == N * T::width(),
    {
        let mut r = Self::new();
        r.extend_sets(sets);
        proof {
            assert(r@ =~= Seq::new(r@.len(), |i: int| in_any(sets@, i)));
        }
        r
    }
}

} // verus!

verus! {

impl<A: PrimStore> Default for BitSet<A, usize> {
    /// The empty set.
    fn default() -> (r: Self)
        ensures
            r@ == Seq::new(A::width(), |i: int| false),
    {
        Self::new()
    }
}

impl<T: PrimStore, const N: usize> Default for BitSet<[T; N], usize> {
    /// The empty set.
    fn default() -> (r: Self)
        ensures
            r@ == Seq::new(r@.len(), |i: int| false),
            r@.len() == N * T::width(),
    {
        Self::new()
    }
}

} // verus!
