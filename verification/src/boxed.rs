use vstd::prelude::*;

use crate::bitset::{in_any, lemma_in_any_step};
use crate::slice::BitSlice;
use crate::word::{count_true, PrimStore};
use crate::words::{capacity_of, combine, fits, member, ones, wd, words_view, WordOp};

verus! {

/// A set of positions `0..capacity` in a heap-allocated run of words, whose length is fixed
/// when the set is made.
///
/// Positions at or beyond the capacity are accepted and ignored, in every build: `contains`,
/// `insert` and `remove` answer `false` for them, and `set` and `toggle` leave the set as it
/// is. No operation panics on them.
#[derive(Debug)]
pub struct BoxedBitSet<A, V>(BitSlice<A, V>);

impl<A: PrimStore, V> View for BoxedBitSet<A, V> {
    type V = Seq<bool>;

    closed spec fn view(&self) -> Seq<bool> {
        self.0@
    }
}

impl<A: PrimStore> BoxedBitSet<A, usize> {
    /// The words that hold the bits.
    pub closed spec fn spec_words(&self) -> Seq<A> {
        self.0.spec_words()
    }

    /// Well-formedness: the capacity can be counted in a `usize`.
    pub closed spec fn wf(&self) -> bool {
        self.0.wf()
    }

    pub proof fn lemma_view(&self)
        ensures
            self@ == words_view(self.spec_words()),
            self@.len() == capacity_of(self.spec_words()),
            self.wf() == fits(self.spec_words()),
    {
        self.0.lemma_view();
    }

    /// The set over the given words.
    pub fn from_boxed_slice(store: Box<[A]>) -> (r: Self)
        requires
            fits(store@),
        ensures
            r.wf(),
            r.spec_words() == store@,
            r@ == words_view(store@),
    {
        let v = store.into_vec();
        BoxedBitSet(BitSlice::from_words(v))
    }

    /// The set over the given words.
    pub fn from_words(words: Vec<A>) -> (r: Self)
        requires
            fits(words@),
        ensures
            r.wf(),
            r.spec_words() == words@,
            r@ == words_view(words@),
    {
        BoxedBitSet(BitSlice::from_words(words))
    }

    /// An empty set with room for at least `bits` positions: `bits` rounded up to whole words.
    pub fn with_capacity(bits: usize) -> (r: Self)
        requires
            bits + wd::<A>() <= usize::MAX + 1,
        ensures
            r.wf(),
            r@ == Seq::new(r@.len(), |i: int| false),
            r@.len() == (bits + wd::<A>() - 1) / wd::<A>() * wd::<A>(),
            bits <= r@.len() < bits + wd::<A>(),
    {
        proof {
            A::lemma_width();
        }
        let w = A::bit_width() as usize;
        let n = bits / w + if bits % w == 0 {
            0
        } else {
            1
        };
        let mut v: Vec<A> = Vec::new();
        let mut k: usize = 0;
        while k < n
            invariant
                k <= n,
                v@.len() == k,
                forall|j: int, c: int| 0 <= j < k ==> !(#[trigger] v@[j].bit(c)),
            decreases n - k,
        {
            v.push(A::zero());
            k = k + 1;
        }
        proof {
            let ww = wd::<A>();
            let b = bits as int;
            vstd::arithmetic::div_mod::lemma_fundamental_div_mod(b, ww);
            vstd::arithmetic::div_mod::lemma_fundamental_div_mod(b + ww - 1, ww);
            assert(ww * (b / ww) == (b / ww) * ww) by (nonlinear_arith);
            assert(ww * ((b + ww - 1) / ww) == ((b + ww - 1) / ww) * ww) by (nonlinear_arith);
            assert(n * ww == (b + ww - 1) / ww * ww && b <= n * ww < b + ww) by (nonlinear_arith)
                requires
                    ww >= 8,
                    b >= 0,
                    n == b / ww + if b % ww == 0 { 0int } else { 1int },
                    b == (b / ww) * ww + b % ww,
                    0 <= b % ww < ww,
                    (b + ww - 1) == ((b + ww - 1) / ww) * ww + (b + ww - 1) % ww,
                    0 <= (b + ww - 1) % ww < ww,
            ;
        }
        let r = BoxedBitSet(BitSlice::from_words(v));
        proof {
            r.0.lemma_view();
            assert forall|i: int| 0 <= i < r@.len() implies !r@[i] by {
                crate::words::lemma_in_range::<A>(n as int, i);
            }
            assert(r@ =~= Seq::new(r@.len(), |i: int| false));
        }
        r
    }

    /// The words as a slice.
    pub fn as_raw_slice(&self) -> (r: &[A])
        ensures
            r@ == self.spec_words(),
    {
        self.0.raw_words()
    }

    /// The words as a mutable slice; what is written through it is the new content.
    pub fn as_raw_mut_slice(&mut self) -> (r: &mut [A])
        ensures
            r@ == old(self).spec_words(),
            final(self).spec_words() == final(r)@,
    {
        self.0.raw_words_mut()
    }

    /// The shared bitset view of the words.
    pub fn as_bit_slice(&self) -> (r: &BitSlice<A, usize>)
        ensures
            r@ == self@,
            r.wf() == self.wf(),
    {
        &self.0
    }

    /// Number of positions the set can hold.
    pub fn capacity(&self) -> (r: usize)
        requires
            self.wf(),
        ensures
            r == self@.len(),
    {
        self.0.capacity()
    }

    /// Number of elements.
    pub fn len(&self) -> (r: usize)
        requires
            self.wf(),
        ensures
            r == count_true(self@),
    {
        self.0.len()
    }

    /// Whether the set has no element.
    pub fn is_empty(&self) -> (r: bool)
        ensures
            r == (forall|i: int| 0 <= i < self@.len() ==> !self@[i]),
    {
        proof {
            assert(self@ == self.0@);
        }
        self.0.is_empty()
    }

    /// Smallest element, if any.
    pub fn first(&self) -> (r: Option<usize>)
        requires
            self.wf(),
        ensures
            match r {
                None => forall|i: int| 0 <= i < self@.len() ==> !self@[i],
                Some(p) => p < self@.len() && self@[p as int] && forall|i: int|
                    0 <= i < p ==> !self@[i],
            },
    {
        self.0.first()
    }

    /// Largest element, if any.
    pub fn last(&self) -> (r: Option<usize>)
        requires
            self.wf(),
        ensures
            match r {
                None => forall|i: int| 0 <= i < self@.len() ==> !self@[i],
                Some(p) => p < self@.len() && self@[p as int] && forall|i: int|
                    p < i < self@.len() ==> !self@[i],
            },
    {
        self.0.last()
    }

    /// Whether `id` is an element; `false` beyond the capacity.
    pub fn contains(&self, id: &usize) -> (r: bool)
        ensures
            r == member(self@, *id as int),
    {
        self.0.contains(id)
    }

    /// Sets whether `id` is an element; positions beyond the capacity are ignored.
    pub fn set(&mut self, id: usize, value: bool)
        ensures
            final(self).wf() == old(self).wf(),
            final(self)@ == if (id as int) < old(self)@.len() {
                old(self)@.update(id as int, value)
            } else {
                old(self)@
            },
    {
        self.0.set(id, value)
    }

    /// Adds `id`; returns whether it was absent. Positions beyond the capacity are ignored
    /// and give `false`.
    pub fn insert(&mut self, id: usize) -> (r: bool)
        ensures
            final(self).wf() == old(self).wf(),
            r == ((id as int) < old(self)@.len() && !old(self)@[id as int]),
            final(self)@ == if (id as int) < old(self)@.len() {
                old(self)@.update(id as int, true)
            } else {
                old(self)@
            },
    {
        self.0.insert(id)
    }

    /// Removes `id`; returns whether it was present.
    pub fn remove(&mut self, id: usize) -> (r: bool)
        ensures
            final(self).wf() == old(self).wf(),
            r == member(old(self)@, id as int),
            final(self)@ == if (id as int) < old(self)@.len() {
                old(self)@.update(id as int, false)
            } else {
                old(self)@
            },
    {
        self.0.remove(id)
    }

    /// Flips whether `id` is an element; positions beyond the capacity are ignored.
    pub fn toggle(&mut self, id: usize)
        ensures
            final(self).wf() == old(self).wf(),
            final(self)@ == if (id as int) < old(self)@.len() {
                old(self)@.update(id as int, !old(self)@[id as int])
            } else {
                old(self)@
            },
    {
        self.0.toggle(id)
    }

    /// Removes every element.
    pub fn clear(&mut self)
        ensures
            final(self).wf() == old(self).wf(),
            final(self)@ == Seq::new(old(self)@.len(), |i: int| false),
    {
        self.0.clear()
    }

    /// Removes and returns the smallest element, if any.
    pub fn pop_first(&mut self) -> (r: Option<usize>)
        requires
            old(self).wf(),
        ensures
            final(self).wf(),
            match r {
                None => final(self)@ == old(self)@ && forall|i: int|
                    0 <= i < old(self)@.len() ==> !old(self)@[i],
                Some(p) => p < old(self)@.len() && old(self)@[p as int] && (forall|i: int|
                    0 <= i < p ==> !old(self)@[i]) && final(self)@ == old(self)@.update(p as int, false),
            },
    {
        self.0.pop_first()
    }

    /// Removes and returns the largest element, if any.
    pub fn pop_last(&mut self) -> (r: Option<usize>)
        requires
            old(self).wf(),
        ensures
            final(self).wf(),
            match r {
                None => final(self)@ == old(self)@ && forall|i: int|
                    0 <= i < old(self)@.len() ==> !old(self)@[i],
                Some(p) => p < old(self)@.len() && old(self)@[p as int] && (forall|i: int|
                    p < i < old(self)@.len() ==> !old(self)@[i]) && final(self)@ == old(
                    self,
                )@.update(p as int, false),
            },
    {
        self.0.pop_last()
    }

    /// All elements in increasing order.
    pub fn iter(&self) -> (r: Vec<usize>)
        requires
            self.wf(),
        ensures
            r@ == ones(self@),
    {
        self.0.iter()
    }

    /// Returns all elements in increasing order and leaves the set empty.
    pub fn drain(&mut self) -> (r: Vec<usize>)
        requires
            old(self).wf(),
        ensures
            final(self).wf(),
            r@ == ones(old(self)@),
            final(self)@ == Seq::new(old(self)@.len(), |i: int| false),
    {
        self.0.drain()
    }

    /// Keeps exactly the elements `p` for which `f(p)` answers `true`.
    pub fn retain<F: Fn(usize) -> bool>(&mut self, f: F)
        requires
            old(self).wf(),
            forall|p: usize| call_requires(f, (p,)),
        ensures
            final(self).wf(),
            final(self)@.len() == old(self)@.len(),
            forall|i: int|
                #![trigger member(final(self)@, i)]
                member(final(self)@, i) ==> member(old(self)@, i) && call_ensures(f, (i as usize,), true),
            forall|i: int|
                #![trigger member(old(self)@, i)]
                member(old(self)@, i) && !member(final(self)@, i) ==> call_ensures(f, (i as usize,), false),
    {
        self.0.retain(f)
    }

    /// Moves the elements of `other` below this set's capacity into this set; `other` keeps
    /// only its elements at or beyond that capacity.
    pub fn append(&mut self, other: &mut Self)
        ensures
            final(self).wf() == old(self).wf(),
            final(other).wf() == old(other).wf(),
            final(self)@ == Seq::new(old(self)@.len(), |i: int| old(self)@[i] || member(old(other)@, i)),
            final(other)@ == Seq::new(old(other)@.len(), |i: int| old(other)@[i] && i >= old(self)@.len()),
    {
        self.0.append(&mut other.0)
    }

    /// Whether every element of this set is in `other`.
    pub fn is_subset(&self, other: &Self) -> (r: bool)
        ensures
            r == (forall|i: int| member(self@, i) ==> member(other@, i)),
    {
        proof {
            assert(self@ == self.0@);
            assert(other@ == other.0@);
        }
        self.0.is_subset(&other.0)
    }

    /// Whether every element of `other` is in this set.
    pub fn is_superset(&self, other: &Self) -> (r: bool)
        ensures
            r == (forall|i: int| member(other@, i) ==> member(self@, i)),
    {
        proof {
            assert(self@ == self.0@);
            assert(other@ == other.0@);
        }
        self.0.is_superset(&other.0)
    }

    /// Whether the two sets have no element in common.
    pub fn is_disjoint(&self, other: &Self) -> (r: bool)
        ensures
            r == (forall|i: int| !(member(self@, i) && member(other@, i))),
    {
        proof {
            assert(self@ == self.0@);
            assert(other@ == other.0@);
        }
        self.0.is_disjoint(&other.0)
    }

    /// Whether both sets hold the same elements, whatever their capacities.
    pub fn set_eq(&self, other: &Self) -> (r: bool)
        ensures
            r == (forall|i: int| member(self@, i) == member(other@, i)),
    {
        proof {
            assert(self@ == self.0@);
            assert(other@ == other.0@);
        }
        self.0.set_eq(&other.0)
    }

    /// Elements of this set that are not in `other`, in increasing order.
    pub fn difference(&self, other: &Self) -> (r: Vec<usize>)
        requires
            self.wf(),
            other.wf(),
        ensures
            r@ == ones(combine(self@, other@, self@.len(), WordOp::Difference)),
    {
        self.0.difference(&other.0)
    }

    /// Elements in both sets, in increasing order.
    pub fn intersection(&self, other: &Self) -> (r: Vec<usize>)
        requires
            self.wf(),
            other.wf(),
        ensures
            r@ == ones(
                combine(
                    self@,
                    other@,
                    if self@.len() < other@.len() {
                        self@.len()
                    } else {
                        other@.len()
                    },
                    WordOp::Intersection,
                ),
            ),
    {
        self.0.intersection(&other.0)
    }

    /// Elements in either set, in increasing order.
    pub fn union(&self, other: &Self) -> (r: Vec<usize>)
        requires
            self.wf(),
            other.wf(),
        ensures
            r@ == ones(
                combine(
                    self@,
                    other@,
                    if self@.len() < other@.len() {
                        other@.len()
                    } else {
                        self@.len()
                    },
                    WordOp::Union,
                ),
            ),
    {
        self.0.union(&other.0)
    }

    /// Elements in exactly one of the sets, in increasing order.
    pub fn symmetric_difference(&self, other: &Self) -> (r: Vec<usize>)
        requires
            self.wf(),
            other.wf(),
        ensures
            r@ == ones(
                combine(
                    self@,
                    other@,
                    if self@.len() < other@.len() {
                        other@.len()
                    } else {
                        self@.len()
                    },
                    WordOp::SymmetricDifference,
                ),
            ),
    {
        self.0.symmetric_difference(&other.0)
    }

    /// Replaces this set, position by position over its capacity, by `op` of it and `other`.
    pub fn apply(&mut self, other: &Self, op: WordOp)
        ensures
            final(self).wf() == old(self).wf(),
            final(self)@ == combine(old(self)@, other@, old(self)@.len(), op),
    {
        self.0.apply(&other.0, op)
    }

    /// Flips every position below the capacity.
    pub fn invert(&mut self)
        ensures
            final(self).wf() == old(self).wf(),
            final(self)@ == Seq::new(old(self)@.len(), |i: int| !old(self)@[i]),
    {
        self.0.invert()
    }

    fn or_xor(self, rhs: Self, op: WordOp) -> (r: Self)
        requires
            op == WordOp::Union || op == WordOp::SymmetricDifference,
        ensures
            r.wf() == (if self@.len() < rhs@.len() { rhs.wf() } else { self.wf() }),
            r@ == combine(self@, rhs@, if self@.len() < rhs@.len() { rhs@.len() } else { self@.len() }, op),
    {
        proof {
            self.lemma_view();
            rhs.lemma_view();
            A::lemma_width();
            assert(self.spec_words().len() < rhs.spec_words().len() <==> self@.len() < rhs@.len()) by (nonlinear_arith)
                requires
                    wd::<A>() > 0,
                    self@.len() == self.spec_words().len() * wd::<A>(),
                    rhs@.len() == rhs.spec_words().len() * wd::<A>(),
            ;
        }
        if self.0.raw_words().len() >= rhs.0.raw_words().len() {
            let mut longer = self;
            longer.0.apply(&rhs.0, op);
            longer
        } else {
            let mut longer = rhs;
            longer.0.apply(&self.0, op);
            proof {
                assert(longer@ =~= combine(self@, rhs@, rhs@.len(), op));
            }
            longer
        }
    }

    /// Adds the elements of `rhs` below this set's capacity.
    pub fn bitor_assign(&mut self, rhs: Self)
        ensures
            final(self).wf() == old(self).wf(),
            final(self)@ == combine(old(self)@, rhs@, old(self)@.len(), WordOp::Union),
    {
        self.0.apply(&rhs.0, WordOp::Union);
    }

    /// Keeps only the elements also in `rhs`.
    pub fn bitand_assign(&mut self, rhs: Self)
        ensures
            final(self).wf() == old(self).wf(),
            final(self)@ == combine(old(self)@, rhs@, old(self)@.len(), WordOp::Intersection),
    {
        self.0.apply(&rhs.0, WordOp::Intersection);
    }

    /// Flips the elements of `rhs` below this set's capacity.
    pub fn bitxor_assign(&mut self, rhs: Self)
        ensures
            final(self).wf() == old(self).wf(),
            final(self)@ == combine(old(self)@, rhs@, old(self)@.len(), WordOp::SymmetricDifference),
    {
        self.0.apply(&rhs.0, WordOp::SymmetricDifference);
    }

    /// Removes the elements of `rhs`.
    pub fn sub_assign(&mut self, rhs: Self)
        ensures
            final(self).wf() == old(self).wf(),
            final(self)@ == combine(old(self)@, rhs@, old(self)@.len(), WordOp::Difference),
    {
        self.0.apply(&rhs.0, WordOp::Difference);
    }

    /// A copy of the set.
    pub fn duplicate(&self) -> (r: Self)
        ensures
            r.wf() == self.wf(),
            r@ == self@,
            r.spec_words() == self.spec_words(),
    {
        BoxedBitSet(self.0.duplicate())
    }
}

impl<A: PrimStore> core::ops::BitOr for BoxedBitSet<A, usize> {
    type Output = Self;

    /// The union: the result has the larger capacity of the two.
    fn bitor(self, rhs: Self) -> (r: Self)
        ensures
            r.wf() == (if self@.len() < rhs@.len() { rhs.wf() } else { self.wf() }),
            r@ == combine(self@, rhs@, if self@.len() < rhs@.len() { rhs@.len() } else { self@.len() }, WordOp::Union),
    {
        self.or_xor(rhs, WordOp::Union)
    }
}

impl<A: PrimStore> core::ops::BitXor for BoxedBitSet<A, usize> {
    type Output = Self;

    /// The symmetric difference: the result has the larger capacity of the two.
    fn bitxor(self, rhs: Self) -> (r: Self)
        ensures
            r.wf() == (if self@.len() < rhs@.len() { rhs.wf() } else { self.wf() }),
            r@ == combine(self@, rhs@, if self@.len() < rhs@.len() { rhs@.len() } else { self@.len() }, WordOp::SymmetricDifference),
    {
        self.or_xor(rhs, WordOp::SymmetricDifference)
    }
}

impl<A: PrimStore> core::ops::BitAnd for BoxedBitSet<A, usize> {
    type Output = Self;

    /// The intersection: the result keeps this set's capacity.
    fn bitand(self, rhs: Self) -> (r: Self)
        ensures
            r.wf() == self.wf(),
            r@ == combine(self@, rhs@, self@.len(), WordOp::Intersection),
    {
        let mut s = self;
        s.0.apply(&rhs.0, WordOp::Intersection);
        s
    }
}

impl<A: PrimStore> core::ops::Sub for BoxedBitSet<A, usize> {
    type Output = Self;

    /// The difference: the result keeps this set's capacity.
    fn sub(self, rhs: Self) -> (r: Self)
        ensures
            r.wf() == self.wf(),
            r@ == combine(self@, rhs@, self@.len(), WordOp::Difference),
    {
        let mut s = self;
        s.0.apply(&rhs.0, WordOp::Difference);
        s
    }
}

impl<A: PrimStore> core::ops::Not for BoxedBitSet<A, usize> {
    type Output = Self;

    /// The complement within the capacity.
    fn not(self) -> (r: Self)
        ensures
            r.wf() == self.wf(),
            r@ == Seq::new(self@.len(), |i: int| !self@[i]),
    {
        let mut s = self;
        s.0.invert();
        s
    }
}

impl<A: PrimStore> vstd::std_specs::ops::BitOrSpecImpl for BoxedBitSet<A, usize> {
    /// Sets with equal content may differ in their word vectors, so no single value is named.
    open spec fn obeys_bitor_spec() -> bool {
        false
    }

    open spec fn bitor_req(self, rhs: Self) -> bool {
        true
    }

    open spec fn bitor_spec(self, rhs: Self) -> Self {
        self
    }
}

impl<A: PrimStore> vstd::std_specs::ops::BitXorSpecImpl for BoxedBitSet<A, usize> {
    /// Sets with equal content may differ in their word vectors, so no single value is named.
    open spec fn obeys_bitxor_spec() -> bool {
        false
    }

    open spec fn bitxor_req(self, rhs: Self) -> bool {
        true
    }

    open spec fn bitxor_spec(self, rhs: Self) -> Self {
        self
    }
}

impl<A: PrimStore> vstd::std_specs::ops::BitAndSpecImpl for BoxedBitSet<A, usize> {
    /// Sets with equal content may differ in their word vectors, so no single value is named.
    open spec fn obeys_bitand_spec() -> bool {
        false
    }

    open spec fn bitand_req(self, rhs: Self) -> bool {
        true
    }

    open spec fn bitand_spec(self, rhs: Self) -> Self {
        self
    }
}

impl<A: PrimStore> vstd::std_specs::ops::SubSpecImpl for BoxedBitSet<A, usize> {
    /// Sets with equal content may differ in their word vectors, so no single value is named.
    open spec fn obeys_sub_spec() -> bool {
        false
    }

    open spec fn sub_req(self, rhs: Self) -> bool {
        true
    }

    open spec fn sub_spec(self, rhs: Self) -> Self {
        self
    }
}

impl<A: PrimStore> vstd::std_specs::ops::NotSpecImpl for BoxedBitSet<A, usize> {
    /// Sets with equal content may differ in their word vectors, so no single value is named.
    open spec fn obeys_not_spec() -> bool {
        false
    }

    open spec fn not_req(self) -> bool {
        true
    }

    open spec fn not_spec(self) -> Self {
        self
    }
}

impl<A: PrimStore> Clone for BoxedBitSet<A, usize> {
    fn clone(&self) -> (r: Self)
        ensures
            r@ == self@,
            r.wf() == self.wf(),
    {
        self.duplicate()
    }
}

impl<A: PrimStore> PartialEq for BoxedBitSet<A, usize> {
    fn eq(&self, other: &Self) -> (r: bool) {
        self.set_eq(other)
    }
}

impl<A: PrimStore> vstd::std_specs::cmp::PartialEqSpecImpl for BoxedBitSet<A, usize> {
    open spec fn obeys_eq_spec() -> bool {
        true
    }

    open spec fn eq_spec(&self, other: &Self) -> bool {
        forall|i: int| member(self@, i) == member(other@, i)
    }
}

} // verus!

verus! {

/// The largest capacity among `sets` (0 when there is none).
pub open spec fn max_capacity<A: PrimStore>(sets: Seq<BoxedBitSet<A, usize>>) -> nat
    decreases sets.len(),
{
    if sets.len() == 0 {
        0
    } else {
        let m = max_capacity(sets.drop_last());
        if m < sets.last()@.len() {
            sets.last()@.len()
        } else {
            m
        }
    }
}

impl<A: PrimStore> BoxedBitSet<A, usize> {
    /// Adds the elements of every set of `sets` that lie below this set's capacity.
    pub fn extend_sets(&mut self, sets: &[Self])
        ensures
            final(self).wf() == old(self).wf(),
            final(self)@ == Seq::new(old(self)@.len(), |i: int| old(self)@[i] || in_any(sets@, i)),
    {
        let ghost n = old(self)@.len();
        let mut k: usize = 0;
        while k < sets.len()
            invariant
                k <= sets@.len(),
                n == old(self)@.len(),
                self.wf() == old(self).wf(),
                self@ == Seq::new(n, |i: int| old(self)@[i] || in_any(sets@.take(k as int), i)),
            decreases sets@.len() - k,
        {
            let ghost before = self@;
            self.bitor_assign_ref(&sets[k]);
            proof {
                assert forall|i: int| 0 <= i < n implies self@[i] == (old(self)@[i] || in_any(sets@.take(k + 1), i)) by {
                    lemma_in_any_step(sets@, k as int, i);
                    assert(before[i] == (old(self)@[i] || in_any(sets@.take(k as int), i)));
                }
                assert(self@ =~= Seq::new(n, |i: int| old(self)@[i] || in_any(sets@.take(k + 1), i)));
            }
            k = k + 1;
        }
        proof {
            assert(sets@.take(sets@.len() as int) =~= sets@);
        }
    }

    fn bitor_assign_ref(&mut self, rhs: &Self)
        ensures
            final(self).wf() == old(self).wf(),
            final(self)@ == combine(old(self)@, rhs@, old(self)@.len(), WordOp::Union),
    {
        self.0.apply(&rhs.0, WordOp::Union);
    }

    /// The union of all of `sets`, with the largest of their capacities (an empty set of
    /// capacity 0 when there is none).
    pub fn from_sets(sets: &[Self]) -> (r: Self)
        ensures
            (forall|k: int| 0 <= k < sets@.len() ==> #[trigger] sets@[k].wf()) ==> r.wf(),
            r@.len() == max_capacity(sets@),
            r@ == Seq::new(max_capacity(sets@), |i: int| in_any(sets@, i)),
    {
        if sets.len() == 0 {
            let r = Self::from_words(Vec::new());
            proof {
                r.lemma_view();
                assert(r@ =~= Seq::new(0, |i: int| in_any(sets@, i)));
            }
            return r;
        }
        let mut acc = sets[0].clone();
        proof {
            assert(sets@.take(1).drop_last() =~= sets@.take(0));
            assert(max_capacity(sets@.take(0)) == 0);
            assert(sets@.take(1).last() == sets@[0]);
            assert(max_capacity(sets@.take(1)) == acc@.len());
            assert forall|i: int| 0 <= i < acc@.len() implies acc@[i] == in_any(sets@.take(1), i) by {
                lemma_in_any_step(sets@, 0, i);
            }
            assert(acc@ =~= Seq::new(max_capacity(sets@.take(1)), |i: int| in_any(sets@.take(1), i)));
        }
        let mut k: usize = 1;
        while k < sets.len()
            invariant
                1 <= k <= sets@.len(),
                acc@ == Seq::new(max_capacity(sets@.take(k as int)), |i: int| in_any(sets@.take(k as int), i)),
                (forall|j: int| 0 <= j < sets@.len() ==> #[trigger] sets@[j].wf()) ==> acc.wf(),
            decreases sets@.len() - k,
        {
            let ghost before = acc@;
            let next = sets[k].clone();
            acc = acc | next;
            proof {
                let t = sets@.take(k + 1);
                assert(t.drop_last() =~= sets@.take(k as int));
                assert(t.last() == sets@[k as int]);
                assert forall|i: int| 0 <= i < acc@.len() implies acc@[i] == in_any(t, i) by {
                    lemma_in_any_step(sets@, k as int, i);
                    if i < before.len() {
                        assert(before[i] == in_any(sets@.take(k as int), i));
                    } else {
                        if in_any(sets@.take(k as int), i) {
                            let j = choose|j: int| 0 <= j < k && member(#[trigger] sets@.take(k as int)[j]@, i);
                            lemma_max_capacity_bound(sets@.take(k as int), j);
                        }
                    }
                }
                assert(acc@ =~= Seq::new(max_capacity(t), |i: int| in_any(t, i)));
            }
            k = k + 1;
        }
        proof {
            assert(sets@.take(sets@.len() as int) =~= sets@);
        }
        acc
    }
}

proof fn lemma_max_capacity_bound<A: PrimStore>(sets: Seq<BoxedBitSet<A, usize>>, j: int)
    requires
        0 <= j < sets.len(),
    ensures
        sets[j]@.len() <= max_capacity(sets),
    decreases sets.len(),
{
    if j < sets.len() - 1 {
        lemma_max_capacity_bound(sets.drop_last(), j);
    }
}

} // verus!
