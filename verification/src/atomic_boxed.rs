use vstd::prelude::*;

use crate::atomic::{ascending_below, AtomicPrimStore, PopAttempt};
use crate::atomic_slice::{
    atomic_capacity, count_of_some_read, disjoint_of_some_reads, empty_of_some_read,
    first_of_some_read, iter_of_some_read, last_of_some_read, subset_of_some_reads, AtomicBitSlice,
};
use crate::boxed::BoxedBitSet;
use crate::word::PrimStore;
use crate::words::{fits, lemma_pos_bound, wd};

verus! {

/// A heap-allocated atomic bitset whose number of words is fixed when it is made.
///
/// Positions at or beyond the capacity are accepted and ignored, in every build: `contains`,
/// `insert` and `remove` answer `false` for them, and `set` and `toggle` leave the set as it
/// is. No operation panics on them.
#[derive(Debug)]
pub struct AtomicBoxedBitSet<A, V>(AtomicBitSlice<A, V>);

impl<A: AtomicPrimStore> AtomicBoxedBitSet<A, usize> {
    /// Number of positions the set can hold.
    pub open spec fn spec_capacity(&self) -> int {
        self.as_spec_slice().spec_capacity()
    }

    /// The shared base.
    pub closed spec fn as_spec_slice(&self) -> AtomicBitSlice<A, usize> {
        self.0
    }

    /// Well-formedness: the capacity can be counted in a `usize`.
    pub open spec fn wf(&self) -> bool {
        self.spec_capacity() <= usize::MAX
    }

    /// The set over the given atomic words.
    pub fn from_boxed_slice(store: Box<[A]>) -> (r: Self)
        ensures
            r.spec_capacity() == atomic_capacity::<A>(store@.len() as int),
    {
        AtomicBoxedBitSet(AtomicBitSlice::from_words(store.into_vec()))
    }

    /// An empty set with room for at least `bits` positions: `bits` rounded up to whole words.
    pub fn with_capacity(bits: usize) -> (r: Self)
        requires
            bits + wd::<A::Item>() <= usize::MAX + 1,
        ensures
            r.wf(),
            r.spec_capacity() == (bits + wd::<A::Item>() - 1) / wd::<A::Item>() * wd::<A::Item>(),
            bits <= r.spec_capacity() < bits + wd::<A::Item>(),
    {
        proof {
            A::Item::lemma_width();
        }
        let w = A::Item::bit_width() as usize;
        let n = bits / w + if bits % w == 0 {
            0
        } else {
            1
        };
        let mut v: Vec<A> = Vec::new();
        let mut k: usize = 0;
        while k < n
            invariant
                k <= n,
                v@.len() == k,
            decreases n - k,
        {
            v.push(A::with_value(A::Item::zero()));
            k = k + 1;
        }
        proof {
            let ww = wd::<A::Item>();
            let b = bits as int;
            vstd::arithmetic::div_mod::lemma_fundamental_div_mod(b, ww);
            vstd::arithmetic::div_mod::lemma_fundamental_div_mod(b + ww - 1, ww);
            assert(ww * (b / ww) == (b / ww) * ww) by (nonlinear_arith);
            assert(ww * ((b + ww - 1) / ww) == ((b + ww - 1) / ww) * ww) by (nonlinear_arith);
            assert(n * ww == (b + ww - 1) / ww * ww && b <= n * ww < b + ww) by (nonlinear_arith)
                requires
                    ww >= 8,
                    b >= 0,
                    n == b / ww + if b % ww == 0 { 0int } else { 1int },
                    b == (b / ww) * ww + b % ww,
                    0 <= b % ww < ww,
                    (b + ww - 1) == ((b + ww - 1) / ww) * ww + (b + ww - 1) % ww,
                    0 <= (b + ww - 1) % ww < ww,
            ;
        }
        AtomicBoxedBitSet(AtomicBitSlice::from_words(v))
    }

    /// The shared atomic bitset view of the words.
    pub fn as_bit_slice(&self) -> (r: &AtomicBitSlice<A, usize>)
        ensures
            *r == self.as_spec_slice(),
    {
        &self.0
    }

    /// Empties the set word by word (each word swapped for zero) and returns what it held.
    pub fn drain(&self) -> (r: BoxedBitSet<A::Item, usize>)
        requires
            self.wf(),
        ensures
            r.wf(),
            r@.len() == self.spec_capacity(),
    {
        let ws = self.0.as_raw_slice();
        proof {
            assert(ws@.len() == self.as_spec_slice().spec_len());
        }
        let n = ws.len();
        let mut v: Vec<A::Item> = Vec::new();
        let mut k: usize = 0;
        while k < n
            invariant
                n == ws@.len(),
                k <= n,
                v@.len() == k,
            decreases n - k,
        {
            v.push(ws[k].swap_acq_rel(A::Item::zero()));
            k = k + 1;
        }
        proof {
            assert(self.as_spec_slice().spec_len() == n);
        }
        let r = BoxedBitSet::from_words(v);
        proof {
            r.lemma_view();
        }
        r
    }

    /// Number of positions the set can hold.
    pub fn capacity(&self) -> (r: usize)
        requires
            self.wf(),
        ensures
            r == self.spec_capacity(),
    {
        self.0.capacity()
    }

    /// Number of elements, counted word by word.
    pub fn len(&self) -> (r: usize)
        requires
            self.wf(),
        ensures
            count_of_some_read::<A::Item>(self.as_spec_slice().spec_len() as int, r as int),
            r <= self.spec_capacity(),
    {
        self.0.len()
    }

    /// Whether every word read is empty (always so for a set that can hold nothing).
    pub fn is_empty(&self) -> (r: bool)
        ensures
            empty_of_some_read::<A::Item>(self.as_spec_slice().spec_len() as int, r),
            self.spec_capacity() == 0 ==> r,
    {
        self.0.is_empty()
    }

    /// Smallest element read, if any.
    pub fn first(&self) -> (r: Option<usize>)
        requires
            self.wf(),
        ensures
            first_of_some_read::<A::Item>(self.as_spec_slice().spec_len() as int, r),
            r matches Some(p) ==> p < self.spec_capacity(),
    {
        self.0.first()
    }

    /// Largest element read, if any.
    pub fn last(&self) -> (r: Option<usize>)
        requires
            self.wf(),
        ensures
            last_of_some_read::<A::Item>(self.as_spec_slice().spec_len() as int, r),
            r matches Some(p) ==> p < self.spec_capacity(),
    {
        self.0.last()
    }

    /// One attempt to remove the smallest element.
    pub fn try_pop_first(&self) -> (r: PopAttempt)
        requires
            self.wf(),
        ensures
            r matches PopAttempt::Taken(p) ==> p < self.spec_capacity(),
    {
        self.0.try_pop_first()
    }

    /// One attempt to remove the largest element.
    pub fn try_pop_last(&self) -> (r: PopAttempt)
        requires
            self.wf(),
        ensures
            r matches PopAttempt::Taken(p) ==> p < self.spec_capacity(),
    {
        self.0.try_pop_last()
    }

    /// One attempt to remove the smallest element at or after word `start`, and the word the
    /// attempt stopped at (where a `Lost` attempt is to be retried).
    pub fn try_pop_first_from(&self, start: usize) -> (r: (PopAttempt, usize))
        requires
            self.wf(),
            start <= self.as_spec_slice().spec_len(),
        ensures
            r.0 matches PopAttempt::Taken(p) ==> p < self.spec_capacity(),
            r.0 == PopAttempt::Lost ==> start <= r.1 < self.as_spec_slice().spec_len(),
    {
        self.0.try_pop_first_from(start)
    }

    /// One attempt to remove the largest element below word `end`, and the bound to retry a
    /// `Lost` attempt with.
    pub fn try_pop_last_before(&self, end: usize) -> (r: (PopAttempt, usize))
        requires
            self.wf(),
            end <= self.as_spec_slice().spec_len(),
        ensures
            r.0 matches PopAttempt::Taken(p) ==> p < self.spec_capacity(),
            r.0 == PopAttempt::Lost ==> 0 < r.1 <= end,
    {
        self.0.try_pop_last_before(end)
    }

    /// Whether `id` is an element when read; `false` beyond the capacity.
    pub fn contains(&self, id: &usize) -> (r: bool)
        ensures
            r ==> *id < self.spec_capacity(),
    {
        self.0.contains(id)
    }

    /// Adds `id`; returns whether it was absent. `false` beyond the capacity.
    pub fn insert(&self, id: usize) -> (r: bool)
        ensures
            r ==> id < self.spec_capacity(),
    {
        self.0.insert(id)
    }

    /// Removes `id`; returns whether it was present. `false` beyond the capacity.
    pub fn remove(&self, id: usize) -> (r: bool)
        ensures
            r ==> id < self.spec_capacity(),
    {
        self.0.remove(id)
    }

    /// Sets whether `id` is an element; positions beyond the capacity are ignored.
    pub fn set(&self, id: usize, value: bool) {
        self.0.set(id, value)
    }

    /// Flips whether `id` is an element; positions beyond the capacity are ignored.
    pub fn toggle(&self, id: usize) {
        self.0.toggle(id)
    }

    /// Empties every word.
    pub fn clear(&self) {
        self.0.clear()
    }

    /// Keeps the elements read `p` for which `f(p)` answers `true`.
    pub fn retain<F: Fn(usize) -> bool>(&self, f: F)
        requires
            self.wf(),
            forall|p: usize| call_requires(f, (p,)),
    {
        self.0.retain(f)
    }

    /// Elements read, in increasing order.
    pub fn iter(&self) -> (r: Vec<usize>)
        requires
            self.wf(),
        ensures
            iter_of_some_read::<A::Item>(self.as_spec_slice().spec_len() as int, r@),
            ascending_below(r@, self.spec_capacity()),
    {
        self.0.iter()
    }

    /// Whether every element read is in `other` as read (always so when this set can hold
    /// nothing).
    pub fn is_subset(&self, other: &Self) -> (r: bool)
        ensures
            subset_of_some_reads::<A::Item>(self.as_spec_slice().spec_len() as int, other.as_spec_slice().spec_len() as int, r),
            self.spec_capacity() == 0 ==> r,
    {
        self.0.is_subset(&other.0)
    }

    /// Whether every element of `other` read is in this set as read (always so when `other`
    /// can hold nothing).
    pub fn is_superset(&self, other: &Self) -> (r: bool)
        ensures
            subset_of_some_reads::<A::Item>(other.as_spec_slice().spec_len() as int, self.as_spec_slice().spec_len() as int, r),
            other.spec_capacity() == 0 ==> r,
    {
        self.0.is_superset(&other.0)
    }

    /// Whether no element read is in both sets (always so when either can hold nothing).
    pub fn is_disjoint(&self, other: &Self) -> (r: bool)
        ensures
            disjoint_of_some_reads::<A::Item>(self.as_spec_slice().spec_len() as int, other.as_spec_slice().spec_len() as int, r),
            self.spec_capacity() == 0 || other.spec_capacity() == 0 ==> r,
    {
        self.0.is_disjoint(&other.0)
    }
}

} // verus!
