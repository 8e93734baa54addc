use vstd::prelude::*;
use core::marker::PhantomData;

use crate::word::{count_true, PrimStore};
use crate::words::{
    capacity_of, combine, fits, has_bit, lemma_has_bit_bound, lemma_op_view_combine, member, ones, op_view, wd,
    words_append, words_capacity, words_clear, words_contains, words_drain, words_eq,
    words_first, words_insert, words_is_disjoint, words_is_empty, words_is_subset, words_iter,
    words_last, words_len, words_op_ones, words_pop_first, words_pop_last, words_remove,
    words_retain, words_set, words_toggle, words_view, significant_run, WordOp,
};

verus! {

/// Proves that two word sequences whose bits are related position by position have views
/// related the same way.
pub proof fn lemma_view_update<T: PrimStore>(
    before: Seq<T>,
    after: Seq<T>,
    s: Seq<bool>,
)
    requires
        after.len() == before.len(),
        s.len() == capacity_of(before),
        forall|i: int| 0 <= i < s.len() ==> #[trigger] has_bit(after, i) == s[i],
    ensures
        words_view(after) == s,
{
    assert(words_view(after) =~= s);
}

/// The bits of a set of positions `0..capacity`, stored as a sequence of words.
///
/// This is the shared base of the multi-word bitsets: a fixed number of words of `T`
/// whose bit `i % W` of word `i / W` says whether position `i` is in the set.
///
/// Positions at or beyond the capacity are accepted and ignored, in every build: `contains`,
/// `insert` and `remove` answer `false` for them, and `set` and `toggle` leave the set as it
/// is. No operation panics on them.
#[derive(Debug)]
pub struct BitSlice<T, V> {
    words: Vec<T>,
    _marker: PhantomData<V>,
}

impl<T: PrimStore, V> View for BitSlice<T, V> {
    type V = Seq<bool>;

    closed spec fn view(&self) -> Seq<bool> {
        words_view(self.words@)
    }
}

impl<T: PrimStore> BitSlice<T, usize> {
    /// The words that hold the bits.
    pub closed spec fn spec_words(&self) -> Seq<T> {
        self.words@
    }

    /// Well-formedness: the capacity can be counted in a `usize`.
    pub closed spec fn wf(&self) -> bool {
        fits(self.words@)
    }

    pub proof fn lemma_view(&self)
        ensures
            self@ == words_view(self.spec_words()),
            self@.len() == capacity_of(self.spec_words()),
            self.wf() == fits(self.spec_words()),
    {
    }

    /// A bitset over the given words.
    pub fn from_words(words: Vec<T>) -> (r: Self)
        requires
            fits(words@),
        ensures
            r.wf(),
            r.spec_words() == words@,
            r@ == words_view(words@),
    {
        BitSlice { words, _marker: PhantomData }
    }

    /// Takes the words out again.
    pub fn into_words(self) -> (r: Vec<T>)
        ensures
            r@ == self.spec_words(),
    {
        self.words
    }

    /// Raw word slice accessor.
    pub fn raw_words(&self) -> (r: &[T])
        ensures
            r@ == self.spec_words(),
    {
        self.words.as_slice()
    }

    /// Mutable raw word slice accessor; what is written through it is the new content.
    pub fn raw_words_mut(&mut self) -> (r: &mut [T])
        ensures
            r@ == old(self).spec_words(),
            final(self).spec_words() == final(r)@,
    {
        self.words.as_mut_slice()
    }

    /// The words up to the last one that holds an element. Sets with the same elements give
    /// the same run whatever their capacities, so it is what their hashes are computed from.
    pub fn significant_words(&self) -> (r: &[T])
        ensures
            significant_run(self.spec_words(), r@),
    {
        let ws = self.words.as_slice();
        let mut n = ws.len();
        while n > 0
            invariant
                n <= ws@.len(),
                ws@ == self.spec_words(),
                forall|j: int, b: int| n <= j < ws@.len() ==> !#[trigger] ws@[j].bit(b),
            ensures
                n <= ws@.len(),
                forall|j: int, b: int| n <= j < ws@.len() ==> !#[trigger] ws@[j].bit(b),
                n > 0 ==> exists|b: int| #[trigger] ws@[n - 1].bit(b),
            decreases n,
        {
            if !ws[n - 1].is_zero() {
                break;
            }
            n = n - 1;
        }
        let (r, _) = ws.split_at(n);
        proof {
            assert(r@ =~= ws@.take(n as int));
            if n > 0 {
                assert(r@.last() == ws@[n - 1]);
            }
        }
        r
    }

    /// Number of positions the set can hold.
    pub fn capacity(&self) -> (r: usize)
        requires
            self.wf(),
        ensures
            r == self@.len(),
    {
        words_capacity(self.words.as_slice())
    }

    /// Number of elements.
    pub fn len(&self) -> (r: usize)
        requires
            self.wf(),
        ensures
            r == count_true(self@),
    {
        words_len(self.words.as_slice())
    }

    /// Whether the set has no element.
    pub fn is_empty(&self) -> (r: bool)
        ensures
            r == (forall|i: int| 0 <= i < self@.len() ==> !self@[i]),
    {
        let r = words_is_empty(self.words.as_slice());
        proof {
            if r {
                assert forall|i: int| 0 <= i < self@.len() implies !self@[i] by {
                    lemma_has_bit_bound(self.words@, i);
                }
            } else {
                let i = choose|i: int| has_bit(self.words@, i);
                lemma_has_bit_bound(self.words@, i);
                assert(self@[i]);
            }
        }
        r
    }

    /// Smallest element, if any.
    pub fn first(&self) -> (r: Option<usize>)
        requires
            self.wf(),
        ensures
            match r {
                None => forall|i: int| 0 <= i < self@.len() ==> !self@[i],
                Some(p) => p < self@.len() && self@[p as int] && forall|i: int|
                    0 <= i < p ==> !self@[i],
            },
    {
        let r = words_first(self.words.as_slice());
        proof {
            assert forall|i: int| 0 <= i < self@.len() implies self@[i] == has_bit(self.words@, i) by {
                lemma_has_bit_bound(self.words@, i);
            }
            if let Some(p) = r {
                lemma_has_bit_bound(self.words@, p as int);
            }
        }
        r
    }

    /// Largest element, if any.
    pub fn last(&self) -> (r: Option<usize>)
        requires
            self.wf(),
        ensures
            match r {
                None => forall|i: int| 0 <= i < self@.len() ==> !self@[i],
                Some(p) => p < self@.len() && self@[p as int] && forall|i: int|
                    p < i < self@.len() ==> !self@[i],
            },
    {
        let r = words_last(self.words.as_slice());
        proof {
            assert forall|i: int| 0 <= i < self@.len() implies self@[i] == has_bit(self.words@, i) by {
                lemma_has_bit_bound(self.words@, i);
            }
            if let Some(p) = r {
                lemma_has_bit_bound(self.words@, p as int);
            }
        }
        r
    }

    /// Whether `id` is an element; `false` beyond the capacity.
    pub fn contains(&self, id: &usize) -> (r: bool)
        ensures
            r == member(self@, *id as int),
    {
        let r = words_contains(self.words.as_slice(), *id);
        proof {
            lemma_has_bit_bound(self.words@, *id as int);
        }
        r
    }

    /// Sets whether `id` is an element; positions beyond the capacity are ignored.
    pub fn set(&mut self, id: usize, value: bool)
        ensures
            final(self).wf() == old(self).wf(),
            final(self)@ == if (id as int) < old(self)@.len() {
                old(self)@.update(id as int, value)
            } else {
                old(self)@
            },
    {
        words_set(self.words.as_mut_slice(), id, value);
        proof {
            lemma_view_update(old(self).words@, self.words@, if (id as int) < old(self)@.len() {
                old(self)@.update(id as int, value)
            } else {
                old(self)@
            });
        }
    }

    /// Adds `id`; returns whether it was absent. Positions beyond the capacity are ignored
    /// and give `false`.
    pub fn insert(&mut self, id: usize) -> (r: bool)
        ensures
            final(self).wf() == old(self).wf(),
            r == ((id as int) < old(self)@.len() && !old(self)@[id as int]),
            final(self)@ == if (id as int) < old(self)@.len() {
                old(self)@.update(id as int, true)
            } else {
                old(self)@
            },
    {
        let r = words_insert(self.words.as_mut_slice(), id);
        proof {
            lemma_has_bit_bound(old(self).words@, id as int);
            lemma_view_update(old(self).words@, self.words@, if (id as int) < old(self)@.len() {
                old(self)@.update(id as int, true)
            } else {
                old(self)@
            });
        }
        r
    }

    /// Removes `id`; returns whether it was present.
    pub fn remove(&mut self, id: usize) -> (r: bool)
        ensures
            final(self).wf() == old(self).wf(),
            r == member(old(self)@, id as int),
            final(self)@ == if (id as int) < old(self)@.len() {
                old(self)@.update(id as int, false)
            } else {
                old(self)@
            },
    {
        let r = words_remove(self.words.as_mut_slice(), id);
        proof {
            lemma_has_bit_bound(old(self).words@, id as int);
            lemma_view_update(old(self).words@, self.words@, if (id as int) < old(self)@.len() {
                old(self)@.update(id as int, false)
            } else {
                old(self)@
            });
        }
        r
    }

    /// Flips whether `id` is an element; positions beyond the capacity are ignored.
    pub fn toggle(&mut self, id: usize)
        ensures
            final(self).wf() == old(self).wf(),
            final(self)@ == if (id as int) < old(self)@.len() {
                old(self)@.update(id as int, !old(self)@[id as int])
            } else {
                old(self)@
            },
    {
        words_toggle(self.words.as_mut_slice(), id);
        proof {
            lemma_has_bit_bound(old(self).words@, id as int);
            lemma_view_update(old(self).words@, self.words@, if (id as int) < old(self)@.len() {
                old(self)@.update(id as int, !old(self)@[id as int])
            } else {
                old(self)@
            });
        }
    }

    /// Removes every element.
    pub fn clear(&mut self)
        ensures
            final(self).wf() == old(self).wf(),
            final(self)@ == Seq::new(old(self)@.len(), |i: int| false),
    {
        words_clear(self.words.as_mut_slice());
        proof {
            lemma_view_update(old(self).words@, self.words@, Seq::new(old(self)@.len(), |i: int| false));
        }
    }

    /// Removes and returns the smallest element, if any.
    pub fn pop_first(&mut self) -> (r: Option<usize>)
        requires
            old(self).wf(),
        ensures
            final(self).wf(),
            match r {
                None => final(self)@ == old(self)@ && forall|i: int|
                    0 <= i < old(self)@.len() ==> !old(self)@[i],
                Some(p) => p < old(self)@.len() && old(self)@[p as int] && (forall|i: int|
                    0 <= i < p ==> !old(self)@[i]) && final(self)@ == old(self)@.update(p as int, false),
            },
    {
        let r = words_pop_first(self.words.as_mut_slice());
        proof {
            assert forall|i: int| 0 <= i < old(self)@.len() implies #[trigger] old(self)@[i] == has_bit(old(self).words@, i) by {
                lemma_has_bit_bound(old(self).words@, i);
            }
            if let Some(p) = r {
                lemma_has_bit_bound(old(self).words@, p as int);
                lemma_view_update(old(self).words@, self.words@, old(self)@.update(p as int, false));
            }
        }
        r
    }

    /// Removes and returns the largest element, if any.
    pub fn pop_last(&mut self) -> (r: Option<usize>)
        requires
            old(self).wf(),
        ensures
            final(self).wf(),
            match r {
                None => final(self)@ == old(self)@ && forall|i: int|
                    0 <= i < old(self)@.len() ==> !old(self)@[i],
                Some(p) => p < old(self)@.len() && old(self)@[p as int] && (forall|i: int|
                    p < i < old(self)@.len() ==> !old(self)@[i]) && final(self)@ == old(
                    self,
                )@.update(p as int, false),
            },
    {
        let r = words_pop_last(self.words.as_mut_slice());
        proof {
            assert forall|i: int| 0 <= i < old(self)@.len() implies #[trigger] old(self)@[i] == has_bit(old(self).words@, i) by {
                lemma_has_bit_bound(old(self).words@, i);
            }
            if let Some(p) = r {
                lemma_has_bit_bound(old(self).words@, p as int);
                lemma_view_update(old(self).words@, self.words@, old(self)@.update(p as int, false));
            }
        }
        r
    }

    /// All elements in increasing order.
    pub fn iter(&self) -> (r: Vec<usize>)
        requires
            self.wf(),
        ensures
            r@ == ones(self@),
    {
        words_iter(self.words.as_slice())
    }

    /// Returns all elements in increasing order and leaves the set empty.
    pub fn drain(&mut self) -> (r: Vec<usize>)
        requires
            old(self).wf(),
        ensures
            final(self).wf(),
            r@ == ones(old(self)@),
            final(self)@ == Seq::new(old(self)@.len(), |i: int| false),
    {
        let r = words_drain(self.words.as_mut_slice());
        proof {
            lemma_view_update(old(self).words@, self.words@, Seq::new(old(self)@.len(), |i: int| false));
        }
        r
    }

    /// Keeps exactly the elements `p` for which `f(p)` answers `true`.
    pub fn retain<F: Fn(usize) -> bool>(&mut self, f: F)
        requires
            old(self).wf(),
            forall|p: usize| call_requires(f, (p,)),
        ensures
            final(self).wf(),
            final(self)@.len() == old(self)@.len(),
            forall|i: int|
                #![trigger member(final(self)@, i)]
                member(final(self)@, i) ==> member(old(self)@, i) && call_ensures(f, (i as usize,), true),
            forall|i: int|
                #![trigger member(old(self)@, i)]
                member(old(self)@, i) && !member(final(self)@, i) ==> call_ensures(f, (i as usize,), false),
    {
        words_retain(self.words.as_mut_slice(), f);
        proof {
            assert forall|i: int| #![trigger member(self@, i)] member(self@, i) == has_bit(self.words@, i) && member(old(self)@, i) == has_bit(old(self).words@, i) by {
                lemma_has_bit_bound(self.words@, i);
                lemma_has_bit_bound(old(self).words@, i);
            }
        }
    }

    /// Moves the elements of `other` below this set's capacity into this set; `other` keeps
    /// only its elements at or beyond that capacity.
    pub fn append(&mut self, other: &mut Self)
        ensures
            final(self).wf() == old(self).wf(),
            final(other).wf() == old(other).wf(),
            final(self)@ == Seq::new(old(self)@.len(), |i: int| old(self)@[i] || member(old(other)@, i)),
            final(other)@ == Seq::new(old(other)@.len(), |i: int| old(other)@[i] && i >= old(self)@.len()),
    {
        words_append(self.words.as_mut_slice(), other.words.as_mut_slice());
        proof {
            assert forall|i: int| #![trigger member(old(other)@, i)] member(old(other)@, i) == has_bit(old(other).words@, i) by {
                lemma_has_bit_bound(old(other).words@, i);
            }
            lemma_view_update(old(self).words@, self.words@, Seq::new(old(self)@.len(), |i: int| old(self)@[i] || member(old(other)@, i)));
            lemma_view_update(old(other).words@, other.words@, Seq::new(old(other)@.len(), |i: int| old(other)@[i] && i >= old(self)@.len()));
        }
    }

    /// Whether every element of this set is in `other`.
    pub fn is_subset(&self, other: &Self) -> (r: bool)
        ensures
            r == (forall|i: int| member(self@, i) ==> member(other@, i)),
    {
        let r = words_is_subset(self.words.as_slice(), other.words.as_slice());
        proof {
            assert forall|i: int| #![trigger member(self@, i)] #![trigger member(other@, i)] #![trigger has_bit(self.words@, i)] #![trigger has_bit(other.words@, i)] member(self@, i) == has_bit(self.words@, i) && member(other@, i) == has_bit(other.words@, i) by {
                lemma_has_bit_bound(self.words@, i);
                lemma_has_bit_bound(other.words@, i);
            }
        }
        r
    }

    /// Whether every element of `other` is in this set.
    pub fn is_superset(&self, other: &Self) -> (r: bool)
        ensures
            r == (forall|i: int| member(other@, i) ==> member(self@, i)),
    {
        other.is_subset(self)
    }

    /// Whether the two sets have no element in common.
    pub fn is_disjoint(&self, other: &Self) -> (r: bool)
        ensures
            r == (forall|i: int| !(member(self@, i) && member(other@, i))),
    {
        let r = words_is_disjoint(self.words.as_slice(), other.words.as_slice());
        proof {
            assert forall|i: int| #![trigger member(self@, i)] #![trigger member(other@, i)] #![trigger has_bit(self.words@, i)] #![trigger has_bit(other.words@, i)] member(self@, i) == has_bit(self.words@, i) && member(other@, i) == has_bit(other.words@, i) by {
                lemma_has_bit_bound(self.words@, i);
                lemma_has_bit_bound(other.words@, i);
            }
        }
        r
    }

    /// Whether both sets hold the same elements, whatever their capacities.
    pub fn set_eq(&self, other: &Self) -> (r: bool)
        ensures
            r == (forall|i: int| member(self@, i) == member(other@, i)),
    {
        let r = words_eq(self.words.as_slice(), other.words.as_slice());
        proof {
            assert forall|i: int| #![trigger member(self@, i)] #![trigger member(other@, i)] #![trigger has_bit(self.words@, i)] #![trigger has_bit(other.words@, i)] member(self@, i) == has_bit(self.words@, i) && member(other@, i) == has_bit(other.words@, i) by {
                lemma_has_bit_bound(self.words@, i);
                lemma_has_bit_bound(other.words@, i);
            }
        }
        r
    }

    /// Replaces this set, position by position over its capacity, by `op` of it and `other`.
    pub fn apply(&mut self, other: &Self, op: WordOp)
        ensures
            final(self).wf() == old(self).wf(),
            final(self)@ == combine(old(self)@, other@, old(self)@.len(), op),
    {
        crate::words::words_apply(self.words.as_mut_slice(), other.words.as_slice(), op);
        proof {
            assert forall|i: int| #![trigger member(other@, i)] #![trigger has_bit(other.words@, i)] member(other@, i) == has_bit(other.words@, i) by {
                lemma_has_bit_bound(other.words@, i);
            }
            lemma_view_update(old(self).words@, self.words@, combine(old(self)@, other@, old(self)@.len(), op));
        }
    }

    /// Flips every position below the capacity.
    pub fn invert(&mut self)
        ensures
            final(self).wf() == old(self).wf(),
            final(self)@ == Seq::new(old(self)@.len(), |i: int| !old(self)@[i]),
    {
        crate::words::words_not(self.words.as_mut_slice());
        proof {
            lemma_view_update(old(self).words@, self.words@, Seq::new(old(self)@.len(), |i: int| !old(self)@[i]));
        }
    }

    /// A copy of the set.
    pub fn duplicate(&self) -> (r: Self)
        ensures
            r.wf() == self.wf(),
            r.spec_words() == self.spec_words(),
            r@ == self@,
    {
        let n = self.words.len();
        let mut v: Vec<T> = Vec::new();
        let mut k: usize = 0;
        while k < n
            invariant
                n == self.words@.len(),
                k <= n,
                v@ == self.words@.take(k as int),
            decreases n - k,
        {
            v.push(self.words[k]);
            k = k + 1;
            proof {
                assert(v@ =~= self.words@.take(k as int));
            }
        }
        proof {
            assert(v@ =~= self.words@);
        }
        BitSlice { words: v, _marker: PhantomData }
    }

    fn op_ones(&self, other: &Self, len: usize, op: WordOp) -> (r: Vec<usize>)
        requires
            self.wf(),
            other.wf(),
            len == self.words@.len() || len == other.words@.len(),
        ensures
            r@ == ones(combine(self@, other@, (len * wd::<T>()) as nat, op)),
    {
        proof {
            T::lemma_width();
            lemma_op_view_combine(self.words@, other.words@, len as int, op);
        }
        words_op_ones(self.words.as_slice(), other.words.as_slice(), len, op)
    }

    /// Elements of this set that are not in `other`, in increasing order.
    pub fn difference(&self, other: &Self) -> (r: Vec<usize>)
        requires
            self.wf(),
            other.wf(),
        ensures
            r@ == ones(combine(self@, other@, self@.len(), WordOp::Difference)),
    {
        self.op_ones(other, self.words.len(), WordOp::Difference)
    }

    /// Elements in both sets, in increasing order.
    pub fn intersection(&self, other: &Self) -> (r: Vec<usize>)
        requires
            self.wf(),
            other.wf(),
        ensures
            r@ == ones(
                combine(
                    self@,
                    other@,
                    if self@.len() < other@.len() {
                        self@.len()
                    } else {
                        other@.len()
                    },
                    WordOp::Intersection,
                ),
            ),
    {
        let n = if self.words.len() < other.words.len() {
            self.words.len()
        } else {
            other.words.len()
        };
        proof {
            T::lemma_width();
            assert(self.words@.len() < other.words@.len() <==> self@.len() < other@.len()) by (nonlinear_arith)
                requires wd::<T>() > 0, self@.len() == self.words@.len() * wd::<T>(), other@.len() == other.words@.len() * wd::<T>();
        }
        self.op_ones(other, n, WordOp::Intersection)
    }

    /// Elements in either set, in increasing order.
    pub fn union(&self, other: &Self) -> (r: Vec<usize>)
        requires
            self.wf(),
            other.wf(),
        ensures
            r@ == ones(
                combine(
                    self@,
                    other@,
                    if self@.len() < other@.len() {
                        other@.len()
                    } else {
                        self@.len()
                    },
                    WordOp::Union,
                ),
            ),
    {
        let n = if self.words.len() < other.words.len() {
            other.words.len()
        } else {
            self.words.len()
        };
        proof {
            T::lemma_width();
            assert(self.words@.len() < other.words@.len() <==> self@.len() < other@.len()) by (nonlinear_arith)
                requires wd::<T>() > 0, self@.len() == self.words@.len() * wd::<T>(), other@.len() == other.words@.len() * wd::<T>();
        }
        self.op_ones(other, n, WordOp::Union)
    }

    /// Elements in exactly one of the sets, in increasing order.
    pub fn symmetric_difference(&self, other: &Self) -> (r: Vec<usize>)
        requires
            self.wf(),
            other.wf(),
        ensures
            r@ == ones(
                combine(
                    self@,
                    other@,
                    if self@.len() < other@.len() {
                        other@.len()
                    } else {
                        self@.len()
                    },
                    WordOp::SymmetricDifference,
                ),
            ),
    {
        let n = if self.words.len() < other.words.len() {
            other.words.len()
        } else {
            self.words.len()
        };
        proof {
            T::lemma_width();
            assert(self.words@.len() < other.words@.len() <==> self@.len() < other@.len()) by (nonlinear_arith)
                requires wd::<T>() > 0, self@.len() == self.words@.len() * wd::<T>(), other@.len() == other.words@.len() * wd::<T>();
        }
        self.op_ones(other, n, WordOp::SymmetricDifference)
    }
}

impl<T: PrimStore> PartialEq for BitSlice<T, usize> {
    fn eq(&self, other: &Self) -> (r: bool) {
        self.set_eq(other)
    }
}

impl<T: PrimStore> vstd::std_specs::cmp::PartialEqSpecImpl for BitSlice<T, usize> {
    open spec fn obeys_eq_spec() -> bool {
        true
    }

    open spec fn eq_spec(&self, other: &Self) -> bool {
        forall|i: int| member(self@, i) == member(other@, i)
    }
}

} // verus!
