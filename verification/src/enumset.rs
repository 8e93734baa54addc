use vstd::prelude::*;

use crate::atomic::{AtomicBitSet, AtomicPrimStore, PopAttempt};
use crate::bitset::{in_any, lemma_in_any_step, BitSet};
use crate::word::{count_true, word_seq, PrimStore};
use crate::words::{lemma_ones_members, member, ones, WordOp};

verus! {

/// A named flag entry pairing a variant name with its value.
#[derive(Debug)]
pub struct Flag<B> {
    name: &'static str,
    value: B,
}

impl<B> Flag<B> {
    /// The name.
    pub closed spec fn spec_name(&self) -> &'static str {
        self.name
    }

    /// The value.
    pub closed spec fn spec_value(&self) -> B {
        self.value
    }

    pub fn new(name: &'static str, value: B) -> (r: Self)
        ensures
            r.spec_name() == name,
            r.spec_value() == value,
    {
        Flag { name, value }
    }

    pub fn name(&self) -> (r: &'static str)
        ensures
            r == self.spec_name(),
    {
        self.name
    }

    pub fn value(&self) -> (r: &B)
        ensures
            *r == self.spec_value(),
    {
        &self.value
    }
}

/// A set of flag positions held in one word `A`: the storage of a named flag set.
///
/// Positions are `u8`; positions at or beyond the width of `A` are ignored.
#[derive(Debug)]
pub struct FlagSet<A>(BitSet<A, usize>);

impl<A: PrimStore> Clone for FlagSet<A> {
    fn clone(&self) -> (r: Self)
        ensures
            r@ == self@,
            r.spec_bits() == self.spec_bits(),
    {
        proof {
            self.0.lemma_view();
        }
        FlagSet(BitSet::<A, usize>::from_bits(self.0.bits()))
    }
}

impl<A: PrimStore> Copy for FlagSet<A> {

}

impl<A: PrimStore> View for FlagSet<A> {
    type V = Seq<bool>;

    closed spec fn view(&self) -> Seq<bool> {
        self.0@
    }
}

impl<A: PrimStore> FlagSet<A> {
    /// The raw bits.
    pub closed spec fn spec_bits(&self) -> A {
        self.0.spec_bits()
    }

    proof fn lemma_unfold(&self)
        ensures
            self@ == self.0@,
    {
    }

    pub proof fn lemma_view(&self)
        ensures
            self@ == word_seq(self.spec_bits()),
            self@.len() == A::width(),
            forall|i: int| member(self@, i) == self.spec_bits().bit(i),
    {
        self.0.lemma_view();
    }

    /// The empty set.
    pub fn new() -> (r: Self)
        ensures
            r@ == Seq::new(A::width(), |i: int| false),
    {
        FlagSet(BitSet::<A, usize>::new())
    }

    /// The empty set.
    pub fn empty() -> (r: Self)
        ensures
            r@ == Seq::new(A::width(), |i: int| false),
    {
        Self::new()
    }

    /// The set whose bits are `raw`, declared or not.
    pub fn from_bits_retain(raw: A) -> (r: Self)
        ensures
            r.spec_bits() == raw,
            r@ == word_seq(raw),
    {
        FlagSet(BitSet::<A, usize>::from_bits(raw))
    }

    /// The raw bits.
    pub fn bits(&self) -> (r: A)
        ensures
            r == self.spec_bits(),
    {
        self.0.bits()
    }

    /// The set holding only `pos`; empty when `pos` is beyond the width.
    pub fn from_element(pos: u8) -> (r: Self)
        ensures
            r@ == if (pos as int) < A::width() {
                Seq::new(A::width(), |i: int| false).update(pos as int, true)
            } else {
                Seq::new(A::width(), |i: int| false)
            },
    {
        FlagSet(BitSet::<A, usize>::from_element(pos as usize))
    }

    /// The set holding the listed positions; positions beyond the width are ignored.
    pub fn from_slice(positions: &[u8]) -> (r: Self)
        ensures
            r@ == Seq::new(A::width(), |i: int| positions@.contains(i as u8)),
    {
        let mut s = BitSet::<A, usize>::new();
        let mut k: usize = 0;
        proof {
            A::lemma_width();
        }
        while k < positions.len()
            invariant
                k <= positions@.len(),
                8 <= A::width() <= 64,
                s@ == Seq::new(A::width(), |i: int| positions@.take(k as int).contains(i as u8)),
            decreases positions@.len() - k,
        {
            let ghost before = s@;
            s.set(positions[k] as usize, true);
            proof {
                assert forall|i: int| 0 <= i < A::width() implies s@[i] == positions@.take(k + 1).contains(i as u8) by {
                    let t = positions@.take(k + 1);
                    let t0 = positions@.take(k as int);
                    assert(t == t0.push(positions@[k as int]));
                    if t.contains(i as u8) {
                        let j = choose|j: int| 0 <= j < t.len() && t[j] == i as u8;
                        if j < k {
                            assert(t0[j] == i as u8);
                        }
                    }
                    if t0.contains(i as u8) {
                        let j = choose|j: int| 0 <= j < t0.len() && t0[j] == i as u8;
                        assert(t[j] == i as u8);
                    }
                    if i == positions@[k as int] {
                        assert(t[k as int] == i as u8);
                    }
                }
                assert(s@ =~= Seq::new(A::width(), |i: int| positions@.take(k + 1).contains(i as u8)));
            }
            k = k + 1;
        }
        proof {
            assert(positions@.take(positions@.len() as int) =~= positions@);
        }
        FlagSet(s)
    }

    /// Whether `pos` is an element; `false` beyond the width.
    pub fn contains(&self, pos: &u8) -> (r: bool)
        ensures
            r == member(self@, *pos as int),
    {
        proof {
            self.lemma_unfold();
        }
        self.0.contains(&(*pos as usize))
    }

    /// Number of elements.
    pub fn len(&self) -> (r: usize)
        ensures
            r == count_true(self@),
    {
        proof {
            self.lemma_unfold();
        }
        self.0.len()
    }

    /// Whether the set has no element.
    pub fn is_empty(&self) -> (r: bool)
        ensures
            r == (forall|i: int| 0 <= i < self@.len() ==> !self@[i]),
    {
        proof {
            self.lemma_unfold();
        }
        self.0.is_empty()
    }

    /// Sets whether `pos` is an element; positions beyond the width are ignored.
    pub fn set(&mut self, pos: u8, value: bool)
        ensures
            final(self)@ == if (pos as int) < A::width() {
                old(self)@.update(pos as int, value)
            } else {
                old(self)@
            },
    {
        proof {
            old(self).lemma_unfold();
        }
        let r = self.0.set(pos as usize, value);
        proof {
            self.lemma_unfold();
        }
        r
    }

    /// Adds `pos`; returns whether it was absent. Positions beyond the width give `false`.
    pub fn insert(&mut self, pos: u8) -> (r: bool)
        ensures
            r == ((pos as int) < A::width() && !old(self)@[pos as int]),
            final(self)@ == if (pos as int) < A::width() {
                old(self)@.update(pos as int, true)
            } else {
                old(self)@
            },
    {
        proof {
            old(self).lemma_unfold();
        }
        let r = self.0.insert(pos as usize);
        proof {
            self.lemma_unfold();
        }
        r
    }

    /// Removes `pos`; returns whether it was present.
    pub fn remove(&mut self, pos: u8) -> (r: bool)
        ensures
            r == member(old(self)@, pos as int),
            final(self)@ == if (pos as int) < A::width() {
                old(self)@.update(pos as int, false)
            } else {
                old(self)@
            },
    {
        proof {
            old(self).lemma_unfold();
        }
        let r = self.0.remove(pos as usize);
        proof {
            self.lemma_unfold();
        }
        r
    }

    /// Flips whether `pos` is an element; positions beyond the width are ignored.
    pub fn toggle(&mut self, pos: u8)
        ensures
            final(self)@ == if (pos as int) < A::width() {
                old(self)@.update(pos as int, !old(self)@[pos as int])
            } else {
                old(self)@
            },
    {
        proof {
            old(self).lemma_unfold();
        }
        let r = self.0.toggle(pos as usize);
        proof {
            self.lemma_unfold();
        }
        r
    }

    /// Removes every element.
    pub fn clear(&mut self)
        ensures
            final(self)@ == Seq::new(A::width(), |i: int| false),
    {
        proof {
            old(self).lemma_unfold();
        }
        let r = self.0.clear();
        proof {
            self.lemma_unfold();
        }
        r
    }

    /// Whether every element is also in `other`.
    pub fn is_subset(&self, other: &Self) -> (r: bool)
        ensures
            r == (forall|i: int| member(self@, i) ==> member(other@, i)),
    {
        proof {
            self.lemma_unfold(); other.lemma_unfold();
        }
        self.0.is_subset(&other.0)
    }

    /// Whether every element of `other` is in this set.
    pub fn is_superset(&self, other: &Self) -> (r: bool)
        ensures
            r == (forall|i: int| member(other@, i) ==> member(self@, i)),
    {
        proof {
            self.lemma_unfold(); other.lemma_unfold();
        }
        self.0.is_superset(&other.0)
    }

    /// Whether the sets have no element in common.
    pub fn is_disjoint(&self, other: &Self) -> (r: bool)
        ensures
            r == (forall|i: int| !(member(self@, i) && member(other@, i))),
    {
        proof {
            self.lemma_unfold(); other.lemma_unfold();
        }
        self.0.is_disjoint(&other.0)
    }

    /// Smallest element, if any.
    pub fn first(&self) -> (r: Option<u8>)
        ensures
            match r {
                None => forall|i: int| 0 <= i < self@.len() ==> !self@[i],
                Some(p) => p < self@.len() && self@[p as int] && forall|i: int|
                    0 <= i < p ==> !self@[i],
            },
    {
        proof {
            A::lemma_width();
            self.lemma_unfold();
            self.0.lemma_view();
        }
        match self.0.first() {
            None => None,
            Some(p) => Some(p as u8),
        }
    }

    /// Largest element, if any.
    pub fn last(&self) -> (r: Option<u8>)
        ensures
            match r {
                None => forall|i: int| 0 <= i < self@.len() ==> !self@[i],
                Some(p) => p < self@.len() && self@[p as int] && forall|i: int|
                    p < i < self@.len() ==> !self@[i],
            },
    {
        proof {
            A::lemma_width();
            self.lemma_unfold();
            self.0.lemma_view();
        }
        match self.0.last() {
            None => None,
            Some(p) => Some(p as u8),
        }
    }

    /// Removes and returns the smallest element, if any.
    pub fn pop_first(&mut self) -> (r: Option<u8>)
        ensures
            match r {
                None => final(self)@ == old(self)@ && forall|i: int|
                    0 <= i < old(self)@.len() ==> !old(self)@[i],
                Some(p) => p < old(self)@.len() && old(self)@[p as int] && (forall|i: int|
                    0 <= i < p ==> !old(self)@[i]) && final(self)@ == old(self)@.update(
                    p as int,
                    false,
                ),
            },
    {
        proof {
            A::lemma_width();
            old(self).lemma_unfold();
            old(self).0.lemma_view();
        }
        let r = self.0.pop_first();
        proof {
            self.lemma_unfold();
        }
        match r {
            None => None,
            Some(p) => Some(p as u8),
        }
    }

    /// Removes and returns the largest element, if any.
    pub fn pop_last(&mut self) -> (r: Option<u8>)
        ensures
            match r {
                None => final(self)@ == old(self)@ && forall|i: int|
                    0 <= i < old(self)@.len() ==> !old(self)@[i],
                Some(p) => p < old(self)@.len() && old(self)@[p as int] && (forall|i: int|
                    p < i < old(self)@.len() ==> !old(self)@[i]) && final(self)@ == old(
                    self,
                )@.update(p as int, false),
            },
    {
        proof {
            A::lemma_width();
            old(self).lemma_unfold();
            old(self).0.lemma_view();
        }
        let r = self.0.pop_last();
        proof {
            self.lemma_unfold();
        }
        match r {
            None => None,
            Some(p) => Some(p as u8),
        }
    }

    /// All elements in increasing order.
    pub fn iter(&self) -> (r: Vec<u8>)
        ensures
            r@ == ones(self@).map_values(|p: usize| p as u8),
    {
        let v = self.0.iter();
        let mut out: Vec<u8> = Vec::new();
        let mut k: usize = 0;
        proof {
            A::lemma_width();
            self.0.lemma_view();
            crate::words::lemma_ones_members(self@);
        }
        while k < v.len()
            invariant
                k <= v@.len(),
                v@ == ones(self@),
                forall|j: int| 0 <= j < v@.len() ==> #[trigger] v@[j] < 64,
                out@ == v@.take(k as int).map_values(|p: usize| p as u8),
            decreases v@.len() - k,
        {
            out.push(v[k] as u8);
            k = k + 1;
            proof {
                assert(out@ =~= v@.take(k as int).map_values(|p: usize| p as u8));
            }
        }
        proof {
            assert(v@.take(v@.len() as int) =~= v@);
        }
        out
    }

    /// Keeps exactly the elements `p` for which `f(p)` answers `true`.
    pub fn retain<F: Fn(u8) -> bool>(&mut self, f: F)
        requires
            forall|p: u8| call_requires(f, (p,)),
        ensures
            final(self)@.len() == old(self)@.len(),
            forall|i: int|
                #![trigger member(final(self)@, i)]
                member(final(self)@, i) ==> member(old(self)@, i) && call_ensures(f, (i as u8,), true),
            forall|i: int|
                #![trigger member(old(self)@, i)]
                member(old(self)@, i) && !member(final(self)@, i) ==> call_ensures(f, (i as u8,), false),
    {
        let items = self.iter();
        let n = items.len();
        let mut k: usize = 0;
        proof {
            A::lemma_width();
            self.0.lemma_view();
            crate::words::lemma_ones_members(self@);
        }
        while k < n
            invariant
                n == items@.len(),
                k <= n,
                8 <= A::width() <= 64,
                forall|p: u8| call_requires(f, (p,)),
                old(self)@.len() == A::width(),
                self@.len() == A::width(),
                items@ == ones(old(self)@).map_values(|p: usize| p as u8),
                forall|j: int| 0 <= j < ones(old(self)@).len() ==> #[trigger] ones(old(self)@)[j] < A::width() && old(self)@[ones(old(self)@)[j] as int],
                forall|j1: int, j2: int| 0 <= j1 < j2 < ones(old(self)@).len() ==> ones(old(self)@)[j1] < ones(old(self)@)[j2],
                forall|i: int| 0 <= i < old(self)@.len() && old(self)@[i] ==> ones(old(self)@).contains(i as usize),
                forall|i: int|
                    #![trigger member(self@, i)]
                    member(self@, i) ==> member(old(self)@, i),
                forall|i: int|
                    #![trigger member(self@, i)]
                    member(old(self)@, i) && !ones(old(self)@).take(k as int).contains(i as usize) ==> member(self@, i),
                forall|j: int|
                    0 <= j < k ==> (member(self@, ones(old(self)@)[j] as int) ==> call_ensures(f, (#[trigger] items@[j],), true)),
                forall|j: int|
                    0 <= j < k ==> (!member(self@, ones(old(self)@)[j] as int) ==> call_ensures(f, (#[trigger] items@[j],), false)),
            decreases n - k,
        {
            let p = items[k];
            let keep = f(p);
            let ghost before = self@;
            proof {
                self.lemma_unfold();
                self.0.lemma_view();
            }
            if !keep {
                self.0.remove(p as usize);
            }
            proof {
                self.lemma_unfold();
                let o = ones(old(self)@);
                assert(items@[k as int] == o[k as int] as u8);
                assert forall|i: int| #![trigger member(self@, i)] member(self@, i) implies member(old(self)@, i) by {
                    assert(member(before, i));
                }
                assert forall|i: int| #![trigger member(self@, i)]
                    member(old(self)@, i) && !o.take(k + 1).contains(i as usize) implies member(self@, i) by {
                    if o.take(k as int).contains(i as usize) {
                        let j = choose|j: int| 0 <= j < k && o.take(k as int)[j] == i as usize;
                        assert(o.take(k + 1)[j] == i as usize);
                    }
                    assert(o.take(k + 1)[k as int] == o[k as int]);
                    assert(i as usize != o[k as int]);
                    assert(member(before, i));
                }
            }
            k = k + 1;
        }
        proof {
            let o = ones(old(self)@);
            assert(o.take(o.len() as int) =~= o);
            assert forall|i: int| #![trigger member(self@, i)] #![trigger member(old(self)@, i)]
                member(old(self)@, i) implies (member(self@, i) ==> call_ensures(f, (i as u8,), true)) && (!member(self@, i) ==> call_ensures(f, (i as u8,), false)) by {
                let j = choose|j: int| 0 <= j < o.len() && o[j] == i as usize;
                assert(items@[j] == i as u8);
            }
        }
    }

    /// Elements in either set.
    pub fn union(self, rhs: Self) -> (r: Self)
        ensures
            r@ == Seq::new(A::width(), |i: int| self@[i] || rhs@[i]),
    {
        let r = FlagSet(self.0.union(&rhs.0.bits()));
        proof {
            self.lemma_unfold();
            rhs.lemma_view();
            r.lemma_unfold();
            rhs.0.lemma_view();
            assert(r@ =~= Seq::new(A::width(), |i: int| self@[i] || rhs@[i]));
        }
        r
    }

    /// Elements in both sets.
    pub fn intersection(self, rhs: Self) -> (r: Self)
        ensures
            r@ == Seq::new(A::width(), |i: int| self@[i] && rhs@[i]),
    {
        let r = FlagSet(BitSet::<A, usize>::from_bits(self.0.bits().and(rhs.0.bits())));
        proof {
            self.lemma_view();
            rhs.lemma_view();
            assert(r@ =~= Seq::new(A::width(), |i: int| self@[i] && rhs@[i]));
        }
        r
    }

    /// Elements in exactly one of the sets.
    pub fn symmetric_difference(self, rhs: Self) -> (r: Self)
        ensures
            r@ == Seq::new(A::width(), |i: int| self@[i] != rhs@[i]),
    {
        let r = FlagSet(BitSet::<A, usize>::from_bits(self.0.bits().xor(rhs.0.bits())));
        proof {
            self.lemma_view();
            rhs.lemma_view();
            assert(r@ =~= Seq::new(A::width(), |i: int| self@[i] != rhs@[i]));
        }
        r
    }

    /// Elements of this set not in `rhs`.
    pub fn difference(self, rhs: Self) -> (r: Self)
        ensures
            r@ == Seq::new(A::width(), |i: int| self@[i] && !rhs@[i]),
    {
        let r = FlagSet(self.0.difference(&rhs.0.bits()));
        proof {
            self.lemma_unfold();
            rhs.lemma_view();
            r.lemma_unfold();
            rhs.0.lemma_view();
            assert(r@ =~= Seq::new(A::width(), |i: int| self@[i] && !rhs@[i]));
        }
        r
    }

    /// Whether the two sets have the same bits.
    pub fn equals(&self, other: &Self) -> (r: bool)
        ensures
            r == (self@ == other@),
    {
        let r = self.0.bits().equals(other.0.bits());
        proof {
            self.lemma_view();
            other.lemma_view();
            if self@ == other@ {
                assert forall|i: int| 0 <= i < A::width() implies self.spec_bits().bit(i) == other.spec_bits().bit(i) by {
                    assert(self@[i] == other@[i]);
                }
                A::lemma_ext(self.spec_bits(), other.spec_bits());
            }
        }
        r
    }
}

impl<A: PrimStore> PartialEq for FlagSet<A> {
    fn eq(&self, other: &Self) -> (r: bool) {
        self.equals(other)
    }
}

impl<A: PrimStore> vstd::std_specs::cmp::PartialEqSpecImpl for FlagSet<A> {
    open spec fn obeys_eq_spec() -> bool {
        true
    }

    open spec fn eq_spec(&self, other: &Self) -> bool {
        self@ == other@
    }
}

/// The named flags of a flag set, in declaration order, with their value at a word.
pub open spec fn names_of(flags: Seq<Flag<u8>>, s: Seq<bool>) -> Seq<(&'static str, u8)>
    decreases flags.len(),
{
    if flags.len() == 0 {
        Seq::empty()
    } else {
        let rest = names_of(flags.drop_last(), s);
        let f = flags.last();
        if member(s, f.spec_value() as int) {
            rest.push((f.spec_name(), f.spec_value()))
        } else {
            rest
        }
    }
}

/// Whether some flag of `flags` has value `i`.
pub open spec fn declared(flags: Seq<Flag<u8>>, i: int) -> bool {
    exists|k: int| 0 <= k < flags.len() && #[trigger] flags[k].spec_value() as int == i
}

/// The declaration of a named flag set: its flags, in order, each naming one bit position,
/// and the mask of all declared positions.
#[derive(Debug)]
pub struct FlagDecl<A> {
    flags: Vec<Flag<u8>>,
    all: A,
}

impl<A: PrimStore> FlagDecl<A> {
    pub closed spec fn spec_flags(&self) -> Seq<Flag<u8>> {
        self.flags@
    }

    /// The mask of declared positions.
    pub closed spec fn spec_all(&self) -> A {
        self.all
    }

    /// Well-formedness: the mask has exactly the declared positions.
    pub open spec fn wf(&self) -> bool {
        forall|i: int| #[trigger] self.spec_all().bit(i) == declared(self.spec_flags(), i)
    }

    /// The declaration with these flags, whose values must lie below the width.
    pub fn new(flags: Vec<Flag<u8>>) -> (r: Self)
        requires
            forall|k: int| 0 <= k < flags@.len() ==> #[trigger] flags@[k].spec_value() < A::width(),
        ensures
            r.wf(),
            r.spec_flags() == flags@,
    {
        let mut all = A::zero();
        let mut k: usize = 0;
        proof {
            A::lemma_width();
        }
        while k < flags.len()
            invariant
                k <= flags@.len(),
                8 <= A::width() <= 64,
                forall|j: int| 0 <= j < flags@.len() ==> #[trigger] flags@[j].spec_value() < A::width(),
                forall|i: int| #[trigger] all.bit(i) == declared(flags@.take(k as int), i),
            decreases flags@.len() - k,
        {
            let v = *flags[k].value();
            let ghost prev = all;
            all = all.or(A::single(v as u32));
            proof {
                let t = flags@.take(k + 1);
                let t0 = flags@.take(k as int);
                assert forall|i: int| #[trigger] all.bit(i) == declared(t, i) by {
                    if declared(t, i) {
                        let j = choose|j: int| 0 <= j < t.len() && #[trigger] t[j].spec_value() as int == i;
                        if j < k {
                            assert(t0[j] == t[j]);
                            assert(prev.bit(i));
                        }
                    }
                    if declared(t0, i) {
                        let j = choose|j: int| 0 <= j < t0.len() && #[trigger] t0[j].spec_value() as int == i;
                        assert(t[j] == t0[j]);
                    }
                    if i == v {
                        assert(t[k as int] == flags@[k as int]);
                    }
                }
            }
            k = k + 1;
        }
        proof {
            assert(flags@.take(flags@.len() as int) =~= flags@);
        }
        FlagDecl { flags, all }
    }

    /// The flags, in declaration order.
    pub fn flags(&self) -> (r: &[Flag<u8>])
        ensures
            r@ == self.spec_flags(),
    {
        self.flags.as_slice()
    }

    /// The largest declared value (0 when there is none).
    pub fn max_value(&self) -> (r: u8)
        ensures
            forall|k: int| 0 <= k < self.spec_flags().len() ==> #[trigger] self.spec_flags()[k].spec_value() <= r,
            r == 0 || exists|k: int| 0 <= k < self.spec_flags().len() && #[trigger] self.spec_flags()[k].spec_value() == r,
    {
        let mut max: u8 = 0;
        let mut k: usize = 0;
        while k < self.flags.len()
            invariant
                k <= self.flags@.len(),
                self.flags@ == self.spec_flags(),
                forall|j: int| 0 <= j < k ==> #[trigger] self.spec_flags()[j].spec_value() <= max,
                max == 0 || exists|j: int| 0 <= j < k && #[trigger] self.spec_flags()[j].spec_value() == max,
            decreases self.flags@.len() - k,
        {
            let v = *self.flags[k].value();
            if v > max {
                max = v;
            }
            k = k + 1;
        }
        max
    }

    /// Index of the first flag whose value is `v`.
    pub fn position_of(&self, v: u8) -> (r: Option<usize>)
        ensures
            match r {
                None => forall|k: int| 0 <= k < self.spec_flags().len() ==> #[trigger] self.spec_flags()[k].spec_value() != v,
                Some(k) => k < self.spec_flags().len() && self.spec_flags()[k as int].spec_value() == v
                    && forall|j: int| 0 <= j < k ==> #[trigger] self.spec_flags()[j].spec_value() != v,
            },
    {
        let mut k: usize = 0;
        while k < self.flags.len()
            invariant
                k <= self.flags@.len(),
                forall|j: int| 0 <= j < k ==> #[trigger] self.flags@[j].spec_value() != v,
            decreases self.flags@.len() - k,
        {
            if *self.flags[k].value() == v {
                return Some(k);
            }
            k = k + 1;
        }
        None
    }

    /// The mask of declared positions.
    pub fn all_bits(&self) -> (r: A)
        ensures
            r == self.spec_all(),
    {
        self.all
    }

    /// The set of all declared positions.
    pub fn all(&self) -> (r: FlagSet<A>)
        ensures
            r@ == word_seq(self.spec_all()),
    {
        FlagSet::from_bits_retain(self.all)
    }

    /// The set with bits `bits`, when every set bit is declared.
    pub fn from_bits(&self, bits: A) -> (r: Option<FlagSet<A>>)
        ensures
            r is Some <==> (forall|i: int| bits.bit(i) ==> self.spec_all().bit(i)),
            r matches Some(s) ==> s.spec_bits() == bits,
    {
        let extra = bits.and_not(self.all);
        if extra.is_zero() {
            Some(FlagSet::from_bits_retain(bits))
        } else {
            proof {
                let b = choose|b: int| extra.bit(b);
                assert(bits.bit(b) && !self.spec_all().bit(b));
            }
            None
        }
    }

    /// The set with the declared bits of `bits`.
    pub fn from_bits_truncate(&self, bits: A) -> (r: FlagSet<A>)
        ensures
            r@ == Seq::new(A::width(), |i: int| bits.bit(i) && self.spec_all().bit(i)),
    {
        let r = FlagSet::from_bits_retain(bits.and(self.all));
        proof {
            r.lemma_view();
            assert(r@ =~= Seq::new(A::width(), |i: int| bits.bit(i) && self.spec_all().bit(i)));
        }
        r
    }

    /// Whether `set` holds every declared position.
    pub fn is_all(&self, set: &FlagSet<A>) -> (r: bool)
        ensures
            r == (forall|i: int| self.spec_all().bit(i) ==> member(set@, i)),
    {
        let missing = self.all.and_not(set.bits());
        let r = missing.is_zero();
        proof {
            set.lemma_view();
            if !r {
                let b = choose|b: int| missing.bit(b);
                assert(self.spec_all().bit(b) && !member(set@, b));
            }
        }
        r
    }

    /// Whether `set` holds exactly the declared positions (the test of a set of enum values).
    pub fn is_exactly_all(&self, set: &FlagSet<A>) -> (r: bool)
        ensures
            r == (forall|i: int| self.spec_all().bit(i) == member(set@, i)),
    {
        let r = set.bits().equals(self.all);
        proof {
            set.lemma_view();
            if r {
                assert forall|i: int| self.spec_all().bit(i) == member(set@, i) by {
                    assert(set.spec_bits().bit(i) == self.spec_all().bit(i));
                }
            } else if forall|j: int| self.spec_all().bit(j) == member(set@, j) {
                assert forall|i: int| 0 <= i < A::width() implies set.spec_bits().bit(i) == self.spec_all().bit(i) by {
                    assert(member(set@, i) == set.spec_bits().bit(i));
                }
                A::lemma_ext(set.spec_bits(), self.spec_all());
            }
        }
        r
    }

    /// The declared positions not in `set`.
    pub fn complement(&self, set: FlagSet<A>) -> (r: FlagSet<A>)
        ensures
            r@ == Seq::new(A::width(), |i: int| self.spec_all().bit(i) && !set@[i]),
    {
        let r = FlagSet::from_bits_retain(self.all.and_not(set.bits()));
        proof {
            r.lemma_view();
            set.lemma_view();
            assert(r@ =~= Seq::new(A::width(), |i: int| self.spec_all().bit(i) && !set@[i]));
        }
        r
    }

    /// The bits of `set` that no flag declares.
    pub fn unknown_bits(&self, set: &FlagSet<A>) -> (r: A)
        ensures
            forall|i: int| #[trigger] r.bit(i) == (set.spec_bits().bit(i) && !self.spec_all().bit(i)),
    {
        set.bits().and_not(self.all)
    }

    /// The names and positions of the flags in `set`, in declaration order.
    pub fn iter_names(&self, set: &FlagSet<A>) -> (r: Vec<(&'static str, u8)>)
        ensures
            r@ == names_of(self.spec_flags(), set@),
    {
        let mut out: Vec<(&'static str, u8)> = Vec::new();
        let mut k: usize = 0;
        while k < self.flags.len()
            invariant
                k <= self.flags@.len(),
                out@ == names_of(self.flags@.take(k as int), set@),
            decreases self.flags@.len() - k,
        {
            let f = &self.flags[k];
            let v = *f.value();
            proof {
                assert(self.flags@.take(k + 1).drop_last() =~= self.flags@.take(k as int));
            }
            if set.contains(&v) {
                out.push((f.name(), v));
            }
            k = k + 1;
        }
        proof {
            assert(self.flags@.take(self.flags@.len() as int) =~= self.flags@);
        }
        out
    }
}

/// A named flag set held in one atomic word: each operation is atomic for the whole set.
///
/// Another thread may change the word at any time, so nothing is said of the values read.
#[derive(Debug)]
pub struct AtomicFlagSet<A>(AtomicBitSet<A, usize>);

impl<A: AtomicPrimStore> AtomicFlagSet<A> {
    /// An empty set.
    pub fn new() -> (r: Self) {
        AtomicFlagSet(AtomicBitSet::<A, usize>::new())
    }

    /// An empty set.
    pub fn empty() -> (r: Self) {
        Self::new()
    }

    /// The set whose word starts as `bits`, declared or not.
    pub fn from_bits_retain(bits: A::Item) -> (r: Self) {
        AtomicFlagSet(AtomicBitSet::<A, usize>::from_bits(A::with_value(bits)))
    }

    /// The set whose word starts as `bits`, when every set bit is declared.
    pub fn from_bits(decl: &FlagDecl<A::Item>, bits: A::Item) -> (r: Option<Self>)
        ensures
            r is Some <==> (forall|i: int| bits.bit(i) ==> decl.spec_all().bit(i)),
    {
        match decl.from_bits(bits) {
            Some(s) => Some(Self::from_bits_retain(s.bits())),
            None => None,
        }
    }

    /// The set whose word starts as the declared bits of `bits`.
    pub fn from_bits_truncate(decl: &FlagDecl<A::Item>, bits: A::Item) -> (r: Self) {
        Self::from_bits_retain(decl.from_bits_truncate(bits).bits())
    }

    /// An atomic copy of `set`.
    pub fn from_plain(set: FlagSet<A::Item>) -> (r: Self) {
        Self::from_bits_retain(set.bits())
    }

    /// The set as last stored, consuming it.
    pub fn into_plain(self) -> (r: FlagSet<A::Item>) {
        FlagSet::from_bits_retain(self.bits())
    }

    /// A snapshot of the set.
    pub fn to_plain(&self) -> (r: FlagSet<A::Item>) {
        FlagSet::from_bits_retain(self.bits())
    }

    /// A snapshot of the raw bits.
    pub fn bits(&self) -> (r: A::Item) {
        self.0.load_store()
    }

    /// Exchanges the raw bits with `bits` atomically.
    pub fn swap_bits(&self, bits: &mut A::Item) {
        self.0.swap_store(bits)
    }

    /// The set holding only `pos` (empty when `pos` is beyond the width).
    pub fn from_element(pos: u8) -> (r: Self) {
        Self::from_bits_retain(FlagSet::<A::Item>::from_element(pos).bits())
    }

    /// The set holding the listed positions; positions beyond the width are ignored.
    pub fn from_slice(positions: &[u8]) -> (r: Self) {
        Self::from_bits_retain(FlagSet::<A::Item>::from_slice(positions).bits())
    }

    /// The set of all declared positions.
    pub fn all(decl: &FlagDecl<A::Item>) -> (r: Self) {
        Self::from_bits_retain(decl.all_bits())
    }

    /// Whether a snapshot holds every declared position (always so when nothing is declared).
    pub fn is_all(&self, decl: &FlagDecl<A::Item>) -> (r: bool)
        ensures
            (forall|i: int| !decl.spec_all().bit(i)) ==> r,
    {
        decl.is_all(&self.to_plain())
    }

    /// Whether a snapshot holds exactly the declared positions.
    pub fn is_exactly_all(&self, decl: &FlagDecl<A::Item>) -> (r: bool) {
        decl.is_exactly_all(&self.to_plain())
    }

    /// The declared positions not in a snapshot.
    pub fn complement(&self, decl: &FlagDecl<A::Item>) -> (r: Self) {
        Self::from_bits_retain(decl.complement(self.to_plain()).bits())
    }

    /// Number of elements in a snapshot.
    pub fn len(&self) -> (r: usize)
        ensures
            r <= A::Item::width(),
    {
        self.0.len()
    }

    /// Whether a snapshot has no element.
    pub fn is_empty(&self) -> (r: bool) {
        self.0.is_empty()
    }

    /// Whether `pos` is an element of a snapshot; `false` beyond the width.
    pub fn contains(&self, pos: &u8) -> (r: bool)
        ensures
            r ==> *pos < A::Item::width(),
    {
        self.0.contains(&(*pos as usize))
    }

    /// Sets whether `pos` is an element; positions beyond the width are ignored.
    pub fn set(&self, pos: u8, value: bool) {
        self.0.set(pos as usize, value)
    }

    /// Adds `pos`; returns whether it was absent. `false` beyond the width.
    pub fn insert(&self, pos: u8) -> (r: bool)
        ensures
            r ==> pos < A::Item::width(),
    {
        self.0.insert(pos as usize)
    }

    /// Removes `pos`; returns whether it was present. `false` beyond the width.
    pub fn remove(&self, pos: u8) -> (r: bool)
        ensures
            r ==> pos < A::Item::width(),
    {
        self.0.remove(pos as usize)
    }

    /// Flips whether `pos` is an element; positions beyond the width are ignored.
    pub fn toggle(&self, pos: u8) {
        self.0.toggle(pos as usize)
    }

    /// Removes every element.
    pub fn clear(&self) {
        self.0.clear()
    }

    /// Smallest element of a snapshot, if any.
    pub fn first(&self) -> (r: Option<u8>)
        ensures
            r matches Some(p) ==> p < A::Item::width(),
    {
        proof {
            A::Item::lemma_width();
        }
        match self.0.first() {
            None => None,
            Some(p) => Some(p as u8),
        }
    }

    /// Largest element of a snapshot, if any.
    pub fn last(&self) -> (r: Option<u8>)
        ensures
            r matches Some(p) ==> p < A::Item::width(),
    {
        proof {
            A::Item::lemma_width();
        }
        match self.0.last() {
            None => None,
            Some(p) => Some(p as u8),
        }
    }

    /// One attempt to remove the smallest element.
    pub fn try_pop_first(&self) -> (r: PopAttempt)
        ensures
            r matches PopAttempt::Taken(p) ==> p < A::Item::width(),
    {
        self.0.try_pop_first()
    }

    /// One attempt to remove the largest element.
    pub fn try_pop_last(&self) -> (r: PopAttempt)
        ensures
            r matches PopAttempt::Taken(p) ==> p < A::Item::width(),
    {
        self.0.try_pop_last()
    }

    /// Whether a snapshot of this set is within a snapshot of `other`.
    pub fn is_subset(&self, other: &Self) -> (r: bool) {
        self.0.is_subset(&other.0)
    }

    /// Whether a snapshot of this set includes a snapshot of `other`.
    pub fn is_superset(&self, other: &Self) -> (r: bool) {
        self.0.is_superset(&other.0)
    }

    /// Whether snapshots of the two sets share no element.
    pub fn is_disjoint(&self, other: &Self) -> (r: bool) {
        self.0.is_disjoint(&other.0)
    }

    /// Keeps the elements of a snapshot `p` for which `f(p)` answers `true`; each other
    /// element is cleared atomically.
    pub fn retain<F: Fn(u8) -> bool>(&self, f: F)
        requires
            forall|p: u8| call_requires(f, (p,)),
    {
        let items = self.to_plain().iter();
        let n = items.len();
        let mut k: usize = 0;
        while k < n
            invariant
                n == items@.len(),
                k <= n,
                forall|p: u8| call_requires(f, (p,)),
            decreases n - k,
        {
            let p = items[k];
            if !f(p) {
                self.remove(p);
            }
            k = k + 1;
        }
    }

    /// Elements of a snapshot, in increasing order.
    pub fn iter(&self) -> (r: Vec<u8>)
        ensures
            exists|w: A::Item| r@ == ones(#[trigger] word_seq(w)).map_values(|p: usize| p as u8),
            forall|j: int| 0 <= j < r@.len() ==> (#[trigger] r@[j] as int) < A::Item::width(),
            forall|j1: int, j2: int| 0 <= j1 < j2 < r@.len() ==> r@[j1] < r@[j2],
    {
        let p = self.to_plain();
        let r = p.iter();
        proof {
            p.lemma_view();
            A::Item::lemma_width();
            lemma_ones_members(p@);
            let o = ones(p@);
            assert forall|j: int| 0 <= j < r@.len() implies (#[trigger] r@[j] as int) == o[j] && o[j] < A::Item::width() by {
            }
            assert forall|j1: int, j2: int| 0 <= j1 < j2 < r@.len() implies r@[j1] < r@[j2] by {
                assert(r@[j1] as int == o[j1]);
                assert(r@[j2] as int == o[j2]);
            }
        }
        r
    }

    /// Names and positions of the flags in a snapshot, in declaration order.
    pub fn iter_names(&self, decl: &FlagDecl<A::Item>) -> (r: Vec<(&'static str, u8)>)
        ensures
            exists|w: A::Item| r@ == #[trigger] names_of(decl.spec_flags(), word_seq(w)),
    {
        let p = self.to_plain();
        let r = decl.iter_names(&p);
        proof {
            p.lemma_view();
            assert(r@ == names_of(decl.spec_flags(), word_seq(p.spec_bits())));
        }
        r
    }
}

} // verus!

verus! {

impl<A: PrimStore> FlagSet<A> {
    /// Two flag sets with the same elements are the same set.
    pub proof fn lemma_view_injective(a: Self, b: Self)
        requires
            a@ == b@,
        ensures
            a == b,
    {
        a.lemma_unfold();
        b.lemma_unfold();
        BitSet::<A, usize>::lemma_view_injective(a.0, b.0);
    }

    /// The flag set whose view is `op` of the views of `a` and `b`, position by position.
    pub open spec fn spec_op(a: Self, b: Self, op: WordOp) -> Self {
        choose|r: Self| r@ == Seq::new(A::width(), |i: int| op.spec_apply(a@[i], b@[i]))
    }

    fn op(self, rhs: Self, op: WordOp) -> (r: Self)
        ensures
            r@ == Seq::new(A::width(), |i: int| op.spec_apply(self@[i], rhs@[i])),
            r == Self::spec_op(self, rhs, op),
    {
        let r = match op {
            WordOp::Union => self.union(rhs),
            WordOp::Intersection => self.intersection(rhs),
            WordOp::SymmetricDifference => self.symmetric_difference(rhs),
            WordOp::Difference => self.difference(rhs),
        };
        proof {
            assert(r@ =~= Seq::new(A::width(), |i: int| op.spec_apply(self@[i], rhs@[i])));
            Self::lemma_view_injective(r, Self::spec_op(self, rhs, op));
        }
        r
    }

    /// Adds the elements of `rhs`.
    pub fn bitor_assign(&mut self, rhs: Self)
        ensures
            final(self)@ == Seq::new(A::width(), |i: int| old(self)@[i] || rhs@[i]),
    {
        *self = self.union(rhs);
    }

    /// Keeps only the elements also in `rhs`.
    pub fn bitand_assign(&mut self, rhs: Self)
        ensures
            final(self)@ == Seq::new(A::width(), |i: int| old(self)@[i] && rhs@[i]),
    {
        *self = self.intersection(rhs);
    }

    /// Flips the elements of `rhs`.
    pub fn bitxor_assign(&mut self, rhs: Self)
        ensures
            final(self)@ == Seq::new(A::width(), |i: int| old(self)@[i] != rhs@[i]),
    {
        *self = self.symmetric_difference(rhs);
    }

    /// Removes the elements of `rhs`.
    pub fn sub_assign(&mut self, rhs: Self)
        ensures
            final(self)@ == Seq::new(A::width(), |i: int| old(self)@[i] && !rhs@[i]),
    {
        *self = self.difference(rhs);
    }
}

impl<A: PrimStore> core::ops::BitOr for FlagSet<A> {
    type Output = Self;

    fn bitor(self, rhs: Self) -> (r: Self)
        ensures
            r@ == Seq::new(A::width(), |i: int| self@[i] || rhs@[i]),
    {
        self.op(rhs, WordOp::Union)
    }
}

impl<A: PrimStore> vstd::std_specs::ops::BitOrSpecImpl for FlagSet<A> {
    open spec fn obeys_bitor_spec() -> bool {
        true
    }

    open spec fn bitor_req(self, rhs: Self) -> bool {
        true
    }

    open spec fn bitor_spec(self, rhs: Self) -> Self {
        Self::spec_op(self, rhs, WordOp::Union)
    }
}

impl<A: PrimStore> core::ops::BitAnd for FlagSet<A> {
    type Output = Self;

    fn bitand(self, rhs: Self) -> (r: Self)
        ensures
            r@ == Seq::new(A::width(), |i: int| self@[i] && rhs@[i]),
    {
        self.op(rhs, WordOp::Intersection)
    }
}

impl<A: PrimStore> vstd::std_specs::ops::BitAndSpecImpl for FlagSet<A> {
    open spec fn obeys_bitand_spec() -> bool {
        true
    }

    open spec fn bitand_req(self, rhs: Self) -> bool {
        true
    }

    open spec fn bitand_spec(self, rhs: Self) -> Self {
        Self::spec_op(self, rhs, WordOp::Intersection)
    }
}

impl<A: PrimStore> core::ops::BitXor for FlagSet<A> {
    type Output = Self;

    fn bitxor(self, rhs: Self) -> (r: Self)
        ensures
            r@ == Seq::new(A::width(), |i: int| self@[i] != rhs@[i]),
    {
        self.op(rhs, WordOp::SymmetricDifference)
    }
}

impl<A: PrimStore> vstd::std_specs::ops::BitXorSpecImpl for FlagSet<A> {
    open spec fn obeys_bitxor_spec() -> bool {
        true
    }

    open spec fn bitxor_req(self, rhs: Self) -> bool {
        true
    }

    open spec fn bitxor_spec(self, rhs: Self) -> Self {
        Self::spec_op(self, rhs, WordOp::SymmetricDifference)
    }
}

impl<A: PrimStore> core::ops::Sub for FlagSet<A> {
    type Output = Self;

    fn sub(self, rhs: Self) -> (r: Self)
        ensures
            r@ == Seq::new(A::width(), |i: int| self@[i] && !rhs@[i]),
    {
        self.op(rhs, WordOp::Difference)
    }
}

impl<A: PrimStore> vstd::std_specs::ops::SubSpecImpl for FlagSet<A> {
    open spec fn obeys_sub_spec() -> bool {
        true
    }

    open spec fn sub_req(self, rhs: Self) -> bool {
        true
    }

    open spec fn sub_spec(self, rhs: Self) -> Self {
        Self::spec_op(self, rhs, WordOp::Difference)
    }
}

} // verus!

verus! {

impl<A: PrimStore> FlagSet<A> {
    /// Adds every listed position; positions beyond the width are ignored.
    pub fn extend(&mut self, positions: &[u8])
        ensures
            final(self)@ == Seq::new(A::width(), |i: int| old(self)@[i] || positions@.contains(i as u8)),
    {
        *self = self.union(Self::from_slice(positions));
    }

    /// Adds the elements of every set of `sets`.
    pub fn extend_sets(&mut self, sets: &[Self])
        ensures
            final(self)@ == Seq::new(A::width(), |i: int| old(self)@[i] || in_any(sets@, i)),
    {
        proof {
            old(self).lemma_view();
        }
        let mut k: usize = 0;
        while k < sets.len()
            invariant
                k <= sets@.len(),
                old(self)@.len() == A::width(),
                self@ == Seq::new(A::width(), |i: int| old(self)@[i] || in_any(sets@.take(k as int), i)),
            decreases sets@.len() - k,
        {
            let ghost before = self@;
            *self = self.union(sets[k]);
            proof {
                sets@[k as int].lemma_view();
                assert forall|i: int| 0 <= i < A::width() implies self@[i] == (old(self)@[i] || in_any(sets@.take(k + 1), i)) by {
                    lemma_in_any_step(sets@, k as int, i);
                    assert(before[i] == (old(self)@[i] || in_any(sets@.take(k as int), i)));
                }
                assert(self@ =~= Seq::new(A::width(), |i: int| old(self)@[i] || in_any(sets@.take(k + 1), i)));
            }
            k = k + 1;
        }
        proof {
            assert(sets@.take(sets@.len() as int) =~= sets@);
        }
    }

    /// The union of all of `sets` (empty when there is none).
    pub fn from_sets(sets: &[Self]) -> (r: Self)
        ensures
            r@ == Seq::new(A::width(), |i: int| in_any(sets@, i)),
    {
        let mut r = Self::new();
        r.extend_sets(sets);
        proof {
            assert(r@ =~= Seq::new(A::width(), |i: int| in_any(sets@, i)));
        }
        r
    }
}

} // verus!

verus! {

/// The interface of a named flag set: a set of `u8` positions held in one word `A`.
pub trait BitFlagSet<A: PrimStore>: Sized {
    /// The positions, one entry per bit of the word.
    spec fn flags_view(&self) -> Seq<bool>;

    /// The empty set.
    fn empty() -> (r: Self)
        ensures
            r.flags_view() == Seq::new(A::width(), |i: int| false);

    /// The set whose bits are `raw`.
    fn from_bits_retain(raw: A) -> (r: Self)
        ensures
            r.flags_view() == word_seq(raw);

    /// The set holding only `pos` (empty when `pos` is beyond the width).
    fn from_element(pos: u8) -> (r: Self)
        ensures
            r.flags_view() == if (pos as int) < A::width() {
                Seq::new(A::width(), |i: int| false).update(pos as int, true)
            } else {
                Seq::new(A::width(), |i: int| false)
            };

    /// Smallest element, if any.
    fn first(&self) -> (r: Option<u8>)
        ensures
            match r {
                None => forall|i: int| 0 <= i < self.flags_view().len() ==> !self.flags_view()[i],
                Some(p) => p < self.flags_view().len() && self.flags_view()[p as int] && forall|i: int|
                    0 <= i < p ==> !self.flags_view()[i],
            };

    /// Largest element, if any.
    fn last(&self) -> (r: Option<u8>)
        ensures
            match r {
                None => forall|i: int| 0 <= i < self.flags_view().len() ==> !self.flags_view()[i],
                Some(p) => p < self.flags_view().len() && self.flags_view()[p as int] && forall|i: int|
                    p < i < self.flags_view().len() ==> !self.flags_view()[i],
            };

    /// Removes and returns the smallest element, if any.
    fn pop_first(&mut self) -> (r: Option<u8>)
        ensures
            match r {
                None => final(self).flags_view() == old(self).flags_view() && forall|i: int|
                    0 <= i < old(self).flags_view().len() ==> !old(self).flags_view()[i],
                Some(p) => p < old(self).flags_view().len() && old(self).flags_view()[p as int]
                    && (forall|i: int| 0 <= i < p ==> !old(self).flags_view()[i])
                    && final(self).flags_view() == old(self).flags_view().update(p as int, false),
            };

    /// Removes and returns the largest element, if any.
    fn pop_last(&mut self) -> (r: Option<u8>)
        ensures
            match r {
                None => final(self).flags_view() == old(self).flags_view() && forall|i: int|
                    0 <= i < old(self).flags_view().len() ==> !old(self).flags_view()[i],
                Some(p) => p < old(self).flags_view().len() && old(self).flags_view()[p as int]
                    && (forall|i: int| p < i < old(self).flags_view().len() ==> !old(self).flags_view()[i])
                    && final(self).flags_view() == old(self).flags_view().update(p as int, false),
            };

    /// Number of elements.
    fn len(&self) -> (r: usize)
        ensures
            r == count_true(self.flags_view());

    /// Whether the set has no element.
    fn is_empty(&self) -> (r: bool)
        ensures
            r == (forall|i: int| 0 <= i < self.flags_view().len() ==> !self.flags_view()[i]);

    /// Whether `pos` is an element.
    fn contains(&self, pos: &u8) -> (r: bool)
        ensures
            r == member(self.flags_view(), *pos as int);

    /// Keeps exactly the elements `p` for which `f(p)` answers `true`.
    fn retain<F: Fn(u8) -> bool>(&mut self, f: F)
        requires
            forall|p: u8| call_requires(f, (p,)),
        ensures
            final(self).flags_view().len() == old(self).flags_view().len(),
            forall|i: int|
                #![trigger member(final(self).flags_view(), i)]
                member(final(self).flags_view(), i) ==> member(old(self).flags_view(), i)
                    && call_ensures(f, (i as u8,), true),
            forall|i: int|
                #![trigger member(old(self).flags_view(), i)]
                member(old(self).flags_view(), i) && !member(final(self).flags_view(), i)
                    ==> call_ensures(f, (i as u8,), false);

    /// Adds `pos`; returns whether it was absent.
    fn insert(&mut self, pos: u8) -> (r: bool)
        ensures
            r == ((pos as int) < A::width() && !old(self).flags_view()[pos as int]),
            final(self).flags_view() == if (pos as int) < A::width() {
                old(self).flags_view().update(pos as int, true)
            } else {
                old(self).flags_view()
            };

    /// Removes `pos`; returns whether it was present.
    fn remove(&mut self, pos: u8) -> (r: bool)
        ensures
            r == member(old(self).flags_view(), pos as int),
            final(self).flags_view() == if (pos as int) < A::width() {
                old(self).flags_view().update(pos as int, false)
            } else {
                old(self).flags_view()
            };

    /// Whether every element of this set is in `other`.
    fn is_subset(&self, other: &Self) -> (r: bool)
        ensures
            r == (forall|i: int| member(self.flags_view(), i) ==> member(other.flags_view(), i));

    /// Whether every element of `other` is in this set.
    fn is_superset(&self, other: &Self) -> (r: bool)
        ensures
            r == (forall|i: int| member(other.flags_view(), i) ==> member(self.flags_view(), i));

    /// Whether the two sets have no element in common.
    fn is_disjoint(&self, other: &Self) -> (r: bool)
        ensures
            r == (forall|i: int| !(member(self.flags_view(), i) && member(other.flags_view(), i)));

    /// The elements in increasing order.
    fn iter(&self) -> (r: Vec<u8>)
        ensures
            r@ == ones(self.flags_view()).map_values(|p: usize| p as u8);

    /// The elements in increasing order.
    fn to_vec(&self) -> (r: Vec<u8>)
        ensures
            r@ == ones(self.flags_view()).map_values(|p: usize| p as u8),
    {
        self.iter()
    }
}

impl<A: PrimStore> BitFlagSet<A> for FlagSet<A> {
    open spec fn flags_view(&self) -> Seq<bool> {
        self@
    }

    fn empty() -> (r: Self) {
        FlagSet::<A>::empty()
    }

    fn from_bits_retain(raw: A) -> (r: Self) {
        FlagSet::<A>::from_bits_retain(raw)
    }

    fn from_element(pos: u8) -> (r: Self) {
        FlagSet::<A>::from_element(pos)
    }

    fn first(&self) -> (r: Option<u8>) {
        FlagSet::<A>::first(self)
    }

    fn last(&self) -> (r: Option<u8>) {
        FlagSet::<A>::last(self)
    }

    fn pop_first(&mut self) -> (r: Option<u8>) {
        FlagSet::<A>::pop_first(self)
    }

    fn pop_last(&mut self) -> (r: Option<u8>) {
        FlagSet::<A>::pop_last(self)
    }

    fn len(&self) -> (r: usize) {
        FlagSet::<A>::len(self)
    }

    fn is_empty(&self) -> (r: bool) {
        let r = FlagSet::<A>::is_empty(self);
        proof {
            assert(self.flags_view() == self@);
        }
        r
    }

    fn contains(&self, pos: &u8) -> (r: bool) {
        FlagSet::<A>::contains(self, pos)
    }

    fn retain<F: Fn(u8) -> bool>(&mut self, f: F) {
        FlagSet::<A>::retain(self, f)
    }

    fn insert(&mut self, pos: u8) -> (r: bool) {
        FlagSet::<A>::insert(self, pos)
    }

    fn remove(&mut self, pos: u8) -> (r: bool) {
        FlagSet::<A>::remove(self, pos)
    }

    fn is_subset(&self, other: &Self) -> (r: bool) {
        let r = FlagSet::<A>::is_subset(self, other);
        proof {
            assert(self.flags_view() == self@);
            assert(other.flags_view() == other@);
        }
        r
    }

    fn is_superset(&self, other: &Self) -> (r: bool) {
        let r = FlagSet::<A>::is_superset(self, other);
        proof {
            assert(self.flags_view() == self@);
            assert(other.flags_view() == other@);
        }
        r
    }

    fn is_disjoint(&self, other: &Self) -> (r: bool) {
        let r = FlagSet::<A>::is_disjoint(self, other);
        proof {
            assert(self.flags_view() == self@);
            assert(other.flags_view() == other@);
        }
        r
    }

    fn iter(&self) -> (r: Vec<u8>) {
        FlagSet::<A>::iter(self)
    }
}

} // verus!
