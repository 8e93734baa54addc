//! Properties that hold across the set operations.
//!
//! Every set type of the crate describes its content as a `Seq<bool>` (one entry per
//! position below the capacity), and every operation states its effect on that sequence:
//! `insert(i)` sets entry `i`, `remove(i)` clears it, `toggle(i)` flips it, `len` counts the
//! set entries, `iter` lists them with `ones`, the set operators combine two sequences with
//! `combine`, and so on. The lemmas below are stated over exactly those expressions, so that
//! they apply to each type whose operations promise them.
use vstd::prelude::*;

use crate::word::{count_true, word_seq, PrimStore};
use crate::words::{
    combine, has_bit, lemma_count_true_append, lemma_count_true_zero, lemma_has_bit_at,
    lemma_has_bit_bound, lemma_ones_members, member, ones, significant_run, wd, words_view, WordOp,
};

verus! {

/// Splits the count of a sequence around position `i`.
proof fn lemma_count_true_split(s: Seq<bool>, i: int)
    requires
        0 <= i < s.len(),
    ensures
        count_true(s) == count_true(s.take(i)) + (if s[i] { 1int } else { 0int }) + count_true(
            s.skip(i + 1),
        ),
{
    let a = s.take(i);
    let b = s.skip(i + 1);
    let m = seq![s[i]];
    assert(s =~= a + m + b);
    lemma_count_true_append(a + m, b);
    lemma_count_true_append(a, m);
    assert(m.drop_last() =~= Seq::<bool>::empty());
    assert(count_true(m.drop_last()) == 0);
    assert(count_true(m) == if s[i] { 1int } else { 0int });
    assert(count_true(a + m) == count_true(a) + count_true(m));
    assert(count_true(s) == count_true(a + m) + count_true(b));
}

/// After `insert(i)` below the capacity, `contains(i)` answers `true`, and every other
/// position answers as before.
pub proof fn law_insert_then_contains(s: Seq<bool>, i: int)
    requires
        0 <= i < s.len(),
    ensures
        member(s.update(i, true), i),
        forall|j: int| j != i ==> member(s.update(i, true), j) == member(s, j),
{
}

/// After `remove(i)`, `contains(i)` answers `false`, and every other position answers as
/// before.
pub proof fn law_remove_then_not_contains(s: Seq<bool>, i: int)
    requires
        0 <= i < s.len(),
    ensures
        !member(s.update(i, false), i),
        forall|j: int| j != i ==> member(s.update(i, false), j) == member(s, j),
{
}

/// `remove(i)` undoes an `insert(i)` that added `i`, and `insert(i)` undoes a `remove(i)`
/// that took it away.
pub proof fn law_remove_undoes_insert(s: Seq<bool>, i: int)
    requires
        0 <= i < s.len(),
    ensures
        !s[i] ==> s.update(i, true).update(i, false) == s,
        s[i] ==> s.update(i, false).update(i, true) == s,
{
    assert(!s[i] ==> s.update(i, true).update(i, false) =~= s);
    assert(s[i] ==> s.update(i, false).update(i, true) =~= s);
}

/// Toggling the same position twice gives the set back.
pub proof fn law_toggle_twice(s: Seq<bool>, i: int)
    requires
        0 <= i < s.len(),
    ensures
        s.update(i, !s[i]).update(i, !s.update(i, !s[i])[i]) == s,
{
    assert(s.update(i, !s[i]).update(i, !s.update(i, !s[i])[i]) =~= s);
}

/// `insert(i)` answers `true` exactly when it makes `len` grow by one; otherwise `len`
/// stays the same.
pub proof fn law_insert_grows_len(s: Seq<bool>, i: int)
    requires
        0 <= i < s.len(),
    ensures
        count_true(s.update(i, true)) == count_true(s) + if !s[i] { 1int } else { 0int },
{
    let t = s.update(i, true);
    lemma_count_true_split(s, i);
    lemma_count_true_split(t, i);
    assert(t.take(i) =~= s.take(i));
    assert(t.skip(i + 1) =~= s.skip(i + 1));
}

/// `remove(i)` answers `true` exactly when it makes `len` shrink by one; otherwise `len`
/// stays the same.
pub proof fn law_remove_shrinks_len(s: Seq<bool>, i: int)
    requires
        0 <= i < s.len(),
    ensures
        count_true(s.update(i, false)) + (if s[i] { 1int } else { 0int }) == count_true(s),
{
    let t = s.update(i, false);
    lemma_count_true_split(s, i);
    lemma_count_true_split(t, i);
    assert(t.take(i) =~= s.take(i));
    assert(t.skip(i + 1) =~= s.skip(i + 1));
}

/// `iter` lists the elements in strictly increasing order, lists exactly the positions that
/// `contains` accepts, and yields `len` of them.
pub proof fn law_iter_lists_members(s: Seq<bool>)
    requires
        s.len() <= usize::MAX + 1,
    ensures
        ones(s).len() == count_true(s),
        forall|j1: int, j2: int| 0 <= j1 < j2 < ones(s).len() ==> ones(s)[j1] < ones(s)[j2],
        forall|i: int| 0 <= i < s.len() ==> (ones(s).contains(i as usize) <==> member(s, i)),
        forall|j: int| 0 <= j < ones(s).len() ==> member(s, #[trigger] ones(s)[j] as int),
{
    lemma_ones_members(s);
    assert forall|i: int| 0 <= i < s.len() implies (ones(s).contains(i as usize) <==> member(s, i)) by {
        if ones(s).contains(i as usize) {
            let j = choose|j: int| 0 <= j < ones(s).len() && ones(s)[j] == i as usize;
            assert(s[ones(s)[j] as int]);
        }
    }
}

/// `is_empty` holds exactly when `len` is zero.
pub proof fn law_empty_iff_len_zero(s: Seq<bool>)
    ensures
        count_true(s) == 0 <==> (forall|i: int| 0 <= i < s.len() ==> !s[i]),
{
    lemma_count_true_zero(s);
}

/// The element that `first` (and `pop_first`) gives is the first one that `iter` yields.
pub proof fn law_first_heads_iter(s: Seq<bool>, p: int)
    requires
        s.len() <= usize::MAX + 1,
        0 <= p < s.len(),
        s[p],
        forall|i: int| 0 <= i < p ==> !s[i],
    ensures
        ones(s).len() > 0,
        ones(s)[0] == p,
{
    lemma_ones_members(s);
    let j = choose|j: int| 0 <= j < ones(s).len() && ones(s)[j] == p as usize;
    if j > 0 {
        assert(ones(s)[0] < ones(s)[j]);
        assert(s[ones(s)[0] as int]);
    }
}

/// The element that `last` (and `pop_last`) gives is the last one that `iter` yields.
pub proof fn law_last_ends_iter(s: Seq<bool>, p: int)
    requires
        s.len() <= usize::MAX + 1,
        0 <= p < s.len(),
        s[p],
        forall|i: int| p < i < s.len() ==> !s[i],
    ensures
        ones(s).len() > 0,
        ones(s).last() == p,
{
    lemma_ones_members(s);
    let n = ones(s).len();
    let j = choose|j: int| 0 <= j < ones(s).len() && ones(s)[j] == p as usize;
    if j < n - 1 {
        assert(ones(s)[j] < ones(s)[n - 1]);
        assert(s[ones(s)[n - 1] as int]);
    }
}

/// Complementing twice gives the set back.
pub proof fn law_complement_twice(s: Seq<bool>)
    ensures
        Seq::new(s.len(), |i: int| !Seq::new(s.len(), |j: int| !s[j])[i]) == s,
{
    assert(Seq::new(s.len(), |i: int| !Seq::new(s.len(), |j: int| !s[j])[i]) =~= s);
}

/// Union and intersection do not depend on the order of their operands.
pub proof fn law_union_intersection_commute(a: Seq<bool>, b: Seq<bool>, n: nat)
    ensures
        combine(a, b, n, WordOp::Union) == combine(b, a, n, WordOp::Union),
        combine(a, b, n, WordOp::Intersection) == combine(b, a, n, WordOp::Intersection),
        combine(a, b, n, WordOp::SymmetricDifference) == combine(b, a, n, WordOp::SymmetricDifference),
{
    assert(combine(a, b, n, WordOp::Union) =~= combine(b, a, n, WordOp::Union));
    assert(combine(a, b, n, WordOp::Intersection) =~= combine(b, a, n, WordOp::Intersection));
    assert(combine(a, b, n, WordOp::SymmetricDifference) =~= combine(
        b,
        a,
        n,
        WordOp::SymmetricDifference,
    ));
}

/// `a - b` is `a & !b`, and `a ^ b` is `(a | b) - (a & b)`.
pub proof fn law_difference_and_symmetric_difference(a: Seq<bool>, b: Seq<bool>, n: nat)
    ensures
        combine(a, b, n, WordOp::Difference) == combine(
            a,
            Seq::new(n, |i: int| !member(b, i)),
            n,
            WordOp::Intersection,
        ),
        combine(a, b, n, WordOp::SymmetricDifference) == combine(
            combine(a, b, n, WordOp::Union),
            combine(a, b, n, WordOp::Intersection),
            n,
            WordOp::Difference,
        ),
{
    assert(combine(a, b, n, WordOp::Difference) =~= combine(
        a,
        Seq::new(n, |i: int| !member(b, i)),
        n,
        WordOp::Intersection,
    ));
    assert(combine(a, b, n, WordOp::SymmetricDifference) =~= combine(
        combine(a, b, n, WordOp::Union),
        combine(a, b, n, WordOp::Intersection),
        n,
        WordOp::Difference,
    ));
}

/// The union of a set with another contains both, and the difference removes exactly the
/// other's elements.
pub proof fn law_union_contains_both(a: Seq<bool>, b: Seq<bool>, n: nat, i: int)
    requires
        0 <= i < n,
    ensures
        member(combine(a, b, n, WordOp::Union), i) == (member(a, i) || member(b, i)),
        member(combine(a, b, n, WordOp::Intersection), i) == (member(a, i) && member(b, i)),
        member(combine(a, b, n, WordOp::Difference), i) == (member(a, i) && !member(b, i)),
        member(combine(a, b, n, WordOp::SymmetricDifference), i) == (member(a, i) != member(b, i)),
{
}

/// `append` moves elements: afterwards each element of either set is in exactly one of
/// them, and nothing else is.
pub proof fn law_append_moves(a: Seq<bool>, b: Seq<bool>, i: int)
    ensures
        ({
            let a2 = Seq::new(a.len(), |k: int| a[k] || member(b, k));
            let b2 = Seq::new(b.len(), |k: int| b[k] && k >= a.len());
            &&& (member(a2, i) || member(b2, i)) == (member(a, i) || member(b, i))
            &&& !(member(a2, i) && member(b2, i))
        }),
{
}

/// Two sets of the same capacity that `set_eq` calls equal have the same content.
pub proof fn law_set_eq_is_equality(a: Seq<bool>, b: Seq<bool>)
    requires
        a.len() == b.len(),
    ensures
        (forall|i: int| member(a, i) == member(b, i)) <==> a == b,
{
    if forall|i: int| member(a, i) == member(b, i) {
        assert forall|i: int| 0 <= i < a.len() implies a[i] == b[i] by {
            assert(member(a, i) == member(b, i));
        }
        assert(a =~= b);
    }
}

/// For a flag declaration with mask `all`, complementing twice gives back the declared part
/// of the set.
pub proof fn law_flag_complement_twice<A: PrimStore>(all: A, s: Seq<bool>)
    requires
        s.len() == A::width(),
    ensures
        ({
            let c = Seq::new(A::width(), |i: int| all.bit(i) && !s[i]);
            Seq::new(A::width(), |i: int| all.bit(i) && !c[i]) == Seq::new(
                A::width(),
                |i: int| all.bit(i) && s[i],
            )
        }),
{
    let c = Seq::new(A::width(), |i: int| all.bit(i) && !s[i]);
    assert(Seq::new(A::width(), |i: int| all.bit(i) && !c[i]) =~= Seq::new(
        A::width(),
        |i: int| all.bit(i) && s[i],
    ));
}

/// The set of all declared flags is accepted by `is_all`.
pub proof fn law_all_is_all<A: PrimStore>(all: A)
    ensures
        forall|i: int| all.bit(i) ==> member(word_seq(all), i),
{
    assert forall|i: int| all.bit(i) implies member(word_seq(all), i) by {
        A::lemma_bit_range(all, i);
    }
}

/// Sets with the same elements have the same significant words, whatever their capacities,
/// so hashing those words agrees with `==`.
pub proof fn law_equal_sets_same_significant_words<T: PrimStore>(
    a: Seq<T>,
    b: Seq<T>,
    ra: Seq<T>,
    rb: Seq<T>,
)
    requires
        significant_run(a, ra),
        significant_run(b, rb),
        forall|i: int| member(words_view(a), i) == member(words_view(b), i),
    ensures
        ra == rb,
{
    T::lemma_width();
    // Bit `j` of word `k` is the same in both word runs.
    assert forall|k: int, j: int| 0 <= k && 0 <= j < wd::<T>() implies ((k < a.len() && a[k].bit(j))
        == (k < b.len() && b[k].bit(j))) by {
        lemma_has_bit_at(a, k, j);
        lemma_has_bit_at(b, k, j);
        let p = k * wd::<T>() + j;
        lemma_has_bit_bound(a, p);
        lemma_has_bit_bound(b, p);
        assert(has_bit(a, p) == has_bit(b, p));
    }
    if ra.len() < rb.len() {
        let k = rb.len() - 1;
        let c = choose|c: int| #[trigger] rb.last().bit(c);
        T::lemma_bit_range(rb.last(), c);
        assert(rb.last() == b[k]);
        assert((k < a.len() && a[k].bit(c)) == (k < b.len() && b[k].bit(c)));
    }
    if rb.len() < ra.len() {
        let k = ra.len() - 1;
        let c = choose|c: int| #[trigger] ra.last().bit(c);
        T::lemma_bit_range(ra.last(), c);
        assert(ra.last() == a[k]);
        assert((k < a.len() && a[k].bit(c)) == (k < b.len() && b[k].bit(c)));
    }
    assert(ra.len() == rb.len());
    assert forall|k: int| 0 <= k < ra.len() implies ra[k] == rb[k] by {
        assert(ra[k] == a[k]);
        assert(rb[k] == b[k]);
        assert forall|j: int| 0 <= j < T::width() implies a[k].bit(j) == b[k].bit(j) by {
        }
        T::lemma_ext(a[k], b[k]);
    }
    assert(ra =~= rb);
}

} // verus!
