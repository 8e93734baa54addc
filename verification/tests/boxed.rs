use bitflagset::{BitSlice, BoxedBitSet, WordOp};
use bitvec::order::Lsb0;

fn boxed(bits: usize, elems: &[usize]) -> BoxedBitSet<u64, usize> {
    let mut bs = BoxedBitSet::<u64, usize>::with_capacity(bits);
    for e in elems {
        bs.insert(*e);
    }
    bs
}

#[test]
fn boxed_test_basic() {
    let mut bs = BoxedBitSet::<u64, usize>::with_capacity(256);
    assert!(bs.is_empty());
    assert_eq!(bs.capacity(), 256);

    bs.insert(0);
    bs.insert(63);
    bs.insert(64);
    bs.insert(200);
    assert!(!bs.is_empty());
    assert_eq!(bs.len(), 4);

    assert!(bs.contains(&0));
    assert!(bs.contains(&63));
    assert!(bs.contains(&64));
    assert!(bs.contains(&200));
    assert!(!bs.contains(&1));

    assert!(bs.remove(63));
    assert!(!bs.remove(63));
    assert_eq!(bs.len(), 3);

    let items: Vec<usize> = bs.iter();
    assert_eq!(items, vec![0, 64, 200]);

    bs.clear();
    assert!(bs.is_empty());
}

fn apply_and_compare(capacity: usize, ops: &[(bool, usize)]) {
    let mut ours = BoxedBitSet::<u64, usize>::with_capacity(capacity);
    let mut bv = bitvec::vec::BitVec::<u64, Lsb0>::repeat(false, capacity);

    for &(insert, idx) in ops {
        if insert {
            ours.insert(idx);
            bv.set(idx, true);
        } else {
            ours.remove(idx);
            bv.set(idx, false);
        }
    }

    assert_eq!(ours.len(), bv.count_ones(), "len mismatch");
    assert_eq!(ours.is_empty(), bv.not_any(), "is_empty mismatch");
    for i in 0..capacity {
        assert_eq!(ours.contains(&i), bv[i], "contains mismatch at bit {i}");
    }
    let bv_bits: Vec<usize> = bv.iter_ones().collect();
    assert_eq!(ours.iter(), bv_bits, "iter mismatch");
}

fn next_rand_boxed(state: &mut u64) -> u64 {
    *state = state.wrapping_mul(6364136223846793005).wrapping_add(1442695040888963407);
    *state >> 33
}

#[test]
fn parity_with_bitvec_boxed() {
    let mut state = 3u64;
    for capacity in [1024usize, 65536] {
        let ops: Vec<(bool, usize)> = (0..200)
            .map(|_| (next_rand_boxed(&mut state) % 3 != 0, (next_rand_boxed(&mut state) as usize) % capacity))
            .collect();
        apply_and_compare(capacity, &ops);
    }
}

#[test]
fn parity_capacity_rounding() {
    for bits in [1usize, 63, 64, 65, 127, 128, 129, 1000, 4095] {
        let ours = BoxedBitSet::<u64, usize>::with_capacity(bits);
        let expected_capacity = bits.div_ceil(64) * 64;
        assert_eq!(ours.capacity(), expected_capacity, "capacity mismatch");
        assert!(ours.is_empty());
    }
    assert_eq!(BoxedBitSet::<u8, usize>::with_capacity(0).capacity(), 0);
    assert_eq!(BoxedBitSet::<u8, usize>::with_capacity(9).capacity(), 16);
}

#[test]
fn test_boundary_values() {
    let mut bs = BoxedBitSet::<u64, usize>::with_capacity(256);
    bs.insert(0);
    bs.insert(255);
    assert_eq!(bs.len(), 2);
    assert!(bs.contains(&0));
    assert!(bs.contains(&255));
    assert!(!bs.contains(&1));
    assert!(!bs.contains(&254));

    let items: Vec<usize> = bs.iter();
    assert_eq!(items, vec![0, 255]);

    assert!(bs.remove(255));
    assert!(!bs.contains(&255));
    assert_eq!(bs.len(), 1);

    let mut bs = BoxedBitSet::<u64, usize>::with_capacity(65536);
    bs.insert(0);
    bs.insert(65535);
    bs.insert(32768);
    assert_eq!(bs.len(), 3);
    assert!(bs.contains(&0));
    assert!(bs.contains(&65535));
    assert!(bs.contains(&32768));

    let items: Vec<usize> = bs.iter();
    assert_eq!(items, vec![0, 32768, 65535]);

    assert!(bs.remove(65535));
    assert!(!bs.contains(&65535));
    assert_eq!(bs.len(), 2);
}

#[test]
fn test_set_relations() {
    let a = boxed(256, &[1, 65]);
    let b = boxed(256, &[1, 65, 200]);
    let c = boxed(256, &[2, 66]);

    assert!(a.is_subset(&b));
    assert!(!b.is_subset(&a));
    assert!(b.is_superset(&a));
    assert!(a.is_disjoint(&c));
    assert!(!a.is_disjoint(&b));
}

#[test]
fn test_mismatched_capacity_relations() {
    let small = boxed(64, &[1]);
    let large = boxed(256, &[1, 200]);

    assert!(small.is_subset(&large));
    assert!(!large.is_subset(&small));

    let s2 = boxed(128, &[100]);
    let l2 = BoxedBitSet::<u64, usize>::with_capacity(64);
    assert!(!s2.is_subset(&l2));

    let empty = BoxedBitSet::<u64, usize>::with_capacity(64);
    assert!(empty.is_subset(&large));
}

#[test]
fn test_bit_operators() {
    let a = boxed(256, &[1, 100]);
    let b = boxed(256, &[100, 200]);

    let union = a.clone() | b.clone();
    assert_eq!(union.len(), 3);
    assert!(union.contains(&1));
    assert!(union.contains(&100));
    assert!(union.contains(&200));

    let intersection = a.clone() & b.clone();
    assert_eq!(intersection.len(), 1);
    assert!(intersection.contains(&100));

    let diff = a.clone() - b.clone();
    assert_eq!(diff.len(), 1);
    assert!(diff.contains(&1));

    let xor = a.clone() ^ b.clone();
    assert_eq!(xor.len(), 2);
    assert!(xor.contains(&1));
    assert!(xor.contains(&200));

    let complement = !a.clone();
    assert!(!complement.contains(&1));
    assert!(!complement.contains(&100));
    assert!(complement.contains(&0));
}

#[test]
fn test_mismatched_capacity_operators() {
    let small = boxed(64, &[1, 10]);
    let large = boxed(256, &[10, 200]);

    let union_sl = small.clone() | large.clone();
    assert_eq!(union_sl.capacity(), 256);
    assert_eq!(union_sl.len(), 3);
    assert!(union_sl.contains(&1));
    assert!(union_sl.contains(&10));
    assert!(union_sl.contains(&200));

    let union_ls = large.clone() | small.clone();
    assert_eq!(union_ls.capacity(), 256);
    assert_eq!(union_ls.len(), 3);
    assert!(union_ls.contains(&1));
    assert!(union_ls.contains(&10));
    assert!(union_ls.contains(&200));

    let xor_sl = small.clone() ^ large.clone();
    assert_eq!(xor_sl.capacity(), 256);
    assert_eq!(xor_sl.len(), 2);
    assert!(xor_sl.contains(&1));
    assert!(xor_sl.contains(&200));

    let xor_ls = large.clone() ^ small.clone();
    assert_eq!(xor_ls.capacity(), 256);
    assert_eq!(xor_ls.len(), 2);
    assert!(xor_ls.contains(&1));
    assert!(xor_ls.contains(&200));

    let and_sl = small.clone() & large.clone();
    assert_eq!(and_sl.capacity(), 64);
    assert_eq!(and_sl.len(), 1);
    assert!(and_sl.contains(&10));

    let and_ls = large.clone() & small.clone();
    assert_eq!(and_ls.capacity(), 256);
    assert_eq!(and_ls.len(), 1);
    assert!(and_ls.contains(&10));

    let sub_ls = large.clone() - small.clone();
    assert_eq!(sub_ls.len(), 1);
    assert!(sub_ls.contains(&200));

    let sub_sl = small.clone() - large.clone();
    assert_eq!(sub_sl.len(), 1);
    assert!(sub_sl.contains(&1));
}

#[test]
fn test_toggle() {
    let mut bs = boxed(256, &[10]);
    bs.toggle(10);
    assert!(!bs.contains(&10));
    bs.toggle(10);
    assert!(bs.contains(&10));
    bs.toggle(200);
    assert!(bs.contains(&200));
}

#[test]
fn test_from_iter_self() {
    let a = boxed(256, &[1]);
    let b = boxed(256, &[200]);

    let merged = BoxedBitSet::from_sets(&[a, b]);
    assert!(merged.contains(&1));
    assert!(merged.contains(&200));
    assert_eq!(merged.len(), 2);
}

#[test]
fn test_extend_self() {
    let mut bs = boxed(256, &[5]);
    let other = boxed(256, &[100]);
    bs.extend_sets(&[other]);
    assert!(bs.contains(&5));
    assert!(bs.contains(&100));
}

// ── further checks of the heap-backed contracts ──────────────

#[test]
fn boxed_from_sets_takes_largest_capacity() {
    let merged = BoxedBitSet::from_sets(&[boxed(64, &[3]), boxed(192, &[150]), boxed(128, &[70])]);
    assert_eq!(merged.capacity(), 192);
    assert_eq!(merged.iter(), vec![3, 70, 150]);
    let none: [BoxedBitSet<u64, usize>; 0] = [];
    let empty = BoxedBitSet::from_sets(&none);
    assert_eq!(empty.capacity(), 0);
    assert!(empty.is_empty());

    let mut small = boxed(64, &[1]);
    small.extend_sets(&[boxed(256, &[2, 200])]);
    assert_eq!(small.iter(), vec![1, 2]);
}

#[test]
fn boxed_words_access_and_assign_ops() {
    let mut bs = BoxedBitSet::<u8, usize>::from_words(vec![0b1, 0, 0b1000_0000]);
    assert_eq!(bs.capacity(), 24);
    assert_eq!(bs.as_raw_slice(), &[1, 0, 128]);
    bs.as_raw_mut_slice()[1] = 0b100;
    assert_eq!(bs.iter(), vec![0, 10, 23]);
    let view: &BitSlice<u8, usize> = bs.as_bit_slice();
    assert_eq!(view.len(), 3);

    let other = BoxedBitSet::<u8, usize>::from_boxed_slice(vec![0b11u8, 0].into_boxed_slice());
    let mut a = bs.clone();
    a.bitor_assign(other.clone());
    assert_eq!(a.iter(), vec![0, 1, 10, 23]);
    a.sub_assign(other.clone());
    assert_eq!(a.iter(), vec![10, 23]);
    a.bitxor_assign(other.clone());
    assert_eq!(a.iter(), vec![0, 1, 10, 23]);
    a.bitand_assign(other.clone());
    assert_eq!(a.iter(), vec![0, 1]);
    assert!(a == other);
    assert!(a != bs);

    let mut b = bs.clone();
    b.apply(&other, WordOp::SymmetricDifference);
    assert_eq!(b.iter(), vec![1, 10, 23]);
    b.invert();
    assert_eq!(b.len(), 21);
    assert_eq!(bs.duplicate().iter(), bs.iter());
}

#[test]
fn boxed_pop_drain_retain_append() {
    let mut a = boxed(128, &[3, 64, 90]);
    assert_eq!(a.first(), Some(3));
    assert_eq!(a.last(), Some(90));
    assert_eq!(a.pop_first(), Some(3));
    assert_eq!(a.pop_last(), Some(90));
    assert_eq!(a.iter(), vec![64]);

    let mut b = boxed(256, &[1, 100, 200]);
    b.retain(|p| p != 100);
    assert_eq!(b.iter(), vec![1, 200]);

    a.append(&mut b);
    assert_eq!(a.iter(), vec![1, 64]);
    assert_eq!(b.iter(), vec![200]);

    assert_eq!(a.drain(), vec![1, 64]);
    assert!(a.is_empty());
    assert_eq!(a.pop_first(), None);

    let x = boxed(128, &[5, 70]);
    let y = boxed(64, &[5, 6]);
    assert_eq!(x.union(&y), vec![5, 6, 70]);
    assert_eq!(x.intersection(&y), vec![5]);
    assert_eq!(x.difference(&y), vec![70]);
    assert_eq!(x.symmetric_difference(&y), vec![6, 70]);
    assert!(boxed(64, &[5]).set_eq(&boxed(256, &[5])));
}

#[test]
fn significant_words_ignore_capacity() {
    let a = BitSlice::<u8, usize>::from_words(vec![0b1, 0, 0b100, 0, 0]);
    assert_eq!(a.significant_words(), &[0b1, 0, 0b100]);
    let b = BitSlice::<u8, usize>::from_words(vec![0b1, 0, 0b100]);
    assert_eq!(a.significant_words(), b.significant_words());
    assert!(a == b);
    let empty = BitSlice::<u8, usize>::from_words(vec![0, 0]);
    assert!(empty.significant_words().is_empty());
}
