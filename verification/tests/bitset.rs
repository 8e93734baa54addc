use bitflagset::{ArrayBitSet, BitSet, PrimBitSetIter};
use bitvec::array::BitArray;
use bitvec::order::Lsb0;
use std::collections::hash_map::DefaultHasher;
use std::hash::{Hash, Hasher};

#[test]
fn test_size_prim() {
    assert_eq!(
        core::mem::size_of::<BitSet<u64, usize>>(),
        core::mem::size_of::<u64>()
    );
    assert_eq!(
        core::mem::size_of::<BitSet<u32, usize>>(),
        core::mem::size_of::<u32>()
    );
    assert_eq!(
        core::mem::size_of::<BitSet<u8, usize>>(),
        core::mem::size_of::<u8>()
    );
}

#[test]
fn test_prim_const_methods_at_runtime() {
    let bs = BitSet::<u64, usize>::from_bits(0xDEAD);
    assert_eq!(bs.bits(), 0xDEAD);

    let single = BitSet::<u32, usize>::from_index(10);
    assert!(single.contains(&10));
    assert_eq!(single.len(), 1);

    let multi = BitSet::<u32, usize>::from_indices(&[1, 5, 9]);
    assert!(multi.contains(&1));
    assert!(multi.contains(&5));
    assert!(multi.contains(&9));
    assert!(!multi.contains(&2));
    assert_eq!(multi.len(), 3);

    assert!(BitSet::<u64, usize>::new().is_empty());
    assert!(!multi.is_empty());

    let superset = BitSet::<u32, usize>::from_indices(&[1, 5, 9, 20]);
    let disjoint = BitSet::<u32, usize>::from_indices(&[2, 3]);
    assert!(multi.is_subset(&superset));
    assert!(!superset.is_subset(&multi));
    assert!(superset.is_superset(&multi));
    assert!(multi.is_disjoint(&disjoint));
    assert!(!multi.is_disjoint(&superset));
}

#[test]
fn prim_const_values() {
    let set = BitSet::<u64, usize>::from_indices(&[3, 7, 42]);
    let raw = BitSet::<u64, usize>::from_bits(0b1010);
    let single = BitSet::<u64, usize>::from_index(5);
    let empty = BitSet::<u64, usize>::new();
    assert!(raw.bits() == 0b1010);
    assert!(set.contains(&3));
    assert!(set.contains(&7));
    assert!(set.contains(&42));
    assert!(!set.contains(&0));
    assert!(single.contains(&5));
    assert!(!single.contains(&4));
    assert!(set.len() == 3);
    assert!(raw.len() == 2);
    assert!(single.len() == 1);
    assert!(empty.is_empty());
    assert!(!set.is_empty());
    let superset = BitSet::<u64, usize>::from_indices(&[3, 7, 42, 50]);
    let disjoint = BitSet::<u64, usize>::from_indices(&[0, 1]);
    assert!(set.is_subset(&superset));
    assert!(!superset.is_subset(&set));
    assert!(superset.is_superset(&set));
    assert!(!set.is_superset(&superset));
    assert!(set.is_disjoint(&disjoint));
    assert!(!set.is_disjoint(&superset));
    assert!(empty.is_disjoint(&set));
}

#[test]
fn test_prim_deref_methods() {
    let mut bs = BitSet::<u64, usize>::new();
    bs.insert(3);
    bs.insert(7);
    bs.insert(42);

    assert!(bs.contains(&3));
    assert!(bs.contains(&7));
    assert!(!bs.contains(&0));

    assert!(bs.remove(7));
    assert!(!bs.contains(&7));

    let items: Vec<usize> = bs.iter();
    assert!(items.contains(&3));
    assert!(items.contains(&42));

    bs.clear();
    assert!(bs.is_empty());
}

#[test]
fn test_size_array() {
    assert_eq!(
        core::mem::size_of::<BitSet<[u64; 11], usize>>(),
        core::mem::size_of::<[u64; 11]>()
    );
}

#[test]
fn bitset_test_basic() {
    let mut bs = BitSet::<[u64; 2], usize>::new();
    assert!(bs.is_empty());
    bs.set(0, true);
    bs.set(63, true);
    bs.set(64, true);
    bs.set(127, true);
    assert!(!bs.is_empty());

    let items: Vec<usize> = bs.iter();
    assert_eq!(items, vec![0, 63, 64, 127]);
}

#[test]
fn test_array_boundary_values() {
    let mut bs = BitSet::<[u64; 4], usize>::new();
    bs.insert(0);
    bs.insert(255);
    assert_eq!(bs.len(), 2);
    assert!(bs.contains(&0));
    assert!(bs.contains(&255));
    assert!(!bs.contains(&1));
    assert!(!bs.contains(&254));

    let items: Vec<usize> = bs.iter();
    assert_eq!(items, vec![0, 255]);

    assert!(bs.remove(255));
    assert!(!bs.contains(&255));
    assert_eq!(bs.len(), 1);

    let mut bs = BitSet::<[u64; 16], usize>::new();
    bs.insert(0);
    bs.insert(1023);
    bs.insert(512);
    assert_eq!(bs.len(), 3);

    let items: Vec<usize> = bs.iter();
    assert_eq!(items, vec![0, 512, 1023]);

    assert!(bs.remove(1023));
    assert!(!bs.contains(&1023));

    let mut bs = BitSet::<[u64; 4], usize>::new();
    for i in (0..256).step_by(64) {
        bs.insert(i);
    }
    for i in (63..256).step_by(64) {
        bs.insert(i);
    }
    let items: Vec<usize> = bs.iter();
    assert_eq!(items, vec![0, 63, 64, 127, 128, 191, 192, 255]);
}

#[test]
fn test_alias() {
    let mut bs = ArrayBitSet::<u64, usize, 2>::new();
    bs.set(5, true);
    bs.set(70, true);
    let items: Vec<usize> = bs.iter();
    assert_eq!(items, vec![5, 70]);
}

#[test]
fn test_bitor() {
    let a = BitSet::<[u64; 2], usize>::from_element(10);
    let b = BitSet::<[u64; 2], usize>::from_element(100);
    let c = a | b;
    let items: Vec<usize> = c.iter();
    assert_eq!(items, vec![10, 100]);
}

#[test]
fn bitset_test_array_set_relations() {
    let mut a = BitSet::<[u64; 2], usize>::new();
    a.set(1, true);
    a.set(65, true);

    let mut b = BitSet::<[u64; 2], usize>::new();
    b.set(1, true);
    b.set(65, true);
    b.set(100, true);

    let mut c = BitSet::<[u64; 2], usize>::new();
    c.set(2, true);
    c.set(66, true);

    assert!(a.is_subset(&b));
    assert!(!b.is_subset(&a));
    assert!(b.is_superset(&a));
    assert!(!a.is_superset(&b));
    assert!(a.is_disjoint(&c));
    assert!(!a.is_disjoint(&b));
}

#[test]
fn bitset_test_prim_toggle() {
    let mut bs = BitSet::<u64, usize>::new();
    bs.insert(3);
    bs.toggle(3);
    assert!(!bs.contains(&3));
    bs.toggle(3);
    assert!(bs.contains(&3));
    bs.toggle(10);
    assert!(bs.contains(&10));
}

#[test]
fn bitset_test_array_toggle() {
    let mut bs = BitSet::<[u64; 2], usize>::new();
    bs.insert(5);
    bs.insert(70);
    bs.toggle(5);
    assert!(!bs.contains(&5));
    bs.toggle(70);
    assert!(!bs.contains(&70));
    bs.toggle(100);
    assert!(bs.contains(&100));
}

#[test]
fn bitset_test_prim_format_traits() {
    let bs = BitSet::<u64, usize>::from_bits(0b1010);
    assert_eq!(format!("{:b}", bs.bits()), "1010");
    assert_eq!(format!("{:o}", bs.bits()), "12");
    assert_eq!(format!("{:x}", bs.bits()), "a");
    assert_eq!(format!("{:X}", bs.bits()), "A");
}

#[test]
fn test_prim_from_iter_self() {
    let sets = [
        BitSet::<u64, usize>::from_index(3),
        BitSet::<u64, usize>::from_index(7),
        BitSet::<u64, usize>::from_index(42),
    ];
    let merged = BitSet::<u64, usize>::from_sets(&sets);
    assert!(merged.contains(&3));
    assert!(merged.contains(&7));
    assert!(merged.contains(&42));
    assert_eq!(merged.len(), 3);
}

#[test]
fn test_prim_extend_self() {
    let mut bs = BitSet::<u64, usize>::from_index(1);
    bs.extend_sets(&[
        BitSet::<u64, usize>::from_index(5),
        BitSet::<u64, usize>::from_index(10),
    ]);
    assert!(bs.contains(&1));
    assert!(bs.contains(&5));
    assert!(bs.contains(&10));
}

#[test]
fn test_array_from_iter_self() {
    let sets = [
        BitSet::<[u64; 2], usize>::from_element(10),
        BitSet::<[u64; 2], usize>::from_element(100),
    ];
    let merged = BitSet::<[u64; 2], usize>::from_sets(&sets);
    assert!(merged.contains(&10));
    assert!(merged.contains(&100));
    assert_eq!(merged.len(), 2);
}

#[test]
fn test_array_extend_self() {
    let mut bs = BitSet::<[u64; 2], usize>::from_element(5);
    bs.extend_sets(&[BitSet::<[u64; 2], usize>::from_element(70)]);
    assert!(bs.contains(&5));
    assert!(bs.contains(&70));
}

#[test]
fn test_iter_size_hint_and_count_remaining() {
    let mut bs = BitSet::<[u64; 2], usize>::new();
    bs.insert(1);
    bs.insert(3);
    bs.insert(64);
    bs.insert(100);

    let mut iter = bs.iter().into_iter();
    assert_eq!(iter.size_hint(), (4, Some(4)));
    assert_eq!(iter.next(), Some(1));
    assert_eq!(iter.size_hint(), (3, Some(3)));
    assert_eq!(iter.next(), Some(3));
    assert_eq!(iter.size_hint(), (2, Some(2)));
    assert_eq!(iter.count(), 2);
}

#[test]
fn test_retain() {
    let mut bs = BitSet::<[u64; 2], usize>::new();
    for i in [1, 3, 5, 64, 66, 100] {
        bs.insert(i);
    }
    bs.retain(|v| v % 2 == 0);
    let items: Vec<usize> = bs.iter();
    assert_eq!(items, vec![64, 66, 100]);
}

#[test]
fn bitset_test_prim_retain() {
    let mut bs = BitSet::<u64, usize>::new();
    for i in [0, 1, 2, 3, 4, 5] {
        bs.insert(i);
    }
    bs.retain(|v| v >= 3);
    let items: Vec<usize> = bs.iter();
    assert_eq!(items, vec![3, 4, 5]);
}

#[test]
fn test_drain_slice() {
    let mut bs = BitSet::<[u64; 2], usize>::new();
    bs.insert(1);
    bs.insert(65);
    bs.insert(100);

    let items: Vec<usize> = bs.drain();
    assert_eq!(items, vec![1, 65, 100]);
    assert!(bs.is_empty());
}

#[test]
fn test_drain_drop_clears() {
    let mut bs = BitSet::<[u64; 2], usize>::new();
    bs.insert(1);
    bs.insert(65);
    bs.insert(100);

    let mut drain = bs.drain().into_iter();
    assert_eq!(drain.next(), Some(1));
    drop(drain);
    assert!(bs.is_empty());
}

#[test]
fn test_append() {
    let mut a = BitSet::<[u64; 2], usize>::new();
    a.insert(1);
    a.insert(65);

    let mut b = BitSet::<[u64; 2], usize>::new();
    b.insert(2);
    b.insert(65);
    b.insert(100);

    a.append(&mut b);
    assert_eq!(a.len(), 4);
    assert!(a.contains(&1));
    assert!(a.contains(&2));
    assert!(a.contains(&65));
    assert!(a.contains(&100));
    assert!(b.is_empty());
}

fn sample_pair() -> (BitSet<[u64; 2], usize>, BitSet<[u64; 2], usize>) {
    let mut a = BitSet::<[u64; 2], usize>::new();
    a.insert(1);
    a.insert(5);
    a.insert(65);

    let mut b = BitSet::<[u64; 2], usize>::new();
    b.insert(5);
    b.insert(10);
    b.insert(65);
    (a, b)
}

#[test]
fn test_difference() {
    let (a, b) = sample_pair();
    let diff: Vec<usize> = a.difference(&b);
    assert_eq!(diff, vec![1]);
}

#[test]
fn test_intersection() {
    let (a, b) = sample_pair();
    let inter: Vec<usize> = a.intersection(&b);
    assert_eq!(inter, vec![5, 65]);
}

#[test]
fn test_union_iter() {
    let mut a = BitSet::<[u64; 2], usize>::new();
    a.insert(1);
    a.insert(5);

    let mut b = BitSet::<[u64; 2], usize>::new();
    b.insert(5);
    b.insert(70);

    let uni: Vec<usize> = a.union(&b);
    assert_eq!(uni, vec![1, 5, 70]);
}

#[test]
fn test_symmetric_difference() {
    let (a, b) = sample_pair();
    let sym_diff: Vec<usize> = a.symmetric_difference(&b);
    assert_eq!(sym_diff, vec![1, 10]);
}

#[test]
fn test_array_into_iter_owned() {
    let mut bs = BitSet::<[u64; 2], usize>::new();
    bs.insert(5);
    bs.insert(70);
    bs.insert(100);
    let items: Vec<usize> = bs.into_iter();
    assert_eq!(items, vec![5, 70, 100]);
}

#[test]
fn test_array_into_iter_for_loop() {
    let mut bs = BitSet::<[u64; 2], usize>::new();
    bs.insert(3);
    bs.insert(64);
    let mut result = Vec::new();
    for item in bs.into_iter() {
        result.push(item);
    }
    assert_eq!(result, vec![3, 64]);
}

// ── further checks of the single-word and array contracts ────

fn next_rand_bitset(state: &mut u64) -> u64 {
    *state = state.wrapping_mul(6364136223846793005).wrapping_add(1442695040888963407);
    *state >> 33
}

#[test]
fn flag_set_iter_sorted_dedup() {
    let mut state = 7u64;
    for bits in [32usize, 64] {
        let indexes: Vec<usize> = (0..100).map(|_| (next_rand_bitset(&mut state) as usize) % bits).collect();
        let mut expected = indexes.clone();
        expected.sort_unstable();
        expected.dedup();
        if bits == 32 {
            let mut flags = BitSet::<u32, usize>::new();
            for idx in indexes.iter() {
                flags.set(*idx, true);
            }
            assert_eq!(flags.drain(), expected);
            assert!(flags.is_empty());
        } else {
            let mut flags = BitSet::<u64, usize>::new();
            for idx in indexes.iter() {
                flags.set(*idx, true);
            }
            assert_eq!(flags.drain(), expected);
            assert!(flags.is_empty());
        }
    }
}

#[test]
fn parity_with_bitvec_array() {
    let mut state = 99u64;
    let mut ours = BitSet::<[u64; 16], usize>::new();
    let mut bv = BitArray::<[u64; 16], Lsb0>::ZERO;
    for _ in 0..400 {
        let insert = next_rand_bitset(&mut state) % 3 != 0;
        let idx = (next_rand_bitset(&mut state) as usize) % 1024;
        if insert {
            ours.insert(idx);
            bv.set(idx, true);
        } else {
            ours.remove(idx);
            bv.set(idx, false);
        }
    }
    assert_eq!(ours.len(), bv.count_ones());
    assert_eq!(ours.is_empty(), bv.not_any());
    for i in 0..1024 {
        assert_eq!(ours.contains(&i), bv[i]);
    }
    let bv_bits: Vec<usize> = bv.iter_ones().collect();
    assert_eq!(ours.iter(), bv_bits);
    assert_eq!(ours.first(), bv.first_one());
    assert_eq!(ours.last(), bv.last_one());
}

#[test]
fn prim_operators_and_not() {
    let a = BitSet::<u64, usize>::from_indices(&[1, 4, 9]);
    let b = BitSet::<u64, usize>::from_indices(&[4, 9, 15]);
    assert_eq!((a | b).iter(), vec![1, 4, 9, 15]);
    assert_eq!((a & b).iter(), vec![4, 9]);
    assert_eq!((a ^ b).iter(), vec![1, 15]);
    assert_eq!((a - b).iter(), vec![1]);
    let c = !a;
    assert_eq!(c.len(), 61);
    assert!(!c.contains(&1));
    assert!(c.contains(&0));
    assert_eq!((!c).bits(), a.bits());

    let mut d = a;
    d.bitor_assign(b);
    assert_eq!(d.bits(), (a | b).bits());
    d.sub_assign(b);
    assert_eq!(d.iter(), vec![1]);
    d.bitxor_assign(b);
    assert_eq!(d.iter(), vec![1, 4, 9, 15]);
    d.bitand_assign(a);
    assert_eq!(d.bits(), a.bits());
}

#[test]
fn array_operators_and_not() {
    let a = BitSet::<[u8; 2], usize>::from_elements(&[1, 8, 15, 16, 99]);
    let b = BitSet::<[u8; 2], usize>::from_elements(&[8, 9]);
    assert_eq!(a.iter(), vec![1, 8, 15]);
    assert_eq!((a | b).iter(), vec![1, 8, 9, 15]);
    assert_eq!((a & b).iter(), vec![8]);
    assert_eq!((a ^ b).iter(), vec![1, 9, 15]);
    assert_eq!((a - b).iter(), vec![1, 15]);
    let n = !a;
    assert_eq!(n.len(), 13);
    assert!(!n.contains(&8));
    assert!(n.set_eq(&(!(!n))));
    let mut m = a;
    m.extend(&[2, 3, 200]);
    assert_eq!(m.iter(), vec![1, 2, 3, 8, 15]);
}

#[test]
fn prim_first_last_pop_and_iter() {
    let mut bs = BitSet::<u16, usize>::from_indices(&[2, 7, 15]);
    assert_eq!(bs.capacity(), 16);
    assert_eq!(bs.first(), Some(2));
    assert_eq!(bs.last(), Some(15));
    assert_eq!(bs.pop_first(), Some(2));
    assert_eq!(bs.pop_last(), Some(15));
    assert_eq!(bs.iter(), vec![7]);
    let mut it: PrimBitSetIter<u16, usize> = bs.into_iter();
    assert_eq!(it.len(), 1);
    assert_eq!(it.next(), Some(7));
    assert_eq!(it.next(), None);
    assert!(it.is_empty());
    assert_eq!(bs.pop_first(), Some(7));
    assert_eq!(bs.pop_first(), None);
    assert_eq!(bs.pop_last(), None);
    assert_eq!(bs.first(), None);
}

#[test]
fn prim_out_of_range_is_ignored() {
    let mut bs = BitSet::<u8, usize>::new();
    assert!(!bs.insert(8));
    assert!(!bs.contains(&8));
    assert!(!bs.remove(8));
    bs.set(9, true);
    bs.toggle(100);
    assert!(bs.is_empty());
    assert!(BitSet::<u8, usize>::from_element(8).is_empty());
    assert_eq!(BitSet::<u8, usize>::from_elements(&[3, 8, 300]).iter(), vec![3]);
}

#[test]
fn prim_store_access() {
    let mut bs = BitSet::<u32, usize>::from_bits(0b1001);
    assert_eq!(*bs.as_bits(), 0b1001);
    assert_eq!(bs.load_store(), 0b1001);
    let mut other = 0b0110u32;
    bs.swap_store(&mut other);
    assert_eq!(other, 0b1001);
    assert_eq!(bs.bits(), 0b0110);
    bs.mut_store(|w| w << 1);
    assert_eq!(bs.bits(), 0b1100);
    bs.union_from(0b1);
    assert_eq!(bs.bits(), 0b1101);
    assert_eq!(bs.union(&0b10).bits(), 0b1111);
    assert_eq!(bs.difference(&0b100).bits(), 0b1001);
    assert_eq!(bs.into_bits(), 0b1101);
}

#[test]
fn array_words_access() {
    let mut bs = BitSet::<[u8; 3], usize>::from_bits([1, 0, 128]);
    assert_eq!(bs.capacity(), 24);
    assert_eq!(bs.iter(), vec![0, 23]);
    assert_eq!(bs.as_slice(), &[1, 0, 128]);
    assert_eq!(bs.raw_words(), &[1, 0, 128]);
    bs.as_mut_slice()[1] = 0b10;
    assert_eq!(bs.iter(), vec![0, 9, 23]);
    assert_eq!(*bs.as_bits(), [1, 2, 128]);
    assert_eq!(bs.into_bits(), [1, 2, 128]);
    assert!(BitSet::<[u8; 3], usize>::empty().is_empty());
}

#[test]
fn bitset_eq_ord_hash_follow_the_words() {
    let a = BitSet::<u64, usize>::from_bits(0b101);
    let b = BitSet::<u64, usize>::from_indices(&[0, 2]);
    assert_eq!(a, b);
    assert!(BitSet::<u64, usize>::from_bits(3) < BitSet::<u64, usize>::from_bits(4));
    let mut ha = DefaultHasher::new();
    a.hash(&mut ha);
    let mut hb = DefaultHasher::new();
    0b101u64.hash(&mut hb);
    assert_eq!(ha.finish(), hb.finish());

    let x = BitSet::<[u8; 2], usize>::from_bits([1, 2]);
    let y = BitSet::<[u8; 2], usize>::from_bits([1, 3]);
    assert!(x < y);
    assert_ne!(x, y);
}

#[test]
fn bitset_default_is_empty() {
    let a: BitSet<u32, usize> = Default::default();
    assert!(a.is_empty());
    assert_eq!(a.capacity(), 32);
    let b: BitSet<[u8; 4], usize> = Default::default();
    assert!(b.is_empty());
    assert_eq!(b.capacity(), 32);
}
