use bitflagset::{BitSet, BoxedBitSet, Flag, FlagDecl, FlagSet};

type Arr = BitSet<[u16; 3], usize>;

fn arr(elems: &[usize]) -> Arr {
    Arr::from_elements(elems)
}

#[test]
fn law_insert_contains_and_remove_restore() {
    let before = arr(&[4, 20, 33]);
    let mut s = before;
    assert!(s.insert(9));
    assert!(s.contains(&9));
    assert_eq!(s.iter(), vec![4, 9, 20, 33]);
    assert!(s.remove(9));
    assert!(!s.contains(&9));
    assert!(s.set_eq(&before));

    let mut t = before;
    assert!(t.remove(20));
    assert!(t.insert(20));
    assert!(t.set_eq(&before));
}

#[test]
fn law_toggle_twice_restores() {
    let before = arr(&[0, 47]);
    let mut s = before;
    for p in [0usize, 5, 47] {
        s.toggle(p);
        s.toggle(p);
    }
    assert!(s.set_eq(&before));
}

#[test]
fn law_len_tracks_insert_and_remove() {
    let mut s = arr(&[1, 2]);
    assert_eq!(s.len(), 2);
    assert!(s.insert(40));
    assert_eq!(s.len(), 3);
    assert!(!s.insert(40));
    assert_eq!(s.len(), 3);
    assert!(s.remove(1));
    assert_eq!(s.len(), 2);
    assert!(!s.remove(1));
    assert_eq!(s.len(), 2);
}

#[test]
fn law_iter_is_sorted_members_and_counts_len() {
    let s = arr(&[47, 3, 16, 3, 15]);
    let items = s.iter();
    assert_eq!(items, vec![3, 15, 16, 47]);
    assert_eq!(items.len(), s.len());
    for p in 0..48 {
        assert_eq!(items.contains(&p), s.contains(&p));
    }
}

#[test]
fn law_empty_iff_len_zero() {
    let mut s = arr(&[7]);
    assert!(!s.is_empty());
    assert_ne!(s.len(), 0);
    s.remove(7);
    assert!(s.is_empty());
    assert_eq!(s.len(), 0);
}

#[test]
fn law_first_and_last_bound_iter() {
    let s = arr(&[5, 18, 40]);
    let items = s.iter();
    assert_eq!(s.first(), items.first().copied());
    assert_eq!(s.last(), items.last().copied());
    let mut p = s;
    assert_eq!(p.pop_first(), Some(items[0]));
    assert_eq!(p.pop_last(), Some(items[items.len() - 1]));
}

#[test]
fn law_complement_twice() {
    let s = arr(&[0, 17, 47]);
    let twice = !(!s);
    assert!(twice.set_eq(&s));
    assert_eq!((!s).len(), 48 - 3);
}

#[test]
fn law_operators_commute_and_decompose() {
    let a = arr(&[1, 2, 30]);
    let b = arr(&[2, 3, 31]);
    assert!((a | b).set_eq(&(b | a)));
    assert!((a & b).set_eq(&(a & b)));
    assert!((a ^ b).set_eq(&(b ^ a)));
    assert!((a - b).set_eq(&(a & !b)));
    assert!((a ^ b).set_eq(&((a | b) - (a & b))));
    for p in 0..48 {
        assert_eq!((a | b).contains(&p), a.contains(&p) || b.contains(&p));
        assert_eq!((a & b).contains(&p), a.contains(&p) && b.contains(&p));
        assert_eq!((a - b).contains(&p), a.contains(&p) && !b.contains(&p));
        assert_eq!((a ^ b).contains(&p), a.contains(&p) != b.contains(&p));
    }
}

#[test]
fn law_append_moves_without_loss() {
    let mut a = BoxedBitSet::<u8, usize>::with_capacity(16);
    a.insert(1);
    let mut b = BoxedBitSet::<u8, usize>::with_capacity(32);
    b.insert(1);
    b.insert(9);
    b.insert(25);
    let before: Vec<usize> = {
        let mut v = a.union(&b);
        v.sort_unstable();
        v
    };
    a.append(&mut b);
    let mut after = a.iter();
    after.extend(b.iter());
    after.sort_unstable();
    assert_eq!(after, before);
    assert!(a.is_disjoint(&b));
}

#[test]
fn law_set_eq_across_capacities() {
    let mut small = BoxedBitSet::<u8, usize>::with_capacity(8);
    small.insert(3);
    let mut large = BoxedBitSet::<u8, usize>::with_capacity(64);
    large.insert(3);
    assert!(small.set_eq(&large));
    large.insert(40);
    assert!(!small.set_eq(&large));
}

#[test]
fn law_flag_complement_twice_and_all() {
    let decl = FlagDecl::<u8>::new(vec![Flag::new("A", 0u8), Flag::new("B", 3u8)]);
    let s = FlagSet::<u8>::from_bits_retain(0b1100_1001);
    assert_eq!(decl.complement(decl.complement(s)), decl.from_bits_truncate(s.bits()));
    assert!(decl.is_all(&decl.all()));
    assert_eq!(decl.unknown_bits(&s), 0b1100_0000);
}
