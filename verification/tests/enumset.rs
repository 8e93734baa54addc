use bitflagset::{AtomicFlagSet, BitFlagSet, Flag, FlagDecl, FlagSet, PopAttempt};
use std::sync::atomic::AtomicU8;

#[derive(Debug, Clone, Copy, PartialEq, Eq)]
enum Color {
    Red,
    Green,
    Blue,
}

const COLORS: [Color; 3] = [Color::Red, Color::Green, Color::Blue];

fn color_decl() -> FlagDecl<u8> {
    FlagDecl::new(vec![
        Flag::new("Red", 0u8),
        Flag::new("Green", 1u8),
        Flag::new("Blue", 2u8),
    ])
}

impl TryFrom<u8> for Color {
    type Error = ();

    fn try_from(v: u8) -> Result<Self, ()> {
        match color_decl().position_of(v) {
            Some(k) => Ok(COLORS[k]),
            None => Err(()),
        }
    }
}

fn pos(c: Color) -> u8 {
    c as u8
}

fn color_set(cs: &[Color]) -> FlagSet<u8> {
    let positions: Vec<u8> = cs.iter().map(|c| pos(*c)).collect();
    FlagSet::from_slice(&positions)
}

fn named_colors(decl: &FlagDecl<u8>, set: &FlagSet<u8>) -> Vec<(&'static str, Color)> {
    decl.iter_names(set)
        .into_iter()
        .map(|(n, p)| (n, Color::try_from(p).unwrap()))
        .collect()
}

const READ: u8 = 0;
const WRITE: u8 = 1;
const EXEC: u8 = 2;

fn perms_decl() -> FlagDecl<u8> {
    FlagDecl::new(vec![
        Flag::new("READ", READ),
        Flag::new("WRITE", WRITE),
        Flag::new("EXEC", EXEC),
    ])
}

fn rw() -> FlagSet<u8> {
    FlagSet::from_slice(&[READ, WRITE])
}

fn pop_first_atomic(set: &AtomicFlagSet<AtomicU8>) -> Option<u8> {
    loop {
        match set.try_pop_first() {
            PopAttempt::Empty => return None,
            PopAttempt::Taken(p) => return Some(p as u8),
            PopAttempt::Lost => {}
        }
    }
}

fn pop_last_atomic(set: &AtomicFlagSet<AtomicU8>) -> Option<u8> {
    loop {
        match set.try_pop_last() {
            PopAttempt::Empty => return None,
            PopAttempt::Taken(p) => return Some(p as u8),
            PopAttempt::Lost => {}
        }
    }
}

// ── enum form ────────────────────────────────────────────────

#[test]
fn flags_list() {
    let decl = color_decl();
    let flags = decl.flags();
    assert_eq!(flags.len(), 3);
    assert_eq!(flags[0].name(), "Red");
    assert_eq!(flags[1].name(), "Green");
    assert_eq!(flags[2].name(), "Blue");
    assert_eq!(*flags[0].value(), pos(Color::Red));
}

#[test]
fn as_u8_and_as_usize() {
    assert_eq!(pos(Color::Red), 0);
    assert_eq!(pos(Color::Green), 1);
    assert_eq!(pos(Color::Blue) as usize, 2);
}

#[test]
fn mask() {
    assert_eq!(FlagSet::<u8>::from_element(pos(Color::Red)).bits(), 0b001u8);
    assert_eq!(FlagSet::<u8>::from_element(pos(Color::Green)).bits(), 0b010u8);
    assert_eq!(FlagSet::<u8>::from_element(pos(Color::Blue)).bits(), 0b100u8);
}

#[test]
fn mask_bitwise() {
    let store: u8 = 0b101;
    assert!(store & FlagSet::<u8>::from_element(pos(Color::Red)).bits() != 0);
    assert!(store & FlagSet::<u8>::from_element(pos(Color::Green)).bits() == 0);
    assert!(store & FlagSet::<u8>::from_element(pos(Color::Blue)).bits() != 0);
}

#[test]
fn try_from_u8() {
    assert_eq!(Color::try_from(0), Ok(Color::Red));
    assert_eq!(Color::try_from(1), Ok(Color::Green));
    assert_eq!(Color::try_from(2), Ok(Color::Blue));
    assert!(Color::try_from(3).is_err());
    assert!(Color::try_from(255).is_err());
}

#[test]
fn from_color_for_u8() {
    assert_eq!(u8::from(pos(Color::Red)), 0);
    assert_eq!(u8::from(pos(Color::Green)), 1);
    assert_eq!(u8::from(pos(Color::Blue)), 2);
}

#[test]
fn with_bitflagset() {
    let mut set = color_set(&[Color::Red, Color::Blue]);
    assert!(set.contains(&pos(Color::Red)));
    assert!(!set.contains(&pos(Color::Green)));
    set.insert(pos(Color::Green));
    assert_eq!(set.len(), 3);
}

#[test]
fn bitflagset_all_complement() {
    let decl = color_decl();
    let all = decl.all();
    assert_eq!(all.len(), 3);
    assert!(decl.is_exactly_all(&all));
    assert!(all.contains(&pos(Color::Red)));
    assert!(all.contains(&pos(Color::Green)));
    assert!(all.contains(&pos(Color::Blue)));

    let r = color_set(&[Color::Red]);
    let comp = decl.complement(r);
    assert!(!comp.contains(&pos(Color::Red)));
    assert!(comp.contains(&pos(Color::Green)));
    assert!(comp.contains(&pos(Color::Blue)));
}

#[test]
fn bitflagset_not_truncated() {
    let decl = color_decl();
    let r = color_set(&[Color::Red]);
    let not_r = decl.complement(r);
    assert_eq!(not_r.len(), 2);
    assert!(!not_r.contains(&pos(Color::Red)));
    assert!(not_r.contains(&pos(Color::Green)));
    assert!(not_r.contains(&pos(Color::Blue)));
}

#[test]
fn bitflagset_toggle() {
    let mut set = color_set(&[Color::Red]);
    set.toggle(pos(Color::Green));
    assert!(set.contains(&pos(Color::Green)));
    set.toggle(pos(Color::Red));
    assert!(!set.contains(&pos(Color::Red)));
}

#[test]
fn bitflagset_format_traits() {
    let set = FlagSet::<u8>::from_bits_retain(0b101);
    assert_eq!(format!("{:b}", set.bits()), "101");
    assert_eq!(format!("{:o}", set.bits()), "5");
    assert_eq!(format!("{:x}", set.bits()), "5");
    assert_eq!(format!("{:X}", set.bits()), "5");
}

#[test]
fn bitflagset_iter_names() {
    let decl = color_decl();
    let set = color_set(&[Color::Red, Color::Blue]);
    let names = named_colors(&decl, &set);
    assert_eq!(names, [("Red", Color::Red), ("Blue", Color::Blue)]);
}

#[test]
fn bitflagset_retain() {
    let decl = color_decl();
    let mut set = color_set(&[Color::Red, Color::Green, Color::Blue]);
    set.retain(|c| c != pos(Color::Green));
    assert!(set.contains(&pos(Color::Red)));
    assert!(!set.contains(&pos(Color::Green)));
    assert!(set.contains(&pos(Color::Blue)));
    assert_eq!(set.len(), 2);

    let mut all = decl.all();
    all.retain(|_| true);
    assert_eq!(all.len(), 3);

    let mut all2 = decl.all();
    all2.retain(|_| false);
    assert!(all2.is_empty());
}

#[test]
fn bitflagset_api_coverage() {
    let decl = color_decl();
    let mut set = decl.from_bits(0b111).unwrap();
    assert!(decl.is_exactly_all(&set));
    set.set(pos(Color::Red), false);
    assert!(!set.contains(&pos(Color::Red)));
    set.toggle(pos(Color::Red));
    assert!(set.contains(&pos(Color::Red)));
    set.clear();
    assert!(set.is_empty());
    assert_eq!(decl.from_bits_truncate(0xFF), decl.all());
    let unchecked = FlagSet::<u8>::from_bits_retain(0b001);
    assert!(unchecked.contains(&pos(Color::Red)));
}

#[test]
fn auto_discriminants() {
    let decl = FlagDecl::<u8>::new(vec![
        Flag::new("Circle", 0u8),
        Flag::new("Square", 1u8),
        Flag::new("Triangle", 2u8),
    ]);
    assert_eq!(*decl.flags()[0].value(), 0);
    assert_eq!(*decl.flags()[1].value(), 1);
    assert_eq!(*decl.flags()[2].value(), 2);
    assert_eq!(decl.flags().len(), 3);
    assert_eq!(decl.flags()[0].name(), "Circle");

    let mut set = FlagSet::<u8>::from_element(0);
    set.insert(2);
    assert!(set.contains(&0));
    assert!(!set.contains(&1));
    assert!(set.contains(&2));
    assert_eq!(set.len(), 2);
}

#[test]
fn flags_bits_roundtrip() {
    let set = color_set(&[Color::Red, Color::Blue]);
    let bits = set.bits();
    assert_eq!(FlagSet::<u8>::from_bits_retain(bits), set);
}

#[test]
fn flags_from_bits_validates() {
    let decl = color_decl();
    let all_bits = (1u8 << 0) | (1u8 << 1) | (1u8 << 2);
    assert!(decl.from_bits(all_bits).is_some());
    assert!(decl.from_bits(1u8 << 7).is_none());
}

#[test]
fn enumset_flags_all_empty() {
    let decl = color_decl();
    let all = decl.all();
    assert!(all.contains(&pos(Color::Red)));
    assert!(all.contains(&pos(Color::Green)));
    assert!(all.contains(&pos(Color::Blue)));
    assert_eq!(all.len(), 3);
    let empty = FlagSet::<u8>::empty();
    assert!(empty.is_empty());

    let perms = perms_decl().all();
    assert_eq!(perms.len(), 3);
    assert!(FlagSet::<u8>::empty().is_empty());
}

#[test]
fn enumset_flags_complement() {
    let decl = color_decl();
    let comp = decl.complement(color_set(&[Color::Red]));
    assert!(!comp.contains(&pos(Color::Red)));
    assert!(comp.contains(&pos(Color::Green)));
    assert!(comp.contains(&pos(Color::Blue)));

    let comp = perms_decl().complement(FlagSet::from_element(READ));
    assert!(!comp.contains(&READ));
    assert!(comp.contains(&WRITE));
    assert!(comp.contains(&EXEC));
}

#[test]
fn enumset_flags_insert_remove() {
    let mut set = FlagSet::<u8>::empty();
    set.bitor_assign(color_set(&[Color::Green]));
    assert!(set.contains(&pos(Color::Green)));
    set.sub_assign(color_set(&[Color::Green]));
    assert!(!set.contains(&pos(Color::Green)));

    let mut set = FlagSet::<u8>::empty();
    set.bitor_assign(FlagSet::from_element(WRITE));
    assert!(set.contains(&WRITE));
    set.sub_assign(FlagSet::from_element(WRITE));
    assert!(!set.contains(&WRITE));
}

#[test]
fn inherent_api_coverage() {
    let decl = color_decl();
    let mut set = decl.from_bits(0b111).unwrap();
    assert!(decl.is_exactly_all(&set));
    set.set(pos(Color::Blue), false);
    set.toggle(pos(Color::Blue));
    set.clear();
    assert!(set.is_empty());
    assert_eq!(decl.from_bits_truncate(0xFF), decl.all());
    let unchecked = FlagSet::<u8>::from_bits_retain(0b001);
    assert!(unchecked.contains(&pos(Color::Red)));
    let _ = decl.iter_names(&color_set(&[Color::Red, Color::Blue])).len();
}

// ── position form ────────────────────────────────────────────

#[test]
fn basic_constants() {
    assert_eq!(READ, 0u8);
    assert_eq!(WRITE, 1u8);
    assert_eq!(EXEC, 2u8);
    assert_eq!(rw().bits(), 0b0011);
}

#[test]
fn all_and_empty() {
    let decl = perms_decl();
    let all = decl.all();
    assert!(all.contains(&READ));
    assert!(all.contains(&WRITE));
    assert!(all.contains(&EXEC));
    assert!(decl.is_all(&all));
    assert_eq!(all.bits(), 0b0111);

    let empty = FlagSet::<u8>::empty();
    assert!(empty.is_empty());
    assert_eq!(empty.len(), 0);
    assert!(!decl.is_all(&empty));
}

#[test]
fn contains_insert_remove() {
    let mut p = FlagSet::<u8>::empty();

    assert!(p.insert(READ));
    assert!(p.contains(&READ));
    assert!(!p.insert(READ));

    assert!(p.insert(WRITE));
    assert_eq!(p, rw());

    assert!(p.remove(WRITE));
    assert!(!p.contains(&WRITE));
    assert!(!p.remove(WRITE));
    assert!(p.contains(&READ));

    p.set(EXEC, true);
    assert!(p.contains(&EXEC));
    p.set(EXEC, false);
    assert!(!p.contains(&EXEC));

    p.clear();
    assert!(p.is_empty());
}

#[test]
fn from_element_and_from_slice() {
    let r = FlagSet::<u8>::from_element(READ);
    assert!(r.contains(&READ));
    assert!(!r.contains(&WRITE));

    assert!(rw().contains(&READ));
    assert!(rw().contains(&WRITE));
    assert!(!rw().contains(&EXEC));
}

#[test]
fn set_algebra() {
    let re = FlagSet::<u8>::from_slice(&[READ, EXEC]);

    assert!(FlagSet::<u8>::from_element(READ).is_subset(&rw()));
    assert!(!FlagSet::<u8>::from_element(EXEC).is_subset(&rw()));
    assert!(rw().is_superset(&FlagSet::from_element(READ)));
    assert!(!rw().is_disjoint(&re));
    assert!(FlagSet::<u8>::from_element(WRITE).is_disjoint(&FlagSet::from_element(EXEC)));
}

#[test]
fn complement() {
    let decl = perms_decl();
    let r = FlagSet::<u8>::from_element(READ);
    let comp = decl.complement(r);
    assert!(!comp.contains(&READ));
    assert!(comp.contains(&WRITE));
    assert!(comp.contains(&EXEC));

    let rw_comp = decl.complement(rw());
    assert_eq!(rw_comp, FlagSet::from_element(EXEC));
}

#[test]
fn operators() {
    let a = rw();
    let b = FlagSet::<u8>::from_slice(&[WRITE, EXEC]);

    assert_eq!((a | b).bits(), 0b0111);
    assert_eq!((a & b).bits(), 0b0010);
    assert_eq!((a ^ b).bits(), 0b0101);
    assert_eq!((a - b).bits(), 0b0001);

    let mut c = FlagSet::<u8>::from_element(READ);
    c.bitor_assign(FlagSet::from_element(WRITE));
    assert_eq!(c, rw());
    c.bitand_assign(FlagSet::from_element(READ));
    assert_eq!(c, FlagSet::from_element(READ));
}

#[test]
fn iter_and_collect() {
    let items: Vec<u8> = rw().iter();
    assert_eq!(items, vec![READ, WRITE]);

    let collected = FlagSet::<u8>::from_slice(&items);
    assert_eq!(collected, rw());
}

#[test]
fn into_iterator() {
    let flags = FlagSet::<u8>::from_slice(&[READ, EXEC]);
    let items: Vec<u8> = flags.iter();
    assert_eq!(items, vec![READ, EXEC]);
}

#[test]
fn extend() {
    let mut p = FlagSet::<u8>::from_element(READ);
    p.extend(&[WRITE, EXEC]);
    assert_eq!(p, perms_decl().all());
}

#[test]
fn from_bits_variants() {
    let decl = perms_decl();
    assert_eq!(decl.from_bits(0b0011), Some(rw()));
    assert_eq!(decl.from_bits(0b0111), Some(decl.all()));
    assert_eq!(decl.from_bits(0b1000), None);

    assert_eq!(FlagSet::<u8>::from_bits_retain(0xFF).bits(), 0xFF);
    assert_eq!(decl.from_bits_truncate(0xFF), decl.all());
}

#[test]
fn len_counting() {
    assert_eq!(FlagSet::<u8>::empty().len(), 0);
    assert_eq!(FlagSet::<u8>::from_element(READ).len(), 1);
    assert_eq!(rw().len(), 2);
    assert_eq!(perms_decl().all().len(), 3);
}

#[test]
fn toggle() {
    let mut p = FlagSet::<u8>::from_element(READ);
    p.toggle(WRITE);
    assert!(p.contains(&WRITE));
    assert!(p.contains(&READ));
    p.toggle(READ);
    assert!(!p.contains(&READ));
    assert!(p.contains(&WRITE));
}

#[test]
fn not_truncated() {
    let r = FlagSet::<u8>::from_element(READ);
    let not_r = perms_decl().complement(r);
    assert_eq!(not_r.len(), 2);
    assert!(!not_r.contains(&READ));
    assert!(not_r.contains(&WRITE));
    assert!(not_r.contains(&EXEC));
    assert_eq!(not_r.bits(), 0b110);
}

#[test]
fn iter_names() {
    let decl = perms_decl();
    let names = decl.iter_names(&rw());
    assert_eq!(names, [("READ", READ), ("WRITE", WRITE)]);

    let empty_names = decl.iter_names(&FlagSet::empty());
    assert!(empty_names.is_empty());
}

#[test]
fn from_iter_self() {
    let sets = [FlagSet::<u8>::from_element(READ), FlagSet::from_element(EXEC)];
    let merged = FlagSet::from_sets(&sets);
    assert!(merged.contains(&READ));
    assert!(merged.contains(&EXEC));
    assert!(!merged.contains(&WRITE));
}

#[test]
fn extend_self() {
    let mut p = FlagSet::<u8>::from_element(READ);
    p.extend_sets(&[FlagSet::from_element(WRITE), FlagSet::from_element(EXEC)]);
    assert_eq!(p, perms_decl().all());
}

#[test]
fn format_traits() {
    let p = rw();
    assert_eq!(format!("{:b}", p.bits()), "11");
    assert_eq!(format!("{:o}", p.bits()), "3");
    assert_eq!(format!("{:x}", p.bits()), "3");
    assert_eq!(format!("{:X}", p.bits()), "3");
}

#[test]
fn out_of_range_position_is_ignored_in_release() {
    let mut p = FlagSet::<u8>::empty();
    assert_eq!(FlagSet::<u8>::from_element(8), FlagSet::empty());
    assert_eq!(FlagSet::<u8>::from_slice(&[READ, 8]), FlagSet::from_element(READ));
    assert!(!p.contains(&8));
    assert!(!p.insert(8));
    assert!(!p.remove(8));
    p.set(8, true);
    p.toggle(8);
    assert!(p.is_empty());
}

#[test]
fn retain() {
    let decl = perms_decl();
    let mut p = FlagSet::<u8>::from_slice(&[READ, WRITE, EXEC]);
    p.retain(|q| q != WRITE);
    assert!(p.contains(&READ));
    assert!(!p.contains(&WRITE));
    assert!(p.contains(&EXEC));
    assert_eq!(p.len(), 2);

    let mut all = decl.all();
    all.retain(|_| true);
    assert_eq!(all.len(), 3);

    let mut all2 = decl.all();
    all2.retain(|_| false);
    assert!(all2.is_empty());
}

#[test]
fn flags_trait_basics() {
    let all = perms_decl().all();
    let bits = all.bits();
    assert_eq!(FlagSet::<u8>::from_bits_retain(bits), all);
}

#[test]
fn flags_from_bits() {
    let decl = perms_decl();
    assert!(decl.from_bits(0b0111).is_some());
    assert!(decl.from_bits(0b1000).is_none());
}

// ── the BitFlagSet trait ─────────────────────────────────────

#[test]
fn test_bitflagset() {
    let set = color_set(&[Color::Green]);
    assert_eq!(set.first(), Some(pos(Color::Green)));
    assert_eq!(set.last(), Some(pos(Color::Green)));
    assert_eq!(set.len(), 1);
    assert!(!set.is_empty());
    assert!(set.contains(&pos(Color::Green)));
    assert!(!set.contains(&pos(Color::Red)));
    assert_eq!(set.iter(), vec![pos(Color::Green)]);
    assert_eq!(BitFlagSet::to_vec(&set), vec![pos(Color::Green)]);

    let set2 = <FlagSet<u8> as BitFlagSet<u8>>::from_element(pos(Color::Blue));
    assert_eq!(BitFlagSet::first(&set2), Some(pos(Color::Blue)));
    assert_eq!(BitFlagSet::last(&set2), Some(pos(Color::Blue)));
    assert_eq!(BitFlagSet::len(&set2), 1);
    assert!(!BitFlagSet::is_empty(&set2));
    assert!(BitFlagSet::contains(&set2, &pos(Color::Blue)));
    assert_eq!(BitFlagSet::iter(&set2), vec![pos(Color::Blue)]);
    assert_eq!(BitFlagSet::to_vec(&set2), vec![pos(Color::Blue)]);

    let mut set3 = <FlagSet<u8> as BitFlagSet<u8>>::empty();
    assert!(BitFlagSet::insert(&mut set3, pos(Color::Red)));
    assert!(BitFlagSet::insert(&mut set3, pos(Color::Blue)));
    assert!(!BitFlagSet::insert(&mut set3, pos(Color::Blue)));
    assert!(BitFlagSet::is_superset(&set3, &set2));
    assert!(BitFlagSet::is_subset(&set2, &set3));
    assert!(BitFlagSet::is_disjoint(&set, &set3));
    assert_eq!(BitFlagSet::pop_first(&mut set3), Some(pos(Color::Red)));
    assert_eq!(BitFlagSet::pop_last(&mut set3), Some(pos(Color::Blue)));
    assert_eq!(BitFlagSet::pop_last(&mut set3), None);
    assert!(!BitFlagSet::remove(&mut set3, pos(Color::Blue)));

    let mut set4 = <FlagSet<u8> as BitFlagSet<u8>>::from_bits_retain(0b111);
    BitFlagSet::retain(&mut set4, |p| p != pos(Color::Green));
    assert_eq!(BitFlagSet::to_vec(&set4), vec![pos(Color::Red), pos(Color::Blue)]);
}

// ── atomic flag sets ─────────────────────────────────────────

#[test]
fn enum_form_set_interop() {
    let plain = color_set(&[Color::Red, Color::Blue]);
    let atomic = AtomicFlagSet::<AtomicU8>::from_plain(plain);
    assert_eq!(atomic.to_plain(), plain);

    let converted_atomic = AtomicFlagSet::<AtomicU8>::from_plain(plain);
    let converted_plain = converted_atomic.to_plain();
    assert_eq!(converted_plain, plain);
}

#[test]
fn plain_color_set_api_coverage() {
    let decl = color_decl();
    let mut set = decl.from_bits(0b111).unwrap();
    assert!(decl.is_exactly_all(&set));
    set.set(pos(Color::Red), false);
    set.toggle(pos(Color::Red));
    set.clear();
    assert!(set.is_empty());
    assert_eq!(decl.from_bits_truncate(0xFF), decl.all());
    let unchecked = FlagSet::<u8>::from_bits_retain(0b001);
    assert!(unchecked.contains(&pos(Color::Red)));
    let _ = decl.iter_names(&color_set(&[Color::Red])).len();
}

#[test]
fn atomic_color_set_api_coverage() {
    let decl = color_decl();
    let empty = AtomicFlagSet::<AtomicU8>::empty();
    assert_eq!(empty.bits(), 0);
    let _ = AtomicFlagSet::<AtomicU8>::from_slice(&[pos(Color::Red), pos(Color::Blue)]);

    let from_plain = AtomicFlagSet::<AtomicU8>::from_plain(color_set(&[Color::Green]));
    let _owned_plain = from_plain.into_plain();

    let unchecked = AtomicFlagSet::<AtomicU8>::from_bits_retain(0b001);
    assert!(unchecked.contains(&pos(Color::Red)));
    assert!(AtomicFlagSet::<AtomicU8>::from_bits(&decl, 0b001).is_some());
    assert!(AtomicFlagSet::<AtomicU8>::from_bits(&decl, 1u8 << 7).is_none());
    assert_eq!(
        AtomicFlagSet::<AtomicU8>::from_bits_truncate(&decl, 0xFF).bits(),
        AtomicFlagSet::<AtomicU8>::all(&decl).bits()
    );

    let all = AtomicFlagSet::<AtomicU8>::all(&decl);
    assert!(all.is_exactly_all(&decl));
    let _ = all.complement(&decl);

    let a = AtomicFlagSet::<AtomicU8>::new();
    assert!(a.is_empty());
    assert_eq!(a.len(), 0);

    a.set(pos(Color::Red), true);
    assert!(a.contains(&pos(Color::Red)));
    let _ = a.insert(pos(Color::Green));
    let _ = a.remove(pos(Color::Green));
    a.toggle(pos(Color::Blue));

    let mut raw = color_set(&[Color::Red]).bits();
    a.swap_bits(&mut raw);

    let _ = a.first();
    let _ = a.last();
    let _ = pop_first_atomic(&a);
    let _ = pop_last_atomic(&a);

    let b = AtomicFlagSet::<AtomicU8>::from_element(pos(Color::Red));
    let _ = a.is_subset(&b);
    let _ = a.is_superset(&b);
    let _ = a.is_disjoint(&b);

    a.retain(|_| true);
    let _ = a.iter().len();
    let _ = a.iter_names(&decl).len();

    let _ = format!("{:b}", a.bits());
    let _ = format!("{:o}", a.bits());
    let _ = format!("{:x}", a.bits());
    let _ = format!("{:X}", a.bits());
    a.clear();
}

#[test]
fn enum_form_swap_bits() {
    let atomic = AtomicFlagSet::<AtomicU8>::new();
    atomic.insert(pos(Color::Green));
    assert_eq!(atomic.to_plain(), color_set(&[Color::Green]));

    let mut raw = color_set(&[Color::Red]).bits();
    atomic.swap_bits(&mut raw);
    assert_eq!(raw, color_set(&[Color::Green]).bits());
    assert_eq!(atomic.to_plain(), color_set(&[Color::Red]));

    atomic.insert(pos(Color::Blue));
    assert_eq!(atomic.to_plain(), color_set(&[Color::Red, Color::Blue]));
}

#[test]
fn position_form_set_interop() {
    let plain = FlagSet::<u8>::from_slice(&[READ, EXEC]);
    let atomic = AtomicFlagSet::<AtomicU8>::from_plain(plain);
    assert_eq!(atomic.to_plain(), plain);

    let mut raw = FlagSet::<u8>::from_element(WRITE).bits();
    atomic.swap_bits(&mut raw);
    assert_eq!(raw, plain.bits());
    assert_eq!(atomic.to_plain(), FlagSet::from_element(WRITE));

    atomic.insert(EXEC);
    assert_eq!(atomic.to_plain(), FlagSet::from_slice(&[WRITE, EXEC]));
}

#[test]
fn position_form_oob_ignored_in_release() {
    let atomic = AtomicFlagSet::<AtomicU8>::from_element(8);
    assert_eq!(atomic.to_plain(), FlagSet::empty());

    let atomic = AtomicFlagSet::<AtomicU8>::from_slice(&[READ, 8]);
    assert_eq!(atomic.to_plain(), FlagSet::from_element(READ));
}

// ── further checks of the flag-set contracts ─────────────────

#[test]
fn flag_decl_max_value_and_position() {
    let decl = perms_decl();
    assert_eq!(decl.max_value(), EXEC);
    assert_eq!(decl.position_of(WRITE), Some(1));
    assert_eq!(decl.position_of(7), None);
    assert_eq!(decl.all_bits(), 0b111);
    let empty = FlagDecl::<u8>::new(vec![]);
    assert_eq!(empty.max_value(), 0);
    assert!(empty.all().is_empty());
}

#[test]
fn flag_complement_twice_keeps_declared_part() {
    let decl = perms_decl();
    let s = FlagSet::<u8>::from_bits_retain(0b1000_0101);
    let twice = decl.complement(decl.complement(s));
    assert_eq!(twice.bits(), 0b101);
    assert_eq!(twice, decl.from_bits_truncate(s.bits()));
}

#[test]
fn flag_set_first_last_pop() {
    let mut s = FlagSet::<u8>::from_slice(&[1, 4, 6]);
    assert_eq!(s.first(), Some(1));
    assert_eq!(s.last(), Some(6));
    assert_eq!(s.pop_first(), Some(1));
    assert_eq!(s.pop_last(), Some(6));
    assert_eq!(s.iter(), vec![4]);
    assert_eq!(s.pop_first(), Some(4));
    assert_eq!(s.pop_first(), None);
    assert_eq!(s.first(), None);
    assert_eq!(s.last(), None);
}

#[test]
fn flag_set_wider_word() {
    let mut s = FlagSet::<u64>::from_slice(&[0, 63]);
    assert_eq!(s.len(), 2);
    assert!(s.contains(&63));
    assert!(!s.insert(64));
    assert_eq!(s.iter(), vec![0, 63]);
    assert_eq!(s.bits(), (1u64 << 63) | 1);
}

#[test]
fn atomic_flag_set_pop_and_iter() {
    let a = AtomicFlagSet::<AtomicU8>::from_slice(&[2, 5, 7]);
    assert_eq!(a.iter(), vec![2, 5, 7]);
    assert_eq!(pop_first_atomic(&a), Some(2));
    assert_eq!(pop_last_atomic(&a), Some(7));
    assert_eq!(a.iter(), vec![5]);
    assert_eq!(pop_first_atomic(&a), Some(5));
    assert_eq!(pop_first_atomic(&a), None);
    let decl = perms_decl();
    let c = AtomicFlagSet::<AtomicU8>::from_element(READ).complement(&decl);
    assert_eq!(c.to_plain(), FlagSet::from_slice(&[WRITE, EXEC]));
    assert_eq!(
        AtomicFlagSet::<AtomicU8>::all(&decl).iter_names(&decl),
        vec![("READ", READ), ("WRITE", WRITE), ("EXEC", EXEC)]
    );
}

fn perms_debug(set: &FlagSet<u8>) -> String {
    let decl = perms_decl();
    let mut parts: Vec<String> = decl.iter_names(set).into_iter().map(|(n, _)| n.to_string()).collect();
    let unknown = decl.unknown_bits(set);
    if unknown != 0 {
        parts.push(format!("0x{:x}", unknown));
    }
    if parts.is_empty() {
        "Perms(empty)".to_string()
    } else {
        format!("Perms({})", parts.join(" | "))
    }
}

#[test]
fn debug_format() {
    let empty = FlagSet::<u8>::empty();
    assert_eq!(perms_debug(&empty), "Perms(empty)");

    let r = FlagSet::<u8>::from_element(READ);
    assert_eq!(perms_debug(&r), "Perms(READ)");

    assert_eq!(perms_debug(&rw()), "Perms(READ | WRITE)");

    let all = perms_decl().all();
    assert_eq!(perms_debug(&all), "Perms(READ | WRITE | EXEC)");

    let unknown = FlagSet::<u8>::from_bits_retain(0b1000_0001);
    assert_eq!(perms_debug(&unknown), "Perms(READ | 0x80)");
}

#[test]
fn is_all_forms_differ_on_undeclared_bits() {
    let decl = perms_decl();
    let extra = FlagSet::<u8>::from_bits_retain(0b1000_0111);
    assert!(decl.is_all(&extra));
    assert!(!decl.is_exactly_all(&extra));
    assert!(decl.is_exactly_all(&decl.all()));
    assert!(!decl.is_exactly_all(&rw()));
    let atomic = AtomicFlagSet::<AtomicU8>::from_bits_retain(0b1000_0111);
    assert!(atomic.is_all(&decl));
    assert!(!atomic.is_exactly_all(&decl));
}

#[test]
fn atomic_flag_snapshot_views() {
    let none = FlagDecl::<u8>::new(vec![]);
    let a = AtomicFlagSet::<AtomicU8>::from_bits_retain(0b1010_0001);
    assert!(a.is_all(&none));
    assert_eq!(a.iter(), vec![0, 5, 7]);
    assert_eq!(a.iter_names(&perms_decl()), vec![("READ", READ)]);
}
