use bittyset::{
    block_is_clear, count_ones, find_lowest_set_bit, saturating_bits, BitBlock,
    BitSet, Iter,
};

fn walk<T: BitBlock>(set: &BitSet<T>) -> Vec<usize> {
    let mut it = set.iter();
    let mut out = Vec::new();
    while let Some(x) = it.next() {
        out.push(x);
    }
    out
}

fn set_of<T: BitBlock>(values: &[usize]) -> BitSet<T> {
    BitSet::<T>::from_slice(values)
}

#[test]
fn scenario_insert_with_duplicate() {
    let mut set = <BitSet>::new();
    for x in [37, 0, 14, 7, 0] {
        set.insert(x);
    }
    assert_eq!(set.len(), 4);
    assert_eq!(set.to_debug_string(), "{0, 7, 14, 37}");
    set.remove(7);
    assert_eq!(set.to_debug_string(), "{0, 14, 37}");
}

#[test]
fn scenario_small_algebra() {
    let a: BitSet = set_of(&[7, 3, 5, 18]);
    let b: BitSet = set_of(&[3, 1, 6, 7, 24]);
    assert_eq!(a.union(&b), set_of(&[1, 3, 5, 6, 7, 18, 24]));
    assert_eq!(a.intersection(&b), set_of(&[3, 7]));
    assert_eq!(a.difference(&b), set_of(&[5, 18]));
    assert_eq!(a.symmetric_difference(&b), set_of(&[1, 5, 6, 18, 24]));
    assert_eq!(walk(&a.union(&b)), vec![1, 3, 5, 6, 7, 18, 24]);
}

#[test]
fn scenario_in_place_algebra() {
    let b: BitSet<u8> = set_of(&[3, 1, 6, 7, 24]);

    let mut a: BitSet<u8> = set_of(&[7, 3, 5, 18]);
    a.union_with(&b);
    assert_eq!(a, set_of(&[1, 3, 5, 6, 7, 18, 24]));
    assert_eq!(a.num_bits(), 25);

    let mut a: BitSet<u8> = set_of(&[7, 3, 5, 18]);
    a.intersect_with(&b);
    assert_eq!(a, set_of(&[3, 7]));
    assert_eq!(a.num_bits(), 8);

    let mut a: BitSet<u8> = set_of(&[7, 3, 5, 18]);
    a.difference_with(&b);
    assert_eq!(a, set_of(&[5, 18]));
    assert_eq!(a.num_bits(), 19);

    let mut a: BitSet<u8> = set_of(&[7, 3, 5, 18]);
    a.symmetric_difference_with(&b);
    assert_eq!(a, set_of(&[1, 5, 6, 18, 24]));
    assert_eq!(a.num_bits(), 25);
}

#[test]
fn in_place_algebra_with_longer_right_operand() {
    let long: BitSet<u16> = set_of(&[2, 40, 100]);

    let mut a: BitSet<u16> = set_of(&[2, 3]);
    a.union_with(&long);
    assert_eq!(walk(&a), vec![2, 3, 40, 100]);

    let mut a: BitSet<u16> = set_of(&[2, 3]);
    a.intersect_with(&long);
    assert_eq!(walk(&a), vec![2]);
    assert_eq!(a.num_bits(), 3);

    let mut a: BitSet<u16> = set_of(&[2, 3]);
    a.difference_with(&long);
    assert_eq!(walk(&a), vec![3]);
    assert_eq!(a.num_bits(), 4);

    let mut a: BitSet<u16> = set_of(&[2, 3]);
    a.symmetric_difference_with(&long);
    assert_eq!(walk(&a), vec![3, 40, 100]);
}

#[test]
fn symmetric_difference_compacts() {
    let a: BitSet<u8> = set_of(&[1, 30]);
    let b: BitSet<u8> = set_of(&[2, 30]);
    let c = a.symmetric_difference(&b);
    assert_eq!(walk(&c), vec![1, 2]);
    assert_eq!(c.num_bits(), 3);
    assert_eq!(c.capacity() >= 3, true);
}

#[test]
fn intersection_of_disjoint_sets_is_empty() {
    let a: BitSet<u32> = set_of(&[0, 64, 200]);
    let b: BitSet<u32> = set_of(&[1, 65, 201]);
    let c = a.intersection(&b);
    assert!(c.is_empty());
    assert_eq!(c.num_bits(), 0);
    assert_eq!(c, BitSet::<u32>::new());
}

#[test]
fn union_and_intersection_commute() {
    let a: BitSet<u64> = set_of(&[0, 63, 64, 500]);
    let b: BitSet<u64> = set_of(&[1, 63, 700]);
    assert_eq!(a.union(&b), b.union(&a));
    assert_eq!(a.intersection(&b), b.intersection(&a));
    assert_eq!(a.symmetric_difference(&b), b.symmetric_difference(&a));
}

#[test]
fn difference_does_not_commute() {
    let a: BitSet = set_of(&[0]);
    let b: BitSet = <BitSet>::new();
    assert_eq!(walk(&a.difference(&b)), vec![0]);
    assert!(b.difference(&a).is_empty());
    assert_ne!(a.difference(&b), b.difference(&a));
}

#[test]
fn subset_relations() {
    let a: BitSet = set_of(&[7, 3, 5, 18]);
    let b: BitSet = set_of(&[3, 5, 7, 18, 41]);
    assert!(a.is_subset(&a));
    assert!(!a.is_proper_subset(&a));
    assert!(a.is_subset(&b));
    assert!(!b.is_subset(&a));
    assert!(a.is_proper_subset(&b));
    assert!(!b.is_proper_subset(&a));

    let c: BitSet = set_of(&[3, 5, 7, 18, 20]);
    assert!(!a.is_subset(&set_of(&[3, 5, 7])));
    assert!(a.is_proper_subset(&c));
    assert!(!set_of::<usize>(&[3, 6]).is_subset(&c));
    assert!(!set_of::<usize>(&[3, 6]).is_proper_subset(&c));

    let empty = <BitSet>::new();
    assert!(empty.is_subset(&a));
    assert!(empty.is_proper_subset(&a));
    assert!(empty.is_subset(&empty));
    assert!(!empty.is_proper_subset(&empty));
}

#[test]
fn proper_subset_with_same_block_count() {
    let a: BitSet<u8> = set_of(&[1, 5]);
    let b: BitSet<u8> = set_of(&[1, 2, 5]);
    assert!(a.is_proper_subset(&b));
    assert!(!b.is_proper_subset(&a));
}

#[test]
fn insert_then_remove_restores_length() {
    let mut set = BitSet::<u8>::new();
    set.insert(7);
    let before = set.num_bits();
    assert!(set.insert(3173));
    assert_eq!(set.num_bits(), 3174);
    assert!(set.remove(3173));
    assert!(!set.contains(3173));
    assert_eq!(set.num_bits(), before);
    assert_eq!(set.num_bits(), 8);

    let mut empty = BitSet::<u8>::new();
    empty.insert(3173);
    empty.remove(3173);
    assert_eq!(empty.num_bits(), 0);
    assert!(empty.is_empty());
}

#[test]
fn remove_below_top_keeps_length() {
    let mut set: BitSet<u16> = set_of(&[4, 90]);
    assert!(set.remove(4));
    assert_eq!(set.num_bits(), 91);
    assert!(!set.remove(4));
    assert!(!set.remove(1000));
    assert_eq!(set.num_bits(), 91);
}

#[test]
fn compaction_skips_several_empty_blocks() {
    let mut set: BitSet<u8> = set_of(&[2, 100]);
    set.remove(100);
    assert_eq!(set.num_bits(), 3);
    assert_eq!(walk(&set), vec![2]);
}

#[test]
fn largest_block_width() {
    let mut set = BitSet::<u128>::new();
    set.insert(127);
    set.insert(128);
    set.insert(0);
    assert_eq!(set.num_bits(), 129);
    assert_eq!(set.len(), 3);
    assert_eq!(walk(&set), vec![0, 127, 128]);
    set.remove(128);
    assert_eq!(set.num_bits(), 128);
    assert_eq!(set.to_debug_string(), "{0, 127}");
}

#[test]
fn round_trip_is_sorted_and_deduplicated() {
    let values = [9usize, 2, 2, 700, 0, 9, 65, 64];
    let set: BitSet<u16> = set_of(&values);
    assert_eq!(set.to_vec(), vec![0, 2, 9, 64, 65, 700]);
    assert_eq!(walk(&set), vec![0, 2, 9, 64, 65, 700]);
    assert_eq!(set.len(), 6);
}

#[test]
fn walk_from_position() {
    let set: BitSet<u8> = set_of(&[1, 8, 9, 30]);
    let mut it = Iter::new_from(&set, 9);
    assert_eq!(it.next(), Some(9));
    assert_eq!(it.next(), Some(30));
    assert_eq!(it.next(), None);
    assert_eq!(it.next(), None);

    let mut it = Iter::new_from(&set, 31);
    assert_eq!(it.next(), None);

    let mut it = Iter::new(&set);
    assert_eq!(it.next(), Some(1));
}

#[test]
fn debug_string_of_large_numbers() {
    let set: BitSet = set_of(&[1000000, 10, 5]);
    assert_eq!(set.to_debug_string(), "{5, 10, 1000000}");
    let single: BitSet<u8> = set_of(&[0]);
    assert_eq!(single.to_debug_string(), "{0}");
}

#[test]
fn capacity_after_reserve() {
    let mut set = BitSet::<u8>::new();
    assert_eq!(set.capacity(), 0);
    set.reserve_exact(20);
    assert_eq!(set.capacity(), 24);
    set.insert(3);
    set.reserve(100);
    assert!(set.capacity() >= 104);
    assert_eq!(walk(&set), vec![3]);
    set.shrink_to_fit();
    assert_eq!(set.capacity(), 8);
    let set = BitSet::<u8>::with_capacity(5);
    assert_eq!(set.capacity(), 8);
}

#[test]
fn saturating_capacity() {
    assert_eq!(saturating_bits::<u8>(3), 24);
    assert_eq!(saturating_bits::<u64>(0), 0);
    assert_eq!(saturating_bits::<u64>(usize::MAX / 8), usize::MAX);
    assert_eq!(saturating_bits::<u128>(2), 256);
}

#[test]
fn extend_adds_to_existing() {
    let mut set: BitSet<u32> = set_of(&[1, 2]);
    set.extend(&[]);
    assert_eq!(walk(&set), vec![1, 2]);
    set.extend(&[2, 40, 33]);
    assert_eq!(walk(&set), vec![1, 2, 33, 40]);
}

#[test]
fn default_is_empty() {
    let set: BitSet<u16> = Default::default();
    assert!(set.is_empty());
    assert_eq!(set.num_bits(), 0);
    assert_eq!(set.to_debug_string(), "{}");
}

#[test]
fn block_bit_operations() {
    let mut b: u8 = u8::zero();
    b.set_bit(7);
    b.set_bit(0);
    assert_eq!(b, 0b1000_0001);
    assert!(b.bit(7));
    assert!(!b.bit(6));
    b.reset_bit(7);
    assert_eq!(b, 1);
    assert_eq!(0b1100u8.or(0b1010), 0b1110);
    assert_eq!(0b1100u8.and(0b1010), 0b1000);
    assert_eq!(0b1100u8.xor(0b1010), 0b0110);
    assert_eq!(0b1100u8.and_not(0b1010), 0b0100);
    assert_eq!(<u8 as BitBlock>::num_bits(), 8);
    assert_eq!(<u16 as BitBlock>::num_bits(), 16);
    assert_eq!(<u32 as BitBlock>::num_bits(), 32);
    assert_eq!(<u64 as BitBlock>::num_bits(), 64);
    assert_eq!(<u128 as BitBlock>::num_bits(), 128);
    assert_eq!(<usize as BitBlock>::num_bits(), usize::BITS as usize);

    let mut w: u128 = u128::zero();
    w.set_bit(127);
    assert_eq!(w, 1u128 << 127);
    let mut v: usize = usize::zero();
    v.set_bit(usize::BITS as usize - 1);
    assert_eq!(v.highest_zeros(), 0);
}

#[test]
fn block_counting() {
    assert_eq!(count_ones(&0b1011_0000u8), 3);
    assert_eq!(count_ones(&u64::MAX), 64);
    assert_eq!(count_ones(&0u32), 0);
    assert_eq!(0b0001_0000u8.highest_zeros(), 3);
    assert_eq!(0u16.highest_zeros(), 16);
    assert_eq!(1u128.highest_zeros(), 127);
    assert_eq!(u32::MAX.highest_zeros(), 0);
    assert_eq!((1u64 << 40).highest_zeros(), 23);
    assert_eq!(0usize.highest_zeros(), usize::BITS as usize);
    assert!(block_is_clear(&0u64));
    assert!(!block_is_clear(&8u64));
}

#[test]
fn lowest_set_bit_from_offset() {
    assert_eq!(find_lowest_set_bit(0b1010_0100u8, 0), Some(2));
    assert_eq!(find_lowest_set_bit(0b1010_0100u8, 3), Some(5));
    assert_eq!(find_lowest_set_bit(0b1010_0100u8, 5), Some(5));
    assert_eq!(find_lowest_set_bit(0b1010_0100u8, 8), None);
    assert_eq!(find_lowest_set_bit(0b0000_0100u8, 3), None);
    assert_eq!(find_lowest_set_bit(0u32, 0), None);
    assert_eq!(find_lowest_set_bit(1u64 << 63, 1), Some(63));
    assert_eq!(find_lowest_set_bit(0b1000_0000u16, 7), Some(7));
    assert_eq!(find_lowest_set_bit(1u128 << 100, 5), Some(100));
    assert_eq!(find_lowest_set_bit(6usize, 2), Some(2));
    assert_eq!(0b0110u32.lowest_set_bit_from(3), None);
    assert_eq!(0b0110u32.lowest_set_bit_from(1), Some(1));
}

#[test]
fn removing_an_absent_value_changes_nothing() {
    let mut set: BitSet<u8> = set_of(&[1, 20]);
    let before = set.clone();
    assert!(!set.remove(5));
    assert!(!set.remove(300));
    assert_eq!(set, before);
    assert_eq!(set.num_bits(), 21);
    assert_eq!(set.capacity() >= 21, true);
}
