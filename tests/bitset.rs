use bittyset::{BitBlock, BitSet};
use std::collections::hash_map::DefaultHasher;
use std::hash::{Hash, Hasher};

fn walk<T: BitBlock>(set: &BitSet<T>) -> Vec<usize> {
    let mut it = set.iter();
    let mut out = Vec::new();
    while let Some(x) = it.next() {
        out.push(x);
    }
    out
}

fn set_of(values: &[usize]) -> BitSet {
    <BitSet>::from_slice(values)
}

fn step_set(end: usize, step: usize) -> BitSet {
    set_of(&(0..end).step_by(step).collect::<Vec<usize>>())
}

fn my_hash<T>(obj: T) -> u64
where
    T: Hash,
{
    let mut hasher = DefaultHasher::new();
    obj.hash(&mut hasher);
    hasher.finish()
}

#[test]
fn insert() {
    let mut set = <BitSet>::new();

    assert_eq!(set.insert(7), true);
    assert_eq!(set.insert(3), true);
    assert_eq!(set.insert(12), true);
    assert_eq!(set.insert(3173), true);
    assert_eq!(set.insert(12), false);

    assert_eq!(set.num_bits(), 3174);
}

#[test]
fn remove() {
    let mut set = BitSet::<u8>::new();

    set.insert(7);
    set.insert(3);
    set.insert(12);
    set.insert(173);
    set.insert(12);

    assert_eq!(set.remove(3), true);
    assert_eq!(set.remove(9), false);
    assert_eq!(set.remove(3), false);
    assert_eq!(set.remove(12), true);
    assert_eq!(set.remove(200), false);

    assert_eq!(set.num_bits(), 174);

    assert_eq!(set.remove(173), true);

    assert_eq!(set.num_bits(), 8);
}

#[test]
fn contains() {
    let mut set = BitSet::<u16>::new();

    set.insert(7);
    set.insert(3);
    set.insert(12);
    set.insert(173);
    set.insert(12);

    assert!(set.contains(12));
    assert!(set.contains(173));
    assert!(!set.contains(200));
    assert!(!set.contains(172));

    set.remove(3);
    set.remove(9);
    set.remove(3);
    set.remove(12);
    set.remove(200);

    assert!(!set.contains(3));
    assert!(set.contains(7));
    assert!(!set.contains(200));
    assert!(set.contains(173));
    assert!(!set.contains(172));
}

#[test]
fn len() {
    let mut set = BitSet::<u64>::new();

    assert_eq!(set.len(), 0);
    assert_eq!(set.num_bits(), 0);
    assert!(set.is_empty());

    set.insert(37);
    set.insert(0);
    set.insert(14);
    set.insert(7);
    set.insert(0);

    assert_eq!(set.len(), 4);
    assert_eq!(set.num_bits(), 38);
    assert!(!set.is_empty());

    set.remove(7);
    set.remove(14);

    assert_eq!(set.len(), 2);
    assert!(!set.is_empty());

    set.remove(0);
    set.remove(37);

    assert_eq!(set.len(), 0);
    assert_eq!(set.num_bits(), 0);
    assert!(set.is_empty());

    set.remove(18);

    assert_eq!(set.num_bits(), 0);
    assert_eq!(set.len(), 0);
    assert!(set.is_empty());
}

#[test]
fn shrink_to_fit() {
    let mut set = BitSet::<u32>::new();

    set.insert(760);
    set.insert(3173);
    set.shrink_to_fit();

    assert_eq!(set.num_bits(), 3174);
    assert_eq!(set.capacity() / 32, 100);
    assert_eq!(set.capacity(), 100 * 32);

    set.insert(63);
    set.remove(3173);
    set.shrink_to_fit();

    assert_eq!(set.num_bits(), 761);
    assert_eq!(set.capacity() / 32, 24);
    assert_eq!(set.capacity(), 24 * 32);

    set.remove(760);
    set.shrink_to_fit();

    assert_eq!(set.num_bits(), 64);
    assert_eq!(set.capacity() / 32, 2);
    assert_eq!(set.capacity(), 2 * 32);
}

#[test]
fn with_capacity() {
    let set = BitSet::<u16>::with_capacity(60);
    assert_eq!(set.capacity() / 16, 4);

    let set = BitSet::<u64>::with_capacity(6400);
    assert_eq!(set.capacity() / 64, 100);
}

#[test]
fn reserve() {
    let mut set = BitSet::<u16>::new();
    set.insert(33);

    set.reserve(100);

    assert!(set.capacity() / 16 >= 9);

    set.reserve(110);

    assert!(set.capacity() / 16 >= 9);

    set.reserve_exact(100);

    assert_eq!(set.capacity() / 16, 9);

    set.reserve_exact(110);
}

#[test]
fn clear() {
    let mut set = <BitSet>::new();

    set.insert(37);
    set.insert(0);
    set.insert(14);
    set.insert(7);
    set.insert(0);

    assert_eq!(set.len(), 4);
    assert!(!set.is_empty());

    set.clear();

    assert_eq!(set.len(), 0);
    assert!(set.is_empty());
}

#[test]
fn debug() {
    let mut set = <BitSet>::new();

    assert_eq!(&set.to_debug_string(), "{}");

    set.insert(37);
    set.insert(0);
    set.insert(14);
    set.insert(7);
    set.insert(0);

    assert_eq!(&set.to_debug_string(), "{0, 7, 14, 37}");

    set.remove(7);

    assert_eq!(&set.to_debug_string(), "{0, 14, 37}");

    set.clear();

    assert_eq!(&set.to_debug_string(), "{}");
}

#[test]
fn iter() {
    let mut set = <BitSet>::new();

    set.insert(37);
    set.insert(0);
    set.insert(14);
    set.insert(7);
    set.insert(0);

    assert_eq!(walk(&set), vec![0, 7, 14, 37]);
}

#[test]
fn extend() {
    let mut set = <BitSet>::new();
    set.extend(&[37, 0, 14, 7, 14]);

    assert_eq!(walk(&set), vec![0, 7, 14, 37]);
}

#[test]
fn collect() {
    let set = set_of(&[37, 0, 14, 7, 14]);

    assert_eq!(walk(&set), vec![0, 7, 14, 37]);
}

#[test]
fn eq() {
    let set1 = set_of(&[7, 1, 4, 5, 41, 4]);
    let mut set2 = set_of(&[7, 1, 41, 4]);

    assert_ne!(set1, set2);

    set2.insert(5);

    assert_eq!(set1, set2);

    set2.remove(41);

    assert_ne!(set1, set2);

    assert_eq!(<BitSet>::new(), <BitSet>::new());

    let set1 = set_of(&[63]);
    let set2 = set_of(&[63]);

    assert_eq!(set1, set2);
}

#[test]
fn eq_large() {
    let set1 = step_set(1485914, 4);
    let mut set2 = set1.clone();

    assert_eq!(set1, set2);

    assert!(set2.remove(1385912));

    assert_ne!(set1, set2);

    set2.insert(1385912);
    set2.remove(1385912 - 4 * 50);

    assert_ne!(set1, set2);
}

#[test]
fn hash() {
    let set1 = set_of(&[7, 1, 4, 5, 41, 4]);
    let mut set2 = set_of(&[7, 1, 41, 4]);

    assert_ne!(my_hash(&set1), my_hash(&set2));

    set2.insert(5);

    assert_eq!(my_hash(&set1), my_hash(&set2));

    set2.remove(41);

    assert_ne!(my_hash(&set1), my_hash(&set2));

    assert_eq!(<BitSet>::new(), <BitSet>::new());

    let set1 = set_of(&[63]);
    let set2 = set_of(&[63]);

    assert_eq!(my_hash(&set1), my_hash(&set2));
}

#[test]
fn hash_large() {
    let set1 = step_set(1485914, 4);
    let mut set2 = set1.clone();

    assert_eq!(my_hash(&set1), my_hash(&set2));

    assert!(set2.remove(1385912));

    assert_ne!(my_hash(&set1), my_hash(&set2));

    set2.insert(1385912);
    set2.remove(1385912 - 4 * 50);

    assert_ne!(my_hash(&set1), my_hash(&set2));
}

#[test]
fn bitor_large() {
    let set1 = step_set(1000000, 5);
    let set2 = step_set(1000000, 3);
    let mut set3 = set1.clone();
    set3.extend(&(0..1000000).step_by(3).collect::<Vec<usize>>());

    assert_eq!(set1.union(&set2), set3);

    assert_eq!(set2.union(&set1), set3);
}

#[test]
fn bitand_large() {
    let set1 = step_set(1000000, 5);
    let set2 = step_set(1000000, 3);
    let set3 = step_set(1000000, 15);

    assert_eq!(set1.intersection(&set2), set3);

    assert_eq!(set2.intersection(&set1), set3);
}

#[test]
fn set_difference_large() {
    let set1 = step_set(1000000, 5);
    let set2 = step_set(1000000, 3);

    let set3 = set_of(
        &(0..1000000)
            .step_by(5)
            .filter(|x| x % 3 != 0)
            .collect::<Vec<usize>>(),
    );

    let set4 = set_of(
        &(0..1000000)
            .step_by(3)
            .filter(|x| x % 5 != 0)
            .collect::<Vec<usize>>(),
    );

    assert_eq!(set1.difference(&set2), set3);

    assert_eq!(set2.difference(&set1), set4);
}

#[test]
fn bitxor_large() {
    let set1 = step_set(1000000, 5);
    let set2 = step_set(1000000, 3);

    let set3 = set_of(
        &(0..1000000)
            .step_by(3)
            .chain((0..1000000).step_by(5))
            .filter(|x| x % 15 != 0)
            .collect::<Vec<usize>>(),
    );

    assert_eq!(set1.symmetric_difference(&set2), set3);
}
