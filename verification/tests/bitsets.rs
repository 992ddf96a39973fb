use ecs::archetype::{PartitionedSignature, Signature as ArchetypeSignature};
use ecs::bitset::BitSet;
use ecs::signature::Signature as FixedSignature;

#[test]
fn bitset_set_unset_and_count() {
    let mut b = BitSet::new();
    assert!(b.is_empty());
    b.set(3);
    b.set(70);
    assert_eq!(b.word_len(), 2);
    assert_eq!(b.ones(), 2);
    b.unset(3);
    assert_eq!(b.ones(), 1);
    b.unset(1000);
    assert_eq!(b.word_len(), 2);
    assert!(!b.is_empty());
}

#[test]
fn bitset_with_capacity_has_no_words() {
    let b = BitSet::with_capacity(8);
    assert_eq!(b.word_len(), 0);
    assert!(b.is_empty());
}

#[test]
fn bitset_subset_looks_at_all_words() {
    let mut big = BitSet::new();
    big.set(1);
    big.set(2);
    let mut small = BitSet::new();
    small.set(2);
    assert!(big.is_subset(&small));
    assert!(!small.is_subset(&big));
    let mut longer = BitSet::new();
    longer.set(2);
    longer.set(200);
    longer.unset(200);
    assert!(big.is_subset(&longer));
    longer.set(130);
    assert!(!big.is_subset(&longer));
}

#[test]
fn bitset_disjoint_sets() {
    let mut a = BitSet::new();
    a.set(1);
    let mut b = BitSet::new();
    b.set(2);
    assert!(a.is_disjoint(&b));
    b.set(1);
    assert!(!a.is_disjoint(&b));
}

#[test]
fn fixed_signature_bits() {
    let mut s = FixedSignature::new();
    assert!(s.is_empty());
    s.set(0);
    s.set(255);
    assert_eq!(s.count_ones(), 2);
    let mut t = FixedSignature::new();
    t.set(255);
    assert!(s.contains(&t));
    assert!(!t.contains(&s));
    assert!(!s.is_disjoint(&t));
    s.unset(255);
    assert!(s.is_disjoint(&t));
    assert_eq!(s.count_ones(), 1);
}

#[test]
fn fixed_signature_default_is_empty() {
    let s = FixedSignature::default();
    assert!(s.is_empty());
}

#[test]
fn archetype_signature_grows_and_compares() {
    let mut s = ArchetypeSignature::new();
    assert!(s.is_empty());
    s.set(5);
    s.set(65);
    assert_eq!(s.count_ones(), 2);
    let mut t = ArchetypeSignature::with_capacity(128);
    assert!(t.is_empty());
    t.set(65);
    assert!(s.contains(&t));
    assert!(!t.contains(&s));
    assert!(!s.is_disjoint(&t));
    t.unset(65);
    assert!(t.is_empty());
    assert!(s.is_disjoint(&t));
}

#[test]
fn archetype_signature_contains_is_subset_across_lengths() {
    let mut short = ArchetypeSignature::new();
    short.set(1);
    let mut long = ArchetypeSignature::new();
    long.set(1);
    long.set(100);
    assert!(!short.contains(&long));
    assert!(long.contains(&short));
    let empty = ArchetypeSignature::new();
    let mut high = ArchetypeSignature::new();
    high.set(70);
    assert!(!empty.contains(&high));
    assert!(high.contains(&empty));
    // A longer signature whose extra words are zero is still a subset.
    high.unset(70);
    assert!(empty.contains(&high));
}

#[test]
fn archetype_signature_same_words() {
    let mut a = ArchetypeSignature::new();
    a.set(3);
    let mut b = ArchetypeSignature::new();
    b.set(3);
    assert!(a.same_words(&b));
    b.set(70);
    b.unset(70);
    assert!(!a.same_words(&b));
    let c = a.clone();
    assert!(c.same_words(&a));
}

#[test]
fn partitioned_signature_resize_and_set() {
    let mut p = PartitionedSignature::new();
    assert_eq!(p.words_count(), 0);
    p.resize(65);
    assert_eq!(p.words_count(), 2);
    p.resize(64);
    assert_eq!(p.words_count(), 3);
    p.set(130);
    let q = PartitionedSignature::with_capacity(4);
    assert_eq!(q.words_count(), 0);
    assert_eq!(PartitionedSignature::default().words_count(), 0);
}
