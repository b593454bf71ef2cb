use rattler_solve::candidates::{PackageVariantSet, VariantId};

fn v(index: usize, count: usize) -> VariantId {
    VariantId { universe: 0, index, count }
}

fn members(s: &PackageVariantSet, n: usize) -> Vec<usize> {
    (0..n).filter(|&i| s.contains_variant_index(i)).collect()
}

#[test]
fn empty_and_full_contain_nothing_and_everything() {
    let e = PackageVariantSet::empty();
    let f = PackageVariantSet::full();
    assert!(!e.contains(&v(2, 4)));
    assert!(f.contains(&v(2, 4)));
    assert!(!e.same_as(&f));
    assert!(e.same_as(&PackageVariantSet::empty()));
}

#[test]
fn singleton_holds_one_variant() {
    let s = PackageVariantSet::singleton(v(2, 4));
    assert_eq!(members(&s, 4), vec![2]);
    assert!(matches!(s, PackageVariantSet::Discrete(_)));
}

#[test]
fn singleton_of_single_variant_universe_is_full() {
    let s = PackageVariantSet::singleton(v(0, 1));
    assert!(matches!(s, PackageVariantSet::Full));
}

#[test]
fn complement_negates_bits() {
    let s = PackageVariantSet::singleton(v(1, 3));
    let c = s.complement();
    assert_eq!(members(&c, 3), vec![0, 2]);
    assert!(matches!(PackageVariantSet::empty().complement(), PackageVariantSet::Full));
    assert!(matches!(PackageVariantSet::full().complement(), PackageVariantSet::Empty));
}

#[test]
fn double_complement_is_identity() {
    let s = PackageVariantSet::singleton(v(1, 3));
    assert!(s.complement().complement().same_as(&s));
}

#[test]
fn intersection_with_complement_is_empty() {
    let s = PackageVariantSet::singleton(v(1, 3));
    let r = s.intersection(&s.complement());
    assert!(matches!(r, PackageVariantSet::Empty));
}

#[test]
fn union_with_complement_is_full() {
    let s = PackageVariantSet::singleton(v(1, 3));
    let r = s.union(&s.complement());
    assert!(matches!(r, PackageVariantSet::Full));
}

#[test]
fn identities_with_full_and_empty() {
    let s = PackageVariantSet::singleton(v(1, 3));
    assert!(s.intersection(&PackageVariantSet::full()).same_as(&s));
    assert!(s.union(&PackageVariantSet::empty()).same_as(&s));
    assert!(matches!(s.intersection(&PackageVariantSet::empty()), PackageVariantSet::Empty));
    assert!(matches!(s.union(&PackageVariantSet::full()), PackageVariantSet::Full));
}

#[test]
fn union_and_intersection_commute_and_associate() {
    let a = PackageVariantSet::singleton(v(0, 4));
    let b = PackageVariantSet::singleton(v(1, 4)).union(&a);
    let c = PackageVariantSet::singleton(v(2, 4)).union(&PackageVariantSet::singleton(v(1, 4)));
    assert!(a.union(&b).same_as(&b.union(&a)));
    assert!(a.intersection(&b).same_as(&b.intersection(&a)));
    assert!(a.union(&b).union(&c).same_as(&a.union(&b.union(&c))));
    assert!(b.intersection(&c).intersection(&a).same_as(&b.intersection(&c.intersection(&a))));
    assert_eq!(members(&b.intersection(&c), 4), vec![1]);
    assert_eq!(members(&b.union(&c), 4), vec![0, 1, 2]);
}

#[test]
fn union_of_all_bits_normalizes_to_full() {
    let a = PackageVariantSet::singleton(v(0, 2));
    let b = PackageVariantSet::singleton(v(1, 2));
    assert!(matches!(a.union(&b), PackageVariantSet::Full));
    assert!(matches!(a.intersection(&b), PackageVariantSet::Empty));
}

#[test]
fn subsets_with_different_bits_differ() {
    let a = PackageVariantSet::singleton(v(0, 3));
    let b = PackageVariantSet::singleton(v(1, 3));
    assert!(!a.same_as(&b));
    assert!(!a.same_as(&PackageVariantSet::full()));
}
