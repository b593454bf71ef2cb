//! Candidate sets: the variants of one package that are still admissible, held as
//! nothing, everything, or a bit per variant.
use crate::bits::{bits_of, bv_all, bv_and, bv_clone, bv_from_elem, bv_get, bv_len, bv_negate, bv_none, bv_or, bv_set};
use bit_vec::BitVec;
use vstd::prelude::*;

verus! {

/// One variant of a package: its universe, its position there, and the universe's size.
#[derive(Clone, Copy, Debug, PartialEq, Eq, Structural)]
pub struct VariantId {
    pub universe: usize,
    pub index: usize,
    pub count: usize,
}

impl VariantId {
    pub open spec fn wf(&self) -> bool {
        self.index < self.count
    }
}

/// A proper, non-empty subset of a universe's variants: one bit per variant.
#[derive(Debug)]
pub struct PackageVariantRange {
    pub universe: usize,
    pub included: BitVec,
}

impl PackageVariantRange {
    pub open spec fn bits(&self) -> Seq<bool> {
        bits_of(self.included)
    }

    /// At least one bit is set and at least one is clear.
    pub open spec fn wf(&self, n: nat) -> bool {
        &&& self.bits().len() == n
        &&& exists|i: int| 0 <= i < n && self.bits()[i]
        &&& exists|i: int| 0 <= i < n && !self.bits()[i]
    }

    /// Whether the variant at `idx` is in the range; the index must lie in the universe.
    pub fn contains_variant_index(&self, idx: usize) -> (r: bool)
        requires
            idx < self.bits().len(),
        ensures
            r == self.bits()[idx as int],
    {
        match bv_get(&self.included, idx) {
            Some(b) => b,
            None => false,
        }
    }

    /// The range holding only `v`; the universe must have at least two variants.
    pub fn singleton(v: VariantId) -> (r: PackageVariantRange)
        requires
            v.wf(),
            v.count > 1,
        ensures
            r.universe == v.universe,
            r.wf(v.count as nat),
            r.bits() == Seq::new(v.count as nat, |i: int| i == v.index),
    {
        let mut included = bv_from_elem(v.count, false);
        bv_set(&mut included, v.index, true);
        let r = PackageVariantRange { universe: v.universe, included };
        assert(r.bits()[v.index as int]);
        let ghost other: int = if v.index == 0 { 1 } else { 0 };
        assert(!r.bits()[other]);
        r
    }

    /// The variants not in this range.
    pub fn complement(&self) -> (r: PackageVariantRange)
        ensures
            r.universe == self.universe,
            r.bits() == Seq::new(self.bits().len(), |i: int| !self.bits()[i]),
            forall|n: nat| #[trigger] self.wf(n) ==> r.wf(n),
    {
        let mut included = bv_clone(&self.included);
        bv_negate(&mut included);
        let r = PackageVariantRange { universe: self.universe, included };
        assert forall|n: nat| #[trigger] self.wf(n) implies r.wf(n) by {
            let i = choose|i: int| 0 <= i < n && self.bits()[i];
            let j = choose|j: int| 0 <= j < n && !self.bits()[j];
            assert(!r.bits()[i]);
            assert(r.bits()[j]);
        }
        r
    }

    /// The bitwise and of two ranges of one universe, normalized.
    fn and_ranges(a: &PackageVariantRange, b: &PackageVariantRange) -> (r: PackageVariantSet)
        requires
            a.bits().len() == b.bits().len(),
        ensures
            forall|n: nat| a.wf(n) && b.wf(n) ==> #[trigger] r.wf(n),
            forall|i: int|
                0 <= i < a.bits().len() ==> #[trigger] r.has(i) == (a.bits()[i] && b.bits()[i]),
    {
        let mut included = bv_clone(&a.included);
        bv_and(&mut included, &b.included);
        let ghost w = bits_of(included);
        assert(forall|i: int|
            0 <= i < a.bits().len() ==> #[trigger] w[i] == (a.bits()[i] && b.bits()[i]));
        if bv_none(&included) {
            assert forall|i: int| 0 <= i < a.bits().len() implies !(a.bits()[i] && b.bits()[i]) by {
                assert(!bits_of(included)[i]);
                assert(w[i] == (a.bits()[i] && b.bits()[i]));
            }
            PackageVariantSet::Empty
        } else {
            let d = PackageVariantRange { universe: a.universe, included };
            assert forall|n: nat| a.wf(n) && b.wf(n) implies #[trigger] d.wf(n) by {
                let j = choose|j: int| 0 <= j < n && !a.bits()[j];
                assert(!d.bits()[j]);
            }
            PackageVariantSet::Discrete(d)
        }
    }

    /// The bitwise or of two ranges of one universe, normalized.
    fn or_ranges(a: &PackageVariantRange, b: &PackageVariantRange) -> (r: PackageVariantSet)
        requires
            a.bits().len() == b.bits().len(),
        ensures
            forall|n: nat| a.wf(n) && b.wf(n) ==> #[trigger] r.wf(n),
            forall|i: int|
                0 <= i < a.bits().len() ==> #[trigger] r.has(i) == (a.bits()[i] || b.bits()[i]),
    {
        let mut included = bv_clone(&a.included);
        bv_or(&mut included, &b.included);
        let ghost w = bits_of(included);
        assert(forall|i: int|
            0 <= i < a.bits().len() ==> #[trigger] w[i] == (a.bits()[i] || b.bits()[i]));
        if bv_all(&included) {
            assert forall|i: int| 0 <= i < a.bits().len() implies (a.bits()[i] || b.bits()[i]) by {
                assert(bits_of(included)[i]);
                assert(w[i] == (a.bits()[i] || b.bits()[i]));
            }
            PackageVariantSet::Full
        } else {
            let d = PackageVariantRange { universe: a.universe, included };
            assert forall|n: nat| a.wf(n) && b.wf(n) implies #[trigger] d.wf(n) by {
                let j = choose|j: int| 0 <= j < n && a.bits()[j];
                assert(d.bits()[j]);
            }
            PackageVariantSet::Discrete(d)
        }
    }
}

/// The admissible variants of one package.
#[derive(Debug)]
pub enum PackageVariantSet {
    Empty,
    Full,
    Discrete(PackageVariantRange),
}

/// The indices of a universe of `n` variants.
pub open spec fn all_indices(n: nat) -> Set<int> {
    Set::new(|i: int| 0 <= i < n)
}

impl PackageVariantSet {
    /// Whether the variant at `i` is in the set.
    pub open spec fn has(&self, i: int) -> bool {
        match self {
            PackageVariantSet::Empty => false,
            PackageVariantSet::Full => true,
            PackageVariantSet::Discrete(r) => r.bits()[i],
        }
    }

    /// The set is normalized for a universe of `n` variants: a subset is neither empty nor
    /// everything, and has one bit per variant.
    pub open spec fn wf(&self, n: nat) -> bool {
        match self {
            PackageVariantSet::Discrete(r) => r.wf(n),
            _ => true,
        }
    }

    /// The indices in the set, in a universe of `n` variants.
    pub open spec fn members(&self, n: nat) -> Set<int> {
        Set::new(|i: int| 0 <= i < n && self.has(i))
    }

    /// Both sets may be combined: two subsets have bit vectors of one length.
    pub open spec fn compatible(&self, other: &PackageVariantSet) -> bool {
        match (self, other) {
            (PackageVariantSet::Discrete(a), PackageVariantSet::Discrete(b)) => a.bits().len()
                == b.bits().len(),
            _ => true,
        }
    }

    /// Equality of sets: the same variant, and for subsets the same bits.
    pub open spec fn same_set(&self, other: &PackageVariantSet) -> bool {
        match (self, other) {
            (PackageVariantSet::Empty, PackageVariantSet::Empty) => true,
            (PackageVariantSet::Full, PackageVariantSet::Full) => true,
            (PackageVariantSet::Discrete(a), PackageVariantSet::Discrete(b)) => a.bits()
                == b.bits(),
            _ => false,
        }
    }

    pub fn empty() -> (r: PackageVariantSet)
        ensures
            r is Empty,
            forall|n: nat| #[trigger] r.members(n) == Set::<int>::empty(),
    {
        let r = PackageVariantSet::Empty;
        assert forall|n: nat| #[trigger] r.members(n) == Set::<int>::empty() by {
            assert(r.members(n) =~= Set::<int>::empty());
        }
        r
    }

    pub fn full() -> (r: PackageVariantSet)
        ensures
            r is Full,
            forall|n: nat| #[trigger] r.members(n) == all_indices(n),
    {
        let r = PackageVariantSet::Full;
        assert forall|n: nat| #[trigger] r.members(n) == all_indices(n) by {
            assert(r.members(n) =~= all_indices(n));
        }
        r
    }

    /// The set holding only `v`.
    pub fn singleton(v: VariantId) -> (r: PackageVariantSet)
        requires
            v.wf(),
        ensures
            r.wf(v.count as nat),
            r.members(v.count as nat) == set![v.index as int],
    {
        if v.count == 1 {
            let r = PackageVariantSet::Full;
            assert(r.members(1) =~= set![0int]);
            r
        } else {
            let r = PackageVariantSet::Discrete(PackageVariantRange::singleton(v));
            assert(r.members(v.count as nat) =~= set![v.index as int]);
            r
        }
    }

    /// Whether the variant at `idx` is in the set; for a subset the index must lie in the
    /// universe.
    pub fn contains_variant_index(&self, idx: usize) -> (r: bool)
        requires
            self is Discrete ==> idx < self->Discrete_0.bits().len(),
        ensures
            r == self.has(idx as int),
    {
        match self {
            PackageVariantSet::Empty => false,
            PackageVariantSet::Full => true,
            PackageVariantSet::Discrete(d) => d.contains_variant_index(idx),
        }
    }

    /// Whether the set holds `v`.
    pub fn contains(&self, v: &VariantId) -> (r: bool)
        requires
            self is Discrete ==> v.index < self->Discrete_0.bits().len(),
        ensures
            r == self.has(v.index as int),
    {
        self.contains_variant_index(v.index)
    }

    /// The variants not in the set.
    pub fn complement(&self) -> (r: PackageVariantSet)
        ensures
            forall|n: nat| #[trigger] self.wf(n) ==> r.wf(n),
            forall|n: nat|
                self.wf(n) ==> #[trigger] r.members(n) == all_indices(n).difference(
                    self.members(n),
                ),
    {
        let r = match self {
            PackageVariantSet::Empty => PackageVariantSet::Full,
            PackageVariantSet::Full => PackageVariantSet::Empty,
            PackageVariantSet::Discrete(d) => PackageVariantSet::Discrete(d.complement()),
        };
        assert forall|n: nat| self.wf(n) implies #[trigger] r.members(n) == all_indices(
            n,
        ).difference(self.members(n)) by {
            assert(r.members(n) =~= all_indices(n).difference(self.members(n)));
        }
        r
    }

    /// A copy of the set.
    pub fn duplicate(&self) -> (r: PackageVariantSet)
        ensures
            r.same_set(self),
            forall|i: int| r.has(i) == self.has(i),
            forall|n: nat| #[trigger] self.wf(n) ==> r.wf(n),
            forall|n: nat| #[trigger] r.members(n) == self.members(n),
    {
        let r = match self {
            PackageVariantSet::Empty => PackageVariantSet::Empty,
            PackageVariantSet::Full => PackageVariantSet::Full,
            PackageVariantSet::Discrete(d) => PackageVariantSet::Discrete(
                PackageVariantRange { universe: d.universe, included: bv_clone(&d.included) },
            ),
        };
        assert forall|n: nat| #[trigger] r.members(n) == self.members(n) by {
            assert(r.members(n) =~= self.members(n));
        }
        r
    }

    /// The variants in both sets.
    pub fn intersection(&self, other: &PackageVariantSet) -> (r: PackageVariantSet)
        requires
            self.compatible(other),
        ensures
            forall|n: nat| self.wf(n) && other.wf(n) ==> #[trigger] r.wf(n),
            forall|n: nat|
                self.wf(n) && other.wf(n) ==> #[trigger] r.members(n) == self.members(
                    n,
                ).intersect(other.members(n)),
    {
        let r = match (self, other) {
            (PackageVariantSet::Empty, _) => PackageVariantSet::Empty,
            (_, PackageVariantSet::Empty) => PackageVariantSet::Empty,
            (PackageVariantSet::Full, o) => o.duplicate(),
            (s, PackageVariantSet::Full) => s.duplicate(),
            (PackageVariantSet::Discrete(a), PackageVariantSet::Discrete(b)) => {
                PackageVariantRange::and_ranges(a, b)
            },
        };
        assert forall|n: nat| self.wf(n) && other.wf(n) implies #[trigger] r.members(n)
            == self.members(n).intersect(other.members(n)) by {
            assert(r.members(n) =~= self.members(n).intersect(other.members(n)));
        }
        r
    }

    /// The variants in either set.
    pub fn union(&self, other: &PackageVariantSet) -> (r: PackageVariantSet)
        requires
            self.compatible(other),
        ensures
            forall|n: nat| self.wf(n) && other.wf(n) ==> #[trigger] r.wf(n),
            forall|n: nat|
                self.wf(n) && other.wf(n) ==> #[trigger] r.members(n) == self.members(
                    n,
                ).union(other.members(n)),
    {
        let r = match (self, other) {
            (PackageVariantSet::Empty, o) => o.duplicate(),
            (s, PackageVariantSet::Empty) => s.duplicate(),
            (PackageVariantSet::Full, _) => PackageVariantSet::Full,
            (_, PackageVariantSet::Full) => PackageVariantSet::Full,
            (PackageVariantSet::Discrete(a), PackageVariantSet::Discrete(b)) => {
                PackageVariantRange::or_ranges(a, b)
            },
        };
        assert forall|n: nat| self.wf(n) && other.wf(n) implies #[trigger] r.members(n)
            == self.members(n).union(other.members(n)) by {
            assert(r.members(n) =~= self.members(n).union(other.members(n)));
        }
        r
    }

    /// Bitwise equality: both empty, both full, or subsets with the same bits.
    pub fn same_as(&self, other: &PackageVariantSet) -> (r: bool)
        ensures
            r == self.same_set(other),
    {
        match (self, other) {
            (PackageVariantSet::Empty, PackageVariantSet::Empty) => true,
            (PackageVariantSet::Full, PackageVariantSet::Full) => true,
            (PackageVariantSet::Discrete(a), PackageVariantSet::Discrete(b)) => {
                let n = bv_len(&a.included);
                if n != bv_len(&b.included) {
                    return false;
                }
                let mut i: usize = 0;
                while i < n
                    invariant
                        self.same_set(other) == (a.bits() == b.bits()),
                        n == a.bits().len(),
                        n == b.bits().len(),
                        i <= n,
                        forall|k: int| 0 <= k < i ==> a.bits()[k] == b.bits()[k],
                    decreases n - i,
                {
                    let x = bv_get(&a.included, i);
                    let y = bv_get(&b.included, i);
                    match (x, y) {
                        (Some(p), Some(q)) => {
                            if p != q {
                                assert(a.bits()[i as int] != b.bits()[i as int]);
                                return false;
                            }
                        },
                        _ => {},
                    }
                    i = i + 1;
                }
                assert(a.bits() =~= b.bits());
                true
            },
            _ => false,
        }
    }
}

} // verus!
