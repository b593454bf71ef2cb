//! Laws of the candidate-set algebra, stated over the sets of variant indices that the
//! operations' contracts describe.
use crate::bits::{count_set, lemma_count_set_some_clear, lemma_count_set_some_set};
use crate::candidates::{all_indices, PackageVariantSet};
use crate::index::{admits, names, Index, Requirement};
use crate::record::{MatchSpec, PackageRecord};
use vstd::prelude::*;

verus! {

/// A normalized subset of a universe of `n` variants holds at least one variant and
/// misses at least one: its population is neither zero nor `n`.
pub proof fn law_subset_population(s: PackageVariantSet, n: nat)
    requires
        s.wf(n),
        s is Discrete,
    ensures
        0 < count_set(s->Discrete_0.bits(), n) < n,
{
    let bits = s->Discrete_0.bits();
    let i = choose|i: int| 0 <= i < n && bits[i];
    let j = choose|j: int| 0 <= j < n && !bits[j];
    lemma_count_set_some_set(bits, n, i);
    lemma_count_set_some_clear(bits, n, j);
}

/// Complementing twice gives the set back; intersecting with everything and joining with
/// nothing change nothing; a set and its complement share nothing and together cover the
/// universe.
pub proof fn law_complement_identities(s: PackageVariantSet, n: nat)
    requires
        s.wf(n),
    ensures
        all_indices(n).difference(all_indices(n).difference(s.members(n))) == s.members(n),
        s.members(n).intersect(PackageVariantSet::Full.members(n)) == s.members(n),
        s.members(n).union(PackageVariantSet::Empty.members(n)) == s.members(n),
        s.members(n).intersect(all_indices(n).difference(s.members(n))) == PackageVariantSet::Empty.members(n),
        s.members(n).union(all_indices(n).difference(s.members(n))) == PackageVariantSet::Full.members(n),
{
    assert(all_indices(n).difference(all_indices(n).difference(s.members(n))) =~= s.members(n));
    assert(s.members(n).intersect(PackageVariantSet::Full.members(n)) =~= s.members(n));
    assert(s.members(n).union(PackageVariantSet::Empty.members(n)) =~= s.members(n));
    assert(s.members(n).intersect(all_indices(n).difference(s.members(n))) =~= PackageVariantSet::Empty.members(n));
    assert(s.members(n).union(all_indices(n).difference(s.members(n))) =~= PackageVariantSet::Full.members(n));
}

/// Intersection and union are commutative and associative.
pub proof fn law_commutative_associative(a: PackageVariantSet, b: PackageVariantSet, c: PackageVariantSet, n: nat)
    requires
        a.wf(n),
        b.wf(n),
        c.wf(n),
    ensures
        a.members(n).intersect(b.members(n)) == b.members(n).intersect(a.members(n)),
        a.members(n).union(b.members(n)) == b.members(n).union(a.members(n)),
        a.members(n).intersect(b.members(n)).intersect(c.members(n)) == a.members(n).intersect(
            b.members(n).intersect(c.members(n)),
        ),
        a.members(n).union(b.members(n)).union(c.members(n)) == a.members(n).union(
            b.members(n).union(c.members(n)),
        ),
{
    assert(a.members(n).intersect(b.members(n)) =~= b.members(n).intersect(a.members(n)));
    assert(a.members(n).union(b.members(n)) =~= b.members(n).union(a.members(n)));
    assert(a.members(n).intersect(b.members(n)).intersect(c.members(n)) =~= a.members(n).intersect(
        b.members(n).intersect(c.members(n)),
    ));
    assert(a.members(n).union(b.members(n)).union(c.members(n)) =~= a.members(n).union(
        b.members(n).union(c.members(n)),
    ));
}

/// Two lists holding the same specs, in whatever order, name the same packages and
/// admit the same records.
pub proof fn lemma_same_specs(a: Seq<MatchSpec>, b: Seq<MatchSpec>)
    requires
        forall|x: MatchSpec| a.contains(x) <==> b.contains(x),
    ensures
        forall|n: Seq<char>| #[trigger] names(a, n) == names(b, n),
        forall|n: Seq<char>, r: PackageRecord| #[trigger] admits(a, n, r) == admits(b, n, r),
{
    assert forall|n: Seq<char>| #[trigger] names(a, n) == names(b, n) by {
        if names(a, n) {
            let t = choose|t: int| 0 <= t < a.len() && (#[trigger] a[t]).name->Some_0@ == n;
            assert(a.contains(a[t]));
            let u = choose|u: int| 0 <= u < b.len() && b[u] == a[t];
            assert(b[u].name->Some_0@ == n);
        }
        if names(b, n) {
            let t = choose|t: int| 0 <= t < b.len() && (#[trigger] b[t]).name->Some_0@ == n;
            assert(b.contains(b[t]));
            let u = choose|u: int| 0 <= u < a.len() && a[u] == b[t];
            assert(a[u].name->Some_0@ == n);
        }
    }
    assert forall|n: Seq<char>, r: PackageRecord| #[trigger] admits(a, n, r) == admits(b, n, r) by {
        if admits(a, n, r) {
            assert forall|t: int| 0 <= t < b.len() && (#[trigger] b[t]).name->Some_0@ == n implies b[t].matches_spec(&r) by {
                assert(b.contains(b[t]));
                let u = choose|u: int| 0 <= u < a.len() && a[u] == b[t];
            }
        }
        if admits(b, n, r) {
            assert forall|t: int| 0 <= t < a.len() && (#[trigger] a[t]).name->Some_0@ == n implies a[t].matches_spec(&r) by {
                assert(a.contains(a[t]));
                let u = choose|u: int| 0 <= u < b.len() && b[u] == a[t];
            }
        }
    }
}

/// The requirements derived from a variant's constrains and depends do not depend on the
/// order of its dependencies: requirements that describe one arrangement of them describe
/// every rearrangement too.
pub proof fn law_requirements_order_independent(
    index: &Index,
    es: Seq<(String, Requirement)>,
    cs: Seq<MatchSpec>,
    d1: Seq<MatchSpec>,
    d2: Seq<MatchSpec>,
)
    requires
        d1.to_multiset() == d2.to_multiset(),
        index.entries_model(es, cs + d1, d1),
    ensures
        index.entries_model(es, cs + d2, d2),
{
    broadcast use vstd::seq_lib::group_to_multiset_ensures;

    let a1 = cs + d1;
    let a2 = cs + d2;
    assert forall|x: MatchSpec| d1.contains(x) <==> d2.contains(x) by {
        assert(d1.contains(x) <==> d1.to_multiset().count(x) > 0);
        assert(d2.contains(x) <==> d2.to_multiset().count(x) > 0);
    }
    assert forall|x: MatchSpec| a1.contains(x) <==> a2.contains(x) by {
        if a1.contains(x) {
            let t = choose|t: int| 0 <= t < a1.len() && a1[t] == x;
            if t < cs.len() {
                assert(a2[t] == x);
            } else {
                assert(d1[t - cs.len()] == x);
                assert(d1.contains(x));
                let u = choose|u: int| 0 <= u < d2.len() && d2[u] == x;
                assert(a2[cs.len() + u] == x);
            }
        }
        if a2.contains(x) {
            let t = choose|t: int| 0 <= t < a2.len() && a2[t] == x;
            if t < cs.len() {
                assert(a1[t] == x);
            } else {
                assert(d2[t - cs.len()] == x);
                assert(d2.contains(x));
                let u = choose|u: int| 0 <= u < d1.len() && d1[u] == x;
                assert(a1[cs.len() + u] == x);
            }
        }
    }
    lemma_same_specs(a1, a2);
    lemma_same_specs(d1, d2);
    assert forall|t: int| 0 <= t < a2.len() implies exists|a: int| 0 <= a < es.len() && (#[trigger] es[a]).0@ == (#[trigger] a2[t]).name->Some_0@ by {
        assert(a2.contains(a2[t]));
        let u = choose|u: int| 0 <= u < a1.len() && a1[u] == a2[t];
        assert(exists|a: int| 0 <= a < es.len() && (#[trigger] es[a]).0@ == (#[trigger] a1[u]).name->Some_0@);
    }
}

} // verus!
