//! The package index: universes of variants per package name, the ordering policy, and
//! the decisions that a conflict-driven search asks of its dependency provider.
use crate::bits::{bits_of, bv_all, bv_from_elem, bv_none, bv_set, count_set};
use crate::candidates::{PackageVariantRange, PackageVariantSet, VariantId};
use crate::record::{lemma_parts_cmp_antisym, lemma_parts_cmp_trans, parts_cmp, MatchSpec, PackageRecord, Version};
use std::cmp::Ordering;
use vstd::prelude::*;
use vstd::string::StrSliceExecFns;

verus! {

/// All known variants of one package: positions of records in the index.
#[derive(Debug)]
pub struct PackageVariants {
    pub id: usize,
    pub name: String,
    pub members: Vec<usize>,
}

/// The positions below `k` of records named `n`, in order.
pub open spec fn named_upto(recs: Seq<PackageRecord>, n: Seq<char>, k: nat) -> Seq<usize>
    decreases k,
{
    if k == 0 {
        Seq::empty()
    } else {
        let prev = named_upto(recs, n, (k - 1) as nat);
        if recs[k - 1].name@ == n {
            prev.push((k - 1) as usize)
        } else {
            prev
        }
    }
}

pub proof fn lemma_named_upto_bounded(recs: Seq<PackageRecord>, n: Seq<char>, k: nat)
    ensures
        forall|j: int| 0 <= j < named_upto(recs, n, k).len() ==> named_upto(recs, n, k)[j] < k,
    decreases k,
{
    if k > 0 {
        lemma_named_upto_bounded(recs, n, (k - 1) as nat);
        let prev = named_upto(recs, n, (k - 1) as nat);
        assert forall|j: int| 0 <= j < named_upto(recs, n, k).len() implies named_upto(
            recs,
            n,
            k,
        )[j] < k by {
            if j < prev.len() {
                assert(prev[j] < k - 1);
            }
        }
    }
}

impl PackageVariants {
    /// The set of variants whose record satisfies `match_spec`, normalized.
    pub fn range_from_matchspec(&self, records: &Vec<PackageRecord>, match_spec: &MatchSpec) -> (r:
        PackageVariantSet)
        requires
            forall|j: int| 0 <= j < self.members@.len() ==> self.members@[j] < records@.len(),
        ensures
            r.wf(self.members@.len()),
            r is Discrete ==> r->Discrete_0.universe == self.id,
            forall|i: int|
                0 <= i < self.members@.len() ==> #[trigger] r.has(i) == match_spec.matches_spec(
                    &records@[self.members@[i] as int],
                ),
    {
        let n = self.members.len();
        let mut included = bv_from_elem(n, false);
        let mut i: usize = 0;
        while i < n
            invariant
                n == self.members@.len(),
                forall|j: int| 0 <= j < self.members@.len() ==> self.members@[j] < records@.len(),
                i <= n,
                bits_of(included).len() == n,
                forall|j: int|
                    0 <= j < i ==> #[trigger] bits_of(included)[j] == match_spec.matches_spec(
                        &records@[self.members@[j] as int],
                    ),
                forall|j: int| i <= j < n ==> !#[trigger] bits_of(included)[j],
            decreases n - i,
        {
            if match_spec.matches(&records[self.members[i]]) {
                bv_set(&mut included, i, true);
            }
            i = i + 1;
        }
        if bv_none(&included) {
            assert forall|i: int| 0 <= i < n implies !match_spec.matches_spec(
                &records@[self.members@[i] as int],
            ) by {
                assert(!bits_of(included)[i]);
            }
            PackageVariantSet::Empty
        } else if bv_all(&included) {
            assert forall|i: int| 0 <= i < n implies match_spec.matches_spec(
                &records@[self.members@[i] as int],
            ) by {
                assert(bits_of(included)[i]);
            }
            PackageVariantSet::Full
        } else {
            PackageVariantSet::Discrete(PackageVariantRange { universe: self.id, included })
        }
    }

    /// The number of variants in `range`.
    pub fn available_variant_count_in_range(&self, range: &PackageVariantSet) -> (r: usize)
        requires
            range.wf(self.members@.len()),
        ensures
            r == population(range, self.members@.len()),
    {
        match range {
            PackageVariantSet::Empty => 0,
            PackageVariantSet::Full => self.members.len(),
            PackageVariantSet::Discrete(d) => crate::bits::popcount(&d.included),
        }
    }
}

/// The number of variants in a set over a universe of `n` variants.
pub open spec fn population(s: &PackageVariantSet, n: nat) -> nat {
    match s {
        PackageVariantSet::Empty => 0,
        PackageVariantSet::Full => n,
        PackageVariantSet::Discrete(d) => count_set(d.bits(), n),
    }
}

/// The package index: the records of every repository in registration order, followed by
/// the virtual records, and the universes built so far with their cached orders.
#[derive(Debug)]
pub struct Index {
    pub records: Vec<PackageRecord>,
    pub n_repo: usize,
    pub universes: Vec<PackageVariants>,
    pub orders: Vec<Option<Vec<usize>>>,
}

/// The highest version among the records at `mem[..k]` that satisfy `spec`, and whether
/// all of those records carry a tracked feature; `None` when none satisfies it.
pub open spec fn highest_in(recs: Seq<PackageRecord>, spec: MatchSpec, mem: Seq<usize>, k: nat) -> Option<(Seq<u64>, bool)>
    decreases k,
{
    if k == 0 {
        None
    } else {
        let prev = highest_in(recs, spec, mem, (k - 1) as nat);
        let r = recs[mem[k - 1] as int];
        if spec.matches_spec(&r) {
            match prev {
                None => Some((r.version@, r.is_tracked())),
                Some((v, t)) => Some(
                    (if parts_cmp(v, r.version@) < 0 { r.version@ } else { v }, t && r.is_tracked()),
                ),
            }
        } else {
            prev
        }
    }
}

/// The highest version found over `mem[..k]` is that of some matching record, no matching
/// record has a higher one, and the flag says whether every matching record is tracked.
pub proof fn lemma_highest_in_is_max(recs: Seq<PackageRecord>, spec: MatchSpec, mem: Seq<usize>, k: nat)
    requires
        k <= mem.len(),
    ensures
        highest_in(recs, spec, mem, k) is None <==> forall|j: int|
            0 <= j < k ==> !spec.matches_spec(&#[trigger] recs[mem[j] as int]),
        highest_in(recs, spec, mem, k) matches Some((v, t)) ==> {
            &&& exists|j: int| 0 <= j < k && spec.matches_spec(&#[trigger] recs[mem[j] as int]) && recs[mem[j] as int].version@ == v
            &&& forall|j: int| 0 <= j < k && spec.matches_spec(&#[trigger] recs[mem[j] as int]) ==> parts_cmp(recs[mem[j] as int].version@, v) <= 0
            &&& t == forall|j: int| 0 <= j < k && spec.matches_spec(&#[trigger] recs[mem[j] as int]) ==> recs[mem[j] as int].is_tracked()
        },
    decreases k,
{
    if k > 0 {
        lemma_highest_in_is_max(recs, spec, mem, (k - 1) as nat);
        let r = recs[mem[k - 1] as int];
        lemma_parts_cmp_antisym(r.version@, r.version@);
        match highest_in(recs, spec, mem, (k - 1) as nat) {
            Some((v, t)) => {
                lemma_parts_cmp_antisym(v, r.version@);
                if spec.matches_spec(&r) && parts_cmp(v, r.version@) < 0 {
                    assert forall|j: int| 0 <= j < k && spec.matches_spec(&#[trigger] recs[mem[j] as int]) implies parts_cmp(recs[mem[j] as int].version@, r.version@) <= 0 by {
                        if j < k - 1 {
                            lemma_parts_cmp_trans(recs[mem[j] as int].version@, v, r.version@);
                        }
                    }
                }
            },
            None => {},
        }
    }
}

/// The ordering of a three-way comparison turned around.
pub open spec fn reversed(o: Ordering) -> Ordering {
    match o {
        Ordering::Less => Ordering::Greater,
        Ordering::Greater => Ordering::Less,
        Ordering::Equal => Ordering::Equal,
    }
}

/// The first spec in `specs` that names `n`.
pub open spec fn first_named(specs: Seq<MatchSpec>, n: Seq<char>) -> Option<MatchSpec>
    decreases specs.len(),
{
    if specs.len() == 0 {
        None
    } else if specs[0].name is Some && specs[0].name->Some_0@ == n {
        Some(specs[0])
    } else {
        first_named(specs.drop_first(), n)
    }
}

impl Index {
    pub open spec fn is_cached(&self, n: Seq<char>) -> bool {
        exists|u: int| 0 <= u < self.universes@.len() && (#[trigger] self.universes@[u]).name@ == n
    }

    /// The positions of the records that make up the universe of package `n`: the cached
    /// universe where one exists, else every repository record of that name.
    pub open spec fn universe_of(&self, n: Seq<char>) -> Seq<usize> {
        if self.is_cached(n) {
            let u = choose|u: int| 0 <= u < self.universes@.len() && (#[trigger] self.universes@[u]).name@ == n;
            self.universes@[u].members@
        } else {
            named_upto(self.records@, n, self.n_repo as nat)
        }
    }

    /// The record of variant `i` of universe `u`.
    pub open spec fn rec(&self, u: int, i: int) -> PackageRecord {
        self.records@[self.universes@[u].members@[i] as int]
    }

    pub open spec fn highest_spec(&self, spec: MatchSpec) -> Option<(Seq<u64>, bool)> {
        match spec.name {
            None => None,
            Some(n) => {
                let mem = self.universe_of(n@);
                highest_in(self.records@, spec, mem, mem.len())
            },
        }
    }

    /// The score of one dependency shared by both sides: positive when the left side is
    /// worse.
    pub open spec fn pair_score(&self, a: MatchSpec, b: MatchSpec) -> int {
        match (self.highest_spec(a), self.highest_spec(b)) {
            (Some((va, ta)), Some((vb, tb))) => if ta && !tb {
                100
            } else if !ta && tb {
                -100
            } else {
                -parts_cmp(va, vb)
            },
            _ => 0,
        }
    }

    /// The dependency score of `a[..k]` against the specs `b`.
    pub open spec fn dep_score(&self, a: Seq<MatchSpec>, b: Seq<MatchSpec>, k: nat) -> int
        decreases k,
    {
        if k == 0 {
            0
        } else {
            self.dep_score(a, b, (k - 1) as nat) + match a[k - 1].name {
                Some(n) => match first_named(b, n@) {
                    Some(t) => self.pair_score(a[k - 1], t),
                    None => 0,
                },
                None => 0,
            }
        }
    }

    /// The cascade of the ordering policy; `Less` means that `a` ranks above `b`.
    pub open spec fn cascade(&self, a: PackageRecord, b: PackageRecord) -> Ordering {
        let s = self.dep_score(a.depends@, b.depends@, a.depends@.len());
        if !a.is_tracked() && b.is_tracked() {
            Ordering::Less
        } else if a.is_tracked() && !b.is_tracked() {
            Ordering::Greater
        } else if parts_cmp(a.version@, b.version@) > 0 {
            Ordering::Less
        } else if parts_cmp(a.version@, b.version@) < 0 {
            Ordering::Greater
        } else if a.build_number > b.build_number {
            Ordering::Less
        } else if a.build_number < b.build_number {
            Ordering::Greater
        } else if s > 0 {
            Ordering::Greater
        } else if s < 0 {
            Ordering::Less
        } else if a.timestamp > b.timestamp {
            Ordering::Less
        } else if a.timestamp < b.timestamp {
            Ordering::Greater
        } else {
            Ordering::Equal
        }
    }

    /// The order of variants `i` and `j` of universe `u`. The cascade is always evaluated
    /// with the lower index on the left, so that swapping the two reverses the result.
    pub open spec fn compare_spec(&self, u: int, i: int, j: int) -> Ordering {
        if i <= j {
            self.cascade(self.rec(u, i), self.rec(u, j))
        } else {
            reversed(self.cascade(self.rec(u, j), self.rec(u, i)))
        }
    }

    /// `o` lists every variant of universe `u` once, and no variant ranks above the one
    /// before it.
    pub open spec fn is_ranking(&self, u: int, o: Seq<usize>) -> bool {
        let m = self.universes@[u].members@.len();
        &&& o.len() == m
        &&& o.no_duplicates()
        &&& forall|p: int| 0 <= p < o.len() ==> #[trigger] o[p] < m
        &&& forall|k: usize| k < m ==> #[trigger] o.contains(k)
        &&& forall|p: int|
            0 <= p && p + 1 < o.len() ==> #[trigger] self.compare_spec(u, o[p] as int, o[p + 1] as int)
                != Ordering::Greater
    }

    /// No two universes share a name.
    pub open spec fn names_unique(&self) -> bool {
        forall|u: int, v: int|
            0 <= u < self.universes@.len() && 0 <= v < self.universes@.len() && u != v
                ==> (#[trigger] self.universes@[u]).name@ != (#[trigger] self.universes@[v]).name@
    }

    pub open spec fn wf(&self) -> bool {
        &&& self.n_repo <= self.records@.len()
        &&& self.orders@.len() == self.universes@.len()
        &&& forall|u: int| 0 <= u < self.universes@.len() ==> (#[trigger] self.universes@[u]).id == u
        &&& forall|u: int, j: int|
            0 <= u < self.universes@.len() && 0 <= j < self.universes@[u].members@.len()
                ==> #[trigger] self.universes@[u].members@[j] < self.records@.len()
        &&& self.names_unique()
        &&& forall|u: int|
            0 <= u < self.universes@.len() && (#[trigger] self.orders@[u]) is Some ==> self.is_ranking(
                u,
                self.orders@[u]->Some_0@,
            )
    }

    /// `self` holds everything `old` held, and universes built since then hold every
    /// repository record of their name.
    pub open spec fn extends(&self, old: &Index) -> bool {
        &&& self.records == old.records
        &&& self.n_repo == old.n_repo
        &&& self.universes@.len() >= old.universes@.len()
        &&& forall|u: int| 0 <= u < old.universes@.len() ==> #[trigger] self.universes@[u] == old.universes@[u]
        &&& forall|u: int|
            0 <= u < old.universes@.len() && (#[trigger] old.orders@[u]) is Some ==> self.orders@[u]
                == old.orders@[u]
        &&& forall|u: int|
            old.universes@.len() <= u < self.universes@.len() ==> (#[trigger] self.universes@[u]).members@
                == named_upto(self.records@, self.universes@[u].name@, self.n_repo as nat)
                && !old.is_cached(self.universes@[u].name@)
    }

    pub proof fn lemma_extends_universe(&self, old: &Index, n: Seq<char>)
        requires
            self.names_unique(),
            old.wf(),
            self.extends(old),
        ensures
            self.universe_of(n) == old.universe_of(n),
    {
        if old.is_cached(n) {
            let u = choose|u: int| 0 <= u < old.universes@.len() && (#[trigger] old.universes@[u]).name@ == n;
            assert(self.universes@[u] == old.universes@[u]);
            assert(self.is_cached(n));
        } else if self.is_cached(n) {
            let u = choose|u: int| 0 <= u < self.universes@.len() && (#[trigger] self.universes@[u]).name@ == n;
            if u < old.universes@.len() {
                assert(old.universes@[u] == self.universes@[u]);
            }
        }
    }

    /// The cached universe named `name`, if any.
    fn lookup(&self, name: &String) -> (r: Option<usize>)
        requires
            self.wf(),
        ensures
            match r {
                Some(u) => u < self.universes@.len() && self.universes@[u as int].name@ == name@,
                None => !self.is_cached(name@),
            },
    {
        let mut u: usize = 0;
        while u < self.universes.len()
            invariant
                u <= self.universes@.len(),
                forall|v: int| 0 <= v < u ==> (#[trigger] self.universes@[v]).name@ != name@,
            decreases self.universes@.len() - u,
        {
            if self.universes[u].name.eq(name) {
                return Some(u);
            }
            u = u + 1;
        }
        None
    }

    /// The positions of the repository records named `name`, in order.
    fn collect_members(&self, name: &String) -> (r: Vec<usize>)
        requires
            self.wf(),
        ensures
            r@ == named_upto(self.records@, name@, self.n_repo as nat),
    {
        let mut r: Vec<usize> = Vec::new();
        let mut k: usize = 0;
        while k < self.n_repo
            invariant
                self.wf(),
                k <= self.n_repo,
                r@ == named_upto(self.records@, name@, k as nat),
            decreases self.n_repo - k,
        {
            if self.records[k].name.eq(name) {
                r.push(k);
            }
            k = k + 1;
        }
        r
    }

    /// The highest version and tracked flag over the records at `mem` that satisfy `spec`.
    fn highest_over(&self, spec: &MatchSpec, mem: &Vec<usize>) -> (r: Option<(Version, bool)>)
        requires
            forall|j: int| 0 <= j < mem@.len() ==> mem@[j] < self.records@.len(),
        ensures
            match r {
                None => highest_in(self.records@, *spec, mem@, mem@.len()) is None,
                Some((v, t)) => highest_in(self.records@, *spec, mem@, mem@.len()) == Some((v@, t)),
            },
    {
        let mut best: Option<(Version, bool)> = None;
        let mut k: usize = 0;
        while k < mem.len()
            invariant
                forall|j: int| 0 <= j < mem@.len() ==> mem@[j] < self.records@.len(),
                k <= mem@.len(),
                match best {
                    None => highest_in(self.records@, *spec, mem@, k as nat) is None,
                    Some((v, t)) => highest_in(self.records@, *spec, mem@, k as nat) == Some((v@, t)),
                },
            decreases mem@.len() - k,
        {
            let r = &self.records[mem[k]];
            if spec.matches(r) {
                let tracked_here = r.track_features.len() > 0;
                best = match best {
                    None => Some((r.version.duplicate(), tracked_here)),
                    Some((v, t)) => {
                        if v.compare(&r.version) < 0 {
                            Some((r.version.duplicate(), t && tracked_here))
                        } else {
                            Some((v, t && tracked_here))
                        }
                    },
                };
            }
            k = k + 1;
        }
        best
    }

    /// The highest version that `match_spec` selects in its package's universe, and whether
    /// every record it selects carries a tracked feature; `None` for a spec without a name
    /// or one that selects nothing.
    pub fn find_highest_version(&self, match_spec: &MatchSpec) -> (r: Option<(Version, bool)>)
        requires
            self.wf(),
        ensures
            match r {
                None => self.highest_spec(*match_spec) is None,
                Some((v, t)) => self.highest_spec(*match_spec) == Some((v@, t)),
            },
            match_spec.name matches Some(n) ==> {
                let mem = self.universe_of(n@);
                &&& r is None <==> forall|j: int|
                    0 <= j < mem.len() ==> !match_spec.matches_spec(&#[trigger] self.records@[mem[j] as int])
                &&& r matches Some((v, t)) ==> forall|j: int|
                    0 <= j < mem.len() && match_spec.matches_spec(&#[trigger] self.records@[mem[j] as int])
                        ==> parts_cmp(self.records@[mem[j] as int].version@, v@) <= 0
                &&& r matches Some((v, t)) ==> (t <==> forall|j: int|
                    0 <= j < mem.len() && match_spec.matches_spec(&#[trigger] self.records@[mem[j] as int])
                        ==> self.records@[mem[j] as int].is_tracked())
            },
    {
        proof {
            if match_spec.name is Some {
                let mem = self.universe_of(match_spec.name->Some_0@);
                lemma_highest_in_is_max(self.records@, *match_spec, mem, mem.len());
            }
        }
        match &match_spec.name {
            None => None,
            Some(name) => match self.lookup(name) {
                Some(u) => {
                    proof {
                        assert(self.is_cached(name@));
                        let w = choose|w: int| 0 <= w < self.universes@.len() && (#[trigger] self.universes@[w]).name@ == name@;
                        assert(w == u);
                    }
                    self.highest_over(match_spec, &self.universes[u].members)
                },
                None => {
                    let mem = self.collect_members(name);
                    proof {
                        lemma_named_upto_bounded(self.records@, name@, self.n_repo as nat);
                    }
                    self.highest_over(match_spec, &mem)
                },
            },
        }
    }
}

/// Every repository's records, repository after repository.
pub open spec fn flat(s: Seq<Vec<PackageRecord>>) -> Seq<PackageRecord>
    decreases s.len(),
{
    if s.len() == 0 {
        Seq::empty()
    } else {
        s[0]@ + flat(s.drop_first())
    }
}

/// Extending is transitive.
pub proof fn lemma_extends_trans(c: &Index, b: &Index, a: &Index)
    requires
        c.extends(b),
        b.extends(a),
    ensures
        c.extends(a),
{
    assert forall|u: int| a.universes@.len() <= u < c.universes@.len() implies (#[trigger] c.universes@[u]).members@
        == named_upto(c.records@, c.universes@[u].name@, c.n_repo as nat) && !a.is_cached(
        c.universes@[u].name@,
    ) by {
        if u < b.universes@.len() {
            assert(c.universes@[u] == b.universes@[u]);
        } else {
            if a.is_cached(c.universes@[u].name@) {
                let w = choose|w: int| 0 <= w < a.universes@.len() && (#[trigger] a.universes@[w]).name@
                    == c.universes@[u].name@;
                assert(b.universes@[w] == a.universes@[w]);
                assert(b.is_cached(c.universes@[u].name@));
            }
        }
    }
    assert forall|u: int|
        0 <= u < a.universes@.len() && (#[trigger] a.orders@[u]) is Some implies c.orders@[u]
        == a.orders@[u] by {
        assert(b.orders@[u] == a.orders@[u]);
    }
}

/// Why a provider decision failed.
#[derive(Debug)]
pub enum ResolveError {
    /// A required package has no known variant.
    NoEntries(String),
    /// No undecided package has a variant left to choose.
    NoCandidate,
}

pub proof fn lemma_count_set_positive(s: Seq<bool>, n: nat)
    requires
        count_set(s, n) > 0,
    ensures
        exists|i: int| 0 <= i < n && s[i],
    decreases n,
{
    if n > 0 && !s[n - 1] {
        lemma_count_set_positive(s, (n - 1) as nat);
    }
}

impl Index {
    /// Same records, and every package has the same universe.
    pub open spec fn same_model(&self, old: &Index) -> bool {
        &&& self.records == old.records
        &&& self.n_repo == old.n_repo
        &&& forall|n: Seq<char>| #[trigger] self.universe_of(n) == old.universe_of(n)
    }

    /// An index over the records of `repos`, taken in registration order.
    pub fn new(repos: Vec<Vec<PackageRecord>>) -> (r: Index)
        ensures
            r.wf(),
            r.records@ == flat(repos@),
            r.n_repo == r.records@.len(),
            r.universes@.len() == 0,
    {
        let ghost all = repos@;
        let mut rest = repos;
        let mut records: Vec<PackageRecord> = Vec::new();
        while rest.len() > 0
            invariant
                records@ + flat(rest@) == flat(all),
            decreases rest@.len(),
        {
            let ghost before = rest@;
            let mut part = rest.remove(0);
            assert(rest@ =~= before.drop_first());
            assert(records@ + part@ + flat(rest@) =~= records@ + flat(before));
            records.append(&mut part);
        }
        assert(records@ =~= records@ + flat(rest@));
        let n_repo = records.len();
        Index { records, n_repo, universes: Vec::new(), orders: Vec::new() }
    }

    /// The universe of package `name`, built from the repository records on first demand.
    pub fn package_variants(&mut self, name: &String) -> (u: usize)
        requires
            old(self).wf(),
        ensures
            final(self).wf(),
            final(self).same_model(old(self)),
            final(self).extends(old(self)),
            u < final(self).universes@.len(),
            final(self).universes@[u as int].name@ == name@,
            final(self).universes@[u as int].members@ == old(self).universe_of(name@),
    {
        match self.lookup(name) {
            Some(u) => {
                proof {
                    let w = choose|w: int| 0 <= w < self.universes@.len() && (#[trigger] self.universes@[w]).name@ == name@;
                    assert(w == u);
                }
                u
            },
            None => {
                let members = self.collect_members(name);
                proof {
                    lemma_named_upto_bounded(self.records@, name@, self.n_repo as nat);
                }
                let ghost prev = *self;
                let id = self.universes.len();
                self.universes.push(PackageVariants { id, name: name.clone(), members });
                self.orders.push(None);
                proof {
                    assert(self.universes@[id as int].name@ == name@);
                    assert(self.names_unique());
                    assert forall|n: Seq<char>| #[trigger] self.universe_of(n) == prev.universe_of(n) by {
                        self.lemma_extends_universe(&prev, n);
                    }
                    assert forall|u: int| 0 <= u < self.universes@.len() && (#[trigger] self.orders@[u]) is Some
                        implies self.is_ranking(u, self.orders@[u]->Some_0@) by {
                        assert(u < id);
                        assert(prev.orders@[u] == self.orders@[u]);
                        assert(prev.is_ranking(u, self.orders@[u]->Some_0@));
                        assert(prev.universes@[u] == self.universes@[u]);
                        self.lemma_ranking_stable(&prev, u, self.orders@[u]->Some_0@);
                    }
                }
                id
            },
        }
    }

    /// A ranking stays a ranking while the records and every universe stay the same.
    pub proof fn lemma_ranking_stable(&self, old: &Index, u: int, o: Seq<usize>)
        requires
            old.is_ranking(u, o),
            self.records == old.records,
            self.universes@[u] == old.universes@[u],
            forall|n: Seq<char>| #[trigger] self.universe_of(n) == old.universe_of(n),
        ensures
            self.is_ranking(u, o),
    {
        assert forall|a: PackageRecord, b: PackageRecord| #[trigger] self.cascade(a, b) == old.cascade(a, b) by {
            self.lemma_dep_score_same(old, a.depends@, b.depends@, a.depends@.len());
        }
        assert forall|p: int| 0 <= p && p + 1 < o.len() implies #[trigger] self.compare_spec(
            u,
            o[p] as int,
            o[p + 1] as int,
        ) != Ordering::Greater by {
            assert(old.compare_spec(u, o[p] as int, o[p + 1] as int) != Ordering::Greater);
        }
    }

    pub proof fn lemma_dep_score_same(&self, old: &Index, a: Seq<MatchSpec>, b: Seq<MatchSpec>, k: nat)
        requires
            self.records == old.records,
            forall|n: Seq<char>| #[trigger] self.universe_of(n) == old.universe_of(n),
        ensures
            self.dep_score(a, b, k) == old.dep_score(a, b, k),
        decreases k,
    {
        if k > 0 {
            self.lemma_dep_score_same(old, a, b, (k - 1) as nat);
            assert forall|x: MatchSpec| #[trigger] self.highest_spec(x) == old.highest_spec(x) by {
                match x.name {
                    Some(n) => {
                        assert(self.universe_of(n@) == old.universe_of(n@));
                    },
                    None => {},
                }
            }
        }
    }
}

impl Index {
    /// The first spec in `specs` that names `n`, by position.
    fn find_first_named(specs: &Vec<MatchSpec>, n: &String) -> (r: Option<usize>)
        ensures
            match r {
                Some(j) => j < specs@.len() && first_named(specs@, n@) == Some(specs@[j as int]),
                None => first_named(specs@, n@) is None,
            },
    {
        let mut j: usize = 0;
        assert(specs@.skip(0) =~= specs@);
        while j < specs.len()
            invariant
                j <= specs@.len(),
                first_named(specs@, n@) == first_named(specs@.skip(j as int), n@),
            decreases specs@.len() - j,
        {
            assert(specs@.skip(j as int).drop_first() =~= specs@.skip(j + 1));
            assert(specs@.skip(j as int)[0] == specs@[j as int]);
            let hit = match &specs[j].name {
                Some(m) => m.eq(n),
                None => false,
            };
            if hit {
                return Some(j);
            }
            j = j + 1;
        }
        None
    }

    fn pair_score_of(&self, a: &MatchSpec, b: &MatchSpec) -> (r: i128)
        requires
            self.wf(),
        ensures
            r == self.pair_score(*a, *b),
    {
        match (self.find_highest_version(a), self.find_highest_version(b)) {
            (Some((va, ta)), Some((vb, tb))) => {
                if ta && !tb {
                    100
                } else if !ta && tb {
                    -100
                } else {
                    -(va.compare(&vb) as i128)
                }
            },
            _ => 0,
        }
    }

    /// The dependency score of `a` against `b`: positive when `a` is worse.
    fn dependency_score(&self, a: &Vec<MatchSpec>, b: &Vec<MatchSpec>) -> (r: i128)
        requires
            self.wf(),
        ensures
            r == self.dep_score(a@, b@, a@.len()),
    {
        let mut total: i128 = 0;
        let mut k: usize = 0;
        while k < a.len()
            invariant
                self.wf(),
                k <= a@.len(),
                total == self.dep_score(a@, b@, k as nat),
                -100 * k <= total <= 100 * k,
            decreases a@.len() - k,
        {
            proof {
                lemma_parts_cmp_antisym(Seq::empty(), Seq::empty());
            }
            let step: i128 = match &a[k].name {
                Some(n) => match Self::find_first_named(b, n) {
                    Some(j) => self.pair_score_of(&a[k], &b[j]),
                    None => 0,
                },
                None => 0,
            };
            proof {
                match (self.highest_spec(a@[k as int]), self.highest_spec(
                    first_named(b@, a@[k as int].name->Some_0@)->Some_0,
                )) {
                    (Some((va, ta)), Some((vb, tb))) => lemma_parts_cmp_antisym(va, vb),
                    _ => {},
                }
            }
            total = total + step;
            k = k + 1;
        }
        total
    }

    /// The cascade of the ordering policy on two records.
    fn cascade_of(&self, a: &PackageRecord, b: &PackageRecord) -> (r: Ordering)
        requires
            self.wf(),
        ensures
            r == self.cascade(*a, *b),
    {
        let at = a.track_features.len() > 0;
        let bt = b.track_features.len() > 0;
        if !at && bt {
            return Ordering::Less;
        } else if at && !bt {
            return Ordering::Greater;
        }
        let v = a.version.compare(&b.version);
        if v > 0 {
            return Ordering::Less;
        } else if v < 0 {
            return Ordering::Greater;
        }
        if a.build_number > b.build_number {
            return Ordering::Less;
        } else if a.build_number < b.build_number {
            return Ordering::Greater;
        }
        let score = self.dependency_score(&a.depends, &b.depends);
        if score > 0 {
            return Ordering::Greater;
        } else if score < 0 {
            return Ordering::Less;
        }
        if a.timestamp > b.timestamp {
            Ordering::Less
        } else if a.timestamp < b.timestamp {
            Ordering::Greater
        } else {
            Ordering::Equal
        }
    }

    /// The order of variants `a_idx` and `b_idx` of universe `u` under the ordering policy:
    /// `Less` when `a_idx` ranks above `b_idx`.
    pub fn compare_variants(&self, u: usize, a_idx: usize, b_idx: usize) -> (r: Ordering)
        requires
            self.wf(),
            u < self.universes@.len(),
            a_idx < self.universes@[u as int].members@.len(),
            b_idx < self.universes@[u as int].members@.len(),
        ensures
            r == self.compare_spec(u as int, a_idx as int, b_idx as int),
    {
        let mem = &self.universes[u].members;
        if a_idx <= b_idx {
            self.cascade_of(&self.records[mem[a_idx]], &self.records[mem[b_idx]])
        } else {
            match self.cascade_of(&self.records[mem[b_idx]], &self.records[mem[a_idx]]) {
                Ordering::Less => Ordering::Greater,
                Ordering::Greater => Ordering::Less,
                Ordering::Equal => Ordering::Equal,
            }
        }
    }

    /// Swapping two distinct variants reverses their order.
    pub proof fn lemma_compare_antisym(&self, u: int, i: int, j: int)
        requires
            i != j,
        ensures
            self.compare_spec(u, i, j) == reversed(self.compare_spec(u, j, i)),
    {
    }

    /// The variants of universe `u`, best first under the ordering policy.
    fn rank_variants(&self, u: usize) -> (o: Vec<usize>)
        requires
            self.wf(),
            u < self.universes@.len(),
        ensures
            self.is_ranking(u as int, o@),
    {
        let m = self.universes[u].members.len();
        let mut o: Vec<usize> = Vec::new();
        let mut i: usize = 0;
        while i < m
            invariant
                self.wf(),
                u < self.universes@.len(),
                m == self.universes@[u as int].members@.len(),
                i <= m,
                o@.len() == i,
                o@.no_duplicates(),
                forall|p: int| 0 <= p < o@.len() ==> #[trigger] o@[p] < i,
                forall|k: usize| k < i ==> #[trigger] o@.contains(k),
                forall|p: int|
                    0 <= p && p + 1 < o@.len() ==> #[trigger] self.compare_spec(
                        u as int,
                        o@[p] as int,
                        o@[p + 1] as int,
                    ) != Ordering::Greater,
            decreases m - i,
        {
            let mut j: usize = o.len();
            loop
                invariant
                    self.wf(),
                    u < self.universes@.len(),
                    m == self.universes@[u as int].members@.len(),
                    i < m,
                    o@.len() == i,
                    forall|p: int| 0 <= p < o@.len() ==> #[trigger] o@[p] < i,
                    forall|p: int|
                        0 <= p && p + 1 < o@.len() ==> #[trigger] self.compare_spec(
                            u as int,
                            o@[p] as int,
                            o@[p + 1] as int,
                        ) != Ordering::Greater,
                    j <= o@.len(),
                    j < o@.len() ==> self.compare_spec(u as int, i as int, o@[j as int] as int)
                        == Ordering::Less,
                ensures
                    j <= o@.len(),
                    j < o@.len() ==> self.compare_spec(u as int, i as int, o@[j as int] as int)
                        == Ordering::Less,
                    j > 0 ==> self.compare_spec(u as int, i as int, o@[j - 1] as int)
                        != Ordering::Less,
                decreases j,
            {
                if j == 0 {
                    break;
                }
                match self.compare_variants(u, i, o[j - 1]) {
                    Ordering::Less => {},
                    _ => break,
                }
                j = j - 1;
            }
            let ghost before = o@;
            o.insert(j, i);
            proof {
                let after = o@;
                assert(after == before.insert(j as int, i));
                assert forall|p: int| 0 <= p < after.len() implies #[trigger] after[p] < i + 1 by {
                    if p < j {
                        assert(after[p] == before[p]);
                    } else if p > j {
                        assert(after[p] == before[p - 1]);
                    }
                }
                assert forall|k: usize| k < i + 1 implies #[trigger] after.contains(k) by {
                    if k < i {
                        assert(before.contains(k));
                        let p = choose|p: int| 0 <= p < before.len() && before[p] == k;
                        if p < j {
                            assert(after[p] == k);
                        } else {
                            assert(after[p + 1] == k);
                        }
                    } else {
                        assert(after[j as int] == k);
                    }
                }
                assert forall|p: int, q: int|
                    0 <= p < after.len() && 0 <= q < after.len() && p != q implies after[p]
                    != after[q] by {
                    if p != j && q != j {
                        let pp = if p < j { p } else { p - 1 };
                        let qq = if q < j { q } else { q - 1 };
                        assert(after[p] == before[pp]);
                        assert(after[q] == before[qq]);
                    } else if p == j {
                        let qq = if q < j { q } else { q - 1 };
                        assert(after[q] == before[qq]);
                    } else {
                        let pp = if p < j { p } else { p - 1 };
                        assert(after[p] == before[pp]);
                    }
                }
                assert forall|p: int| 0 <= p && p + 1 < after.len() implies #[trigger] self.compare_spec(
                    u as int,
                    after[p] as int,
                    after[p + 1] as int,
                ) != Ordering::Greater by {
                    if p + 1 < j {
                        assert(after[p] == before[p] && after[p + 1] == before[p + 1]);
                        assert(self.compare_spec(u as int, before[p] as int, before[p + 1] as int)
                            != Ordering::Greater);
                    } else if p + 1 == j {
                        assert(after[p] == before[p]);
                        assert(after[p + 1] == i);
                        assert(self.compare_spec(u as int, i as int, before[p] as int)
                            != Ordering::Less);
                        self.lemma_compare_antisym(u as int, before[p] as int, i as int);
                    } else if p == j {
                        assert(after[p] == i);
                        assert(after[p + 1] == before[p]);
                    } else {
                        assert(after[p] == before[p - 1] && after[p + 1] == before[p]);
                        let pp = p - 1;
                        assert(self.compare_spec(u as int, before[pp] as int, before[pp + 1] as int)
                            != Ordering::Greater);
                        assert(pp + 1 == p);
                    }
                }
            }
            i = i + 1;
        }
        o
    }

    /// Computes and caches the ranking of universe `u`, unless it is cached already.
    pub fn variants_order(&mut self, u: usize)
        requires
            old(self).wf(),
            u < old(self).universes@.len(),
        ensures
            final(self).wf(),
            final(self).same_model(old(self)),
            final(self).extends(old(self)),
            final(self).universes == old(self).universes,
            final(self).orders@[u as int] is Some,
    {
        if self.orders[u].is_none() {
            let o = self.rank_variants(u);
            let ghost prev = *self;
            self.orders.set(u, Some(o));
            proof {
                assert forall|n: Seq<char>| #[trigger] self.universe_of(n) == prev.universe_of(n) by {
                    if prev.is_cached(n) {
                        let w = choose|w: int| 0 <= w < prev.universes@.len() && (#[trigger] prev.universes@[w]).name@ == n;
                        assert(self.universes@[w] == prev.universes@[w]);
                    }
                }
                assert forall|w: int|
                    0 <= w < self.universes@.len() && (#[trigger] self.orders@[w]) is Some
                    implies self.is_ranking(w, self.orders@[w]->Some_0@) by {
                    if w != u {
                        assert(prev.orders@[w] == self.orders@[w]);
                    }
                    assert(prev.is_ranking(w, self.orders@[w]->Some_0@));
                    self.lemma_ranking_stable(&prev, w, self.orders@[w]->Some_0@);
                }
            }
        }
    }
}

impl Index {
    /// The population of the `k`-th candidate pair in its package's universe.
    pub open spec fn pop_at(&self, potential: Seq<(String, PackageVariantSet)>, k: int) -> nat {
        population(&potential[k].1, self.universe_of(potential[k].0@).len())
    }

    /// Every candidate set is normalized for its package's universe.
    pub open spec fn candidates_wf(&self, potential: Seq<(String, PackageVariantSet)>) -> bool {
        forall|k: int|
            0 <= k < potential.len() ==> (#[trigger] potential[k]).1.wf(
                self.universe_of(potential[k].0@).len(),
            )
    }

    /// Picks the undecided package with the fewest candidates left (the first such on a
    /// tie, ignoring packages with none), and within it the best-ranked candidate. Returns
    /// the position of the chosen pair and the chosen variant.
    pub fn choose_package_version(&mut self, potential: &Vec<(String, PackageVariantSet)>) -> (r:
        Result<(usize, VariantId), ResolveError>)
        requires
            old(self).wf(),
            old(self).candidates_wf(potential@),
        ensures
            final(self).wf(),
            final(self).same_model(old(self)),
            final(self).extends(old(self)),
            r is Err <==> forall|k: int|
                0 <= k < potential@.len() ==> #[trigger] old(self).pop_at(potential@, k) == 0,
            r is Err ==> r == Err::<(usize, VariantId), ResolveError>(ResolveError::NoCandidate),
            r matches Ok((k, v)) ==> {
                let set = potential@[k as int].1;
                let pk = old(self).pop_at(potential@, k as int);
                &&& k < potential@.len()
                &&& pk > 0
                &&& forall|j: int|
                    0 <= j < k ==> #[trigger] old(self).pop_at(potential@, j) == 0 || old(
                        self,
                    ).pop_at(potential@, j) > pk
                &&& forall|j: int|
                    k < j < potential@.len() ==> #[trigger] old(self).pop_at(potential@, j) == 0
                        || old(self).pop_at(potential@, j) >= pk
                &&& v.universe < final(self).universes@.len()
                &&& final(self).universes@[v.universe as int].name@ == potential@[k as int].0@
                &&& v.count == old(self).universe_of(potential@[k as int].0@).len()
                &&& v.index < v.count
                &&& set.has(v.index as int)
                &&& final(self).orders@[v.universe as int] matches Some(o) && exists|p: int|
                    0 <= p < o@.len() && o@[p] == v.index && forall|q: int|
                        0 <= q < p ==> !set.has(#[trigger] o@[q] as int)
            },
    {
        let ghost start = *self;
        let mut best: Option<(usize, usize, usize)> = None;
        let mut k: usize = 0;
        while k < potential.len()
            invariant
                start == *old(self),
                start.candidates_wf(potential@),
                self.wf(),
                self.same_model(&start),
                self.extends(&start),
                k <= potential@.len(),
                best is None ==> forall|j: int| 0 <= j < k ==> #[trigger] start.pop_at(potential@, j) == 0,
                best matches Some((bk, bu, bc)) ==> {
                    &&& bk < k
                    &&& bc == start.pop_at(potential@, bk as int)
                    &&& bc > 0
                    &&& forall|j: int|
                        0 <= j < bk ==> #[trigger] start.pop_at(potential@, j) == 0
                            || start.pop_at(potential@, j) > bc
                    &&& forall|j: int|
                        bk < j < k ==> #[trigger] start.pop_at(potential@, j) == 0
                            || start.pop_at(potential@, j) >= bc
                    &&& bu < self.universes@.len()
                    &&& self.universes@[bu as int].name@ == potential@[bk as int].0@
                    &&& self.universes@[bu as int].members@ == start.universe_of(potential@[bk as int].0@)
                },
            decreases potential@.len() - k,
        {
            let ghost prev = *self;
            let u = self.package_variants(&potential[k].0);
            proof {
                assert(potential@[k as int].1.wf(start.universe_of(potential@[k as int].0@).len()));
                if best is Some {
                    let bu = best->Some_0.1;
                    assert(self.universes@[bu as int] == prev.universes@[bu as int]);
                }
            }
            proof {
                lemma_extends_trans(self, &prev, &start);
            }
            let c = self.universes[u].available_variant_count_in_range(&potential[k].1);
            if c > 0 {
                match best {
                    None => {
                        best = Some((k, u, c));
                    },
                    Some((bk, bu, bc)) => {
                        if c < bc {
                            best = Some((k, u, c));
                        }
                    },
                }
            }
            k = k + 1;
        }
        match best {
            None => Err(ResolveError::NoCandidate),
            Some((bk, bu, bc)) => {
                let ghost before_order = *self;
                self.variants_order(bu);
                proof {
                    lemma_extends_trans(self, &before_order, &start);
                }
                let set = &potential[bk].1;
                let m = self.universes[bu].members.len();
                let ghost n = m as nat;
                proof {
                    assert(self.universes@[bu as int] == before_order.universes@[bu as int]);
                    assert(bc == population(set, n));
                    assert(set.wf(n));
                    if set is Full {
                        assert(set.has(0));
                    }
                    if set is Discrete {
                        let bits = set->Discrete_0.bits();
                        lemma_count_set_positive(bits, n);
                        let i = choose|i: int| 0 <= i < n && bits[i];
                        assert(set.has(i));
                    }
                    assert(exists|i: int| 0 <= i < n && set.has(i));
                }
                match &self.orders[bu] {
                    Some(o) => {
                        let mut p: usize = 0;
                        while p < o.len()
                            invariant
                                self.wf(),
                                self.same_model(old(self)),
                                self.extends(old(self)),
                                bu < self.universes@.len(),
                                self.orders@[bu as int] == Some(*o),
                                start == *old(self),
                                bk < potential@.len(),
                                set == potential@[bk as int].1,
                                bc == start.pop_at(potential@, bk as int),
                                bc > 0,
                                forall|j: int|
                                    0 <= j < bk ==> #[trigger] start.pop_at(potential@, j) == 0
                                        || start.pop_at(potential@, j) > bc,
                                forall|j: int|
                                    bk < j < potential@.len() ==> #[trigger] start.pop_at(potential@, j) == 0
                                        || start.pop_at(potential@, j) >= bc,
                                self.universes@[bu as int].name@ == potential@[bk as int].0@,
                                m == start.universe_of(potential@[bk as int].0@).len(),
                                m == self.universes@[bu as int].members@.len(),
                                set.wf(m as nat),
                                p <= o@.len(),
                                forall|q: int| 0 <= q < p ==> !set.has(#[trigger] o@[q] as int),
                            decreases o@.len() - p,
                        {
                            proof {
                                assert(self.is_ranking(bu as int, o@));
                                assert(o@[p as int] < m);
                            }
                            if set.contains_variant_index(o[p]) {
                                return Ok((bk, VariantId { universe: bu, index: o[p], count: m }));
                            }
                            p = p + 1;
                        }
                        proof {
                            assert(self.is_ranking(bu as int, o@));
                            let i = choose|i: int| 0 <= i < n && set.has(i);
                            assert(o@.contains(i as usize));
                            let q = choose|q: int| 0 <= q < o@.len() && o@[q] == i as usize;
                            assert(!set.has(o@[q] as int));
                        }
                        Err(ResolveError::NoCandidate)
                    },
                    None => Err(ResolveError::NoCandidate),
                }
            },
        }
    }
}

pub proof fn lemma_named_upto_prefix(r1: Seq<PackageRecord>, r2: Seq<PackageRecord>, n: Seq<char>, k: nat)
    requires
        k <= r1.len(),
        k <= r2.len(),
        forall|j: int| 0 <= j < k ==> r1[j] == r2[j],
    ensures
        named_upto(r1, n, k) == named_upto(r2, n, k),
    decreases k,
{
    if k > 0 {
        lemma_named_upto_prefix(r1, r2, n, (k - 1) as nat);
    }
}

/// Whether a name is reserved for a host capability: it starts with two underscores.
pub open spec fn is_virtual_name(n: Seq<char>) -> bool {
    n.len() >= 2 && n[0] == '_' && n[1] == '_'
}

/// How a dependency restricts another package.
#[derive(Debug)]
pub enum Requirement {
    /// The package must be present, with a variant in the set.
    Required(PackageVariantSet),
    /// If the package is present, its variant must be in the set.
    Constrained(PackageVariantSet),
}

impl Requirement {
    pub open spec fn set(&self) -> PackageVariantSet {
        match self {
            Requirement::Required(s) => *s,
            Requirement::Constrained(s) => *s,
        }
    }
}

/// The dependencies of one variant.
#[derive(Debug)]
pub enum Dependencies {
    /// They cannot be known: a required host capability is absent.
    Unknown,
    /// One requirement per package name.
    Known(Vec<(String, Requirement)>),
}

/// Every spec among `all` that names `n` admits `r`.
pub open spec fn admits(all: Seq<MatchSpec>, n: Seq<char>, r: PackageRecord) -> bool {
    forall|t: int| 0 <= t < all.len() && (#[trigger] all[t]).name->Some_0@ == n ==> all[t].matches_spec(&r)
}

/// Some spec among `specs` names `n`.
pub open spec fn names(specs: Seq<MatchSpec>, n: Seq<char>) -> bool {
    exists|t: int| 0 <= t < specs.len() && (#[trigger] specs[t]).name->Some_0@ == n
}

/// Every spec names a package.
pub open spec fn all_named(specs: Seq<MatchSpec>) -> bool {
    forall|t: int| 0 <= t < specs.len() ==> (#[trigger] specs[t]).name is Some
}

impl VariantId {
    /// The name of the variant's package in `index`.
    pub fn name<'a>(&self, index: &'a Index) -> (r: &'a String)
        requires
            index.wf(),
            self.universe < index.universes@.len(),
        ensures
            r@ == index.universes@[self.universe as int].name@,
    {
        &index.universes[self.universe].name
    }
}

impl Index {
    /// `es` holds one requirement per package named in `all`: required exactly when named
    /// in `req`, and admitting exactly the variants that every spec of `all` on that
    /// package admits.
    pub open spec fn entries_model(&self, es: Seq<(String, Requirement)>, all: Seq<MatchSpec>, req: Seq<MatchSpec>) -> bool {
        &&& forall|a: int, b: int|
            0 <= a < es.len() && 0 <= b < es.len() && a != b ==> (#[trigger] es[a]).0@ != (#[trigger] es[b]).0@
        &&& forall|t: int| 0 <= t < all.len() ==> exists|a: int| 0 <= a < es.len() && (#[trigger] es[a]).0@ == (#[trigger] all[t]).name->Some_0@
        &&& forall|a: int| 0 <= a < es.len() ==> names(all, (#[trigger] es[a]).0@)
        &&& forall|a: int| 0 <= a < es.len() ==> ((#[trigger] es[a]).1 is Required <==> names(req, es[a].0@))
        &&& forall|a: int| 0 <= a < es.len() ==> {
            let n = (#[trigger] es[a]).0@;
            let mem = self.universe_of(n);
            &&& es[a].1.set().wf(mem.len())
            &&& forall|i: int| 0 <= i < mem.len() ==> (#[trigger] es[a].1.set().has(i) <==> admits(all, n, self.records@[mem[i] as int]))
        }
    }

    /// The position of the first dependency whose package has no variant, if any.
    pub open spec fn first_missing(&self, deps: Seq<MatchSpec>) -> Option<int> {
        if exists|t: int| 0 <= t < deps.len() && self.universe_of((#[trigger] deps[t]).name->Some_0@).len() == 0 {
            Some(choose|t: int| 0 <= t < deps.len() && self.universe_of((#[trigger] deps[t]).name->Some_0@).len() == 0
                && forall|q: int| 0 <= q < t ==> self.universe_of((#[trigger] deps[q]).name->Some_0@).len() > 0)
        } else {
            None
        }
    }

    /// The record of a variant.
    pub fn record(&self, v: &VariantId) -> (r: &PackageRecord)
        requires
            self.wf(),
            v.universe < self.universes@.len(),
            v.index < self.universes@[v.universe as int].members@.len(),
        ensures
            *r == self.rec(v.universe as int, v.index as int),
    {
        &self.records[self.universes[v.universe].members[v.index]]
    }

    /// Whether a universe named `name` exists already.
    pub fn has_package(&self, name: &String) -> (r: bool)
        requires
            self.wf(),
        ensures
            r == self.is_cached(name@),
    {
        self.lookup(name).is_some()
    }

    /// Registers a virtual package: a universe of the single record `package`. No universe
    /// of that name may exist yet. Cached rankings are dropped, since the new package may
    /// change dependency scores.
    pub fn add_package(&mut self, package: PackageRecord) -> (r: VariantId)
        requires
            old(self).wf(),
            !old(self).is_cached(package.name@),
            old(self).records@.len() < usize::MAX,
        ensures
            final(self).wf(),
            final(self).records@ == old(self).records@.push(package),
            final(self).n_repo == old(self).n_repo,
            final(self).universe_of(package.name@) == seq![old(self).records@.len() as usize],
            forall|n: Seq<char>| n != package.name@ ==> #[trigger] final(self).universe_of(n) == old(self).universe_of(n),
            r == (VariantId { universe: old(self).universes@.len() as usize, index: 0, count: 1 }),
            final(self).universes@[r.universe as int].name@ == package.name@,
    {
        let ghost prev = *self;
        let k = self.records.len();
        let name = package.name.clone();
        self.records.push(package);
        let id = self.universes.len();
        self.universes.push(PackageVariants { id, name, members: vec![k] });
        self.orders.push(None);
        let ghost mid = *self;
        let mut i: usize = 0;
        while i < self.orders.len()
            invariant
                self.orders@.len() == self.universes@.len(),
                self.universes == mid.universes,
                self.records == mid.records,
                self.n_repo == mid.n_repo,
                i <= self.orders@.len(),
                forall|j: int| 0 <= j < i ==> (#[trigger] self.orders@[j]) is None,
            decreases self.orders@.len() - i,
        {
            self.orders.set(i, None);
            i = i + 1;
        }
        proof {
            assert(self.universes@[id as int].name@ == package.name@);
            assert(forall|w: int| 0 <= w < prev.universes@.len() ==> self.universes@[w] == prev.universes@[w]);
            assert forall|n: Seq<char>| n != self.universes@[id as int].name@ implies #[trigger] self.universe_of(n) == prev.universe_of(n) by {
                if prev.is_cached(n) {
                    let w = choose|w: int| 0 <= w < prev.universes@.len() && (#[trigger] prev.universes@[w]).name@ == n;
                    assert(self.universes@[w] == prev.universes@[w]);
                    assert(self.is_cached(n));
                } else {
                    if self.is_cached(n) {
                        let w = choose|w: int| 0 <= w < self.universes@.len() && (#[trigger] self.universes@[w]).name@ == n;
                        assert(w < prev.universes@.len() ==> self.universes@[w] == prev.universes@[w]);
                    }
                    lemma_named_upto_prefix(self.records@, prev.records@, n, self.n_repo as nat);
                }
            }
            assert(self.is_cached(self.universes@[id as int].name@));
        }
        VariantId { universe: id, index: 0, count: 1 }
    }
}

impl Index {
    /// The spec at position `i` of the depends (or else constrains) list of record `ri`.
    pub open spec fn spec_at(&self, ri: int, from_depends: bool, i: int) -> MatchSpec {
        if from_depends {
            self.records@[ri].depends@[i]
        } else {
            self.records@[ri].constrains@[i]
        }
    }

    /// Merges the requirement from one spec into `es`: a new entry for a new package,
    /// otherwise the intersection with the existing one, which becomes required if the spec
    /// comes from the depends list.
    fn merge_requirement(
        &mut self,
        es: &mut Vec<(String, Requirement)>,
        ri: usize,
        from_depends: bool,
        i: usize,
        Ghost(all): Ghost<Seq<MatchSpec>>,
        Ghost(req): Ghost<Seq<MatchSpec>>,
    )
        requires
            old(self).wf(),
            ri < old(self).records@.len(),
            from_depends ==> i < old(self).records@[ri as int].depends@.len(),
            !from_depends ==> i < old(self).records@[ri as int].constrains@.len(),
            old(self).spec_at(ri as int, from_depends, i as int).name is Some,
            old(self).entries_model(old(es)@, all, req),
            forall|nb: Seq<char>| names(req, nb) ==> names(all, nb),
        ensures
            final(self).wf(),
            final(self).same_model(old(self)),
            final(self).extends(old(self)),
            final(self).entries_model(
                final(es)@,
                all.push(old(self).spec_at(ri as int, from_depends, i as int)),
                if from_depends {
                    req.push(old(self).spec_at(ri as int, from_depends, i as int))
                } else {
                    req
                },
            ),
    {
        let ghost prev = *self;
        let ghost spec = self.spec_at(ri as int, from_depends, i as int);
        let ghost n = spec.name->Some_0@;
        let name_opt = if from_depends {
            &self.records[ri].depends[i].name
        } else {
            &self.records[ri].constrains[i].name
        };
        let name = match name_opt {
            Some(nm) => nm.clone(),
            None => {
                return;
            },
        };
        let u = self.package_variants(&name);
        let range = if from_depends {
            self.universes[u].range_from_matchspec(&self.records, &self.records[ri].depends[i])
        } else {
            self.universes[u].range_from_matchspec(&self.records, &self.records[ri].constrains[i])
        };
        let ghost mem = self.universes@[u as int].members@;
        let ghost m = mem.len();
        assert(mem == prev.universe_of(n));
        assert(self.universe_of(n) == prev.universe_of(n));
        assert(self.spec_at(ri as int, from_depends, i as int) == spec);
        let mut found: Option<usize> = None;
        let mut a: usize = 0;
        while a < es.len()
            invariant
                a <= es@.len(),
                name@ == n,
                found is None ==> forall|b: int| 0 <= b < a ==> (#[trigger] es@[b]).0@ != n,
                found matches Some(f) ==> f < es@.len() && es@[f as int].0@ == n,
            decreases es@.len() - a,
        {
            if found.is_none() && es[a].0.eq(&name) {
                found = Some(a);
            }
            a = a + 1;
        }
        let ghost old_es = es@;
        let ghost all2 = all.push(spec);
        let ghost req2 = if from_depends { req.push(spec) } else { req };
        proof {
            assert forall|nb: Seq<char>, r: PackageRecord| nb != n implies admits(all2, nb, r) == admits(all, nb, r) by {
                assert forall|t: int| 0 <= t < all.len() implies #[trigger] all2[t] == all[t] by {}
                assert(all2[all.len() as int] == spec);
                if admits(all, nb, r) {
                    assert forall|t: int| 0 <= t < all2.len() && (#[trigger] all2[t]).name->Some_0@ == nb implies all2[t].matches_spec(&r) by {
                        if t < all.len() {
                            assert(all2[t] == all[t]);
                        }
                    }
                }
                if admits(all2, nb, r) {
                    assert forall|t: int| 0 <= t < all.len() && (#[trigger] all[t]).name->Some_0@ == nb implies all[t].matches_spec(&r) by {
                        assert(all2[t] == all[t]);
                    }
                }
            }
            assert forall|r: PackageRecord| admits(all2, n, r) == (admits(all, n, r) && spec.matches_spec(&r)) by {
                assert forall|t: int| 0 <= t < all.len() implies #[trigger] all2[t] == all[t] by {}
                assert(all2[all.len() as int] == spec);
                if admits(all, n, r) && spec.matches_spec(&r) {
                    assert forall|t: int| 0 <= t < all2.len() && (#[trigger] all2[t]).name->Some_0@ == n implies all2[t].matches_spec(&r) by {
                        if t < all.len() {
                            assert(all2[t] == all[t]);
                        }
                    }
                }
                if admits(all2, n, r) {
                    assert forall|t: int| 0 <= t < all.len() && (#[trigger] all[t]).name->Some_0@ == n implies all[t].matches_spec(&r) by {
                        assert(all2[t] == all[t]);
                    }
                    assert(all2[all.len() as int].name->Some_0@ == n);
                }
            }
            assert forall|nb: Seq<char>| names(all, nb) implies names(all2, nb) by {
                let t = choose|t: int| 0 <= t < all.len() && (#[trigger] all[t]).name->Some_0@ == nb;
                assert(all2[t] == all[t]);
            }
            assert(names(all2, n)) by {
                assert(all2[all.len() as int] == spec);
            }
            assert forall|nb: Seq<char>| nb != n implies names(req2, nb) == names(req, nb) by {
                if names(req, nb) {
                    let t = choose|t: int| 0 <= t < req.len() && (#[trigger] req[t]).name->Some_0@ == nb;
                    assert(req2[t] == req[t]);
                }
                if names(req2, nb) {
                    let t = choose|t: int| 0 <= t < req2.len() && (#[trigger] req2[t]).name->Some_0@ == nb;
                    assert(req2[t] == req[t]);
                }
            }
            assert(names(req2, n) == (names(req, n) || from_depends)) by {
                if from_depends {
                    assert(req2[req.len() as int] == spec);
                }
                if names(req, n) {
                    let t = choose|t: int| 0 <= t < req.len() && (#[trigger] req[t]).name->Some_0@ == n;
                    assert(req2[t] == req[t]);
                }
                if names(req2, n) && !from_depends {
                    assert(req2 == req);
                }
                if names(req2, n) && from_depends && !names(req, n) {
                    let t = choose|t: int| 0 <= t < req2.len() && (#[trigger] req2[t]).name->Some_0@ == n;
                    if t < req.len() {
                        assert(req2[t] == req[t]);
                    }
                }
            }
        }
        match found {
            Some(f) => {
                let was_required = match &es[f].1 {
                    Requirement::Required(_) => true,
                    Requirement::Constrained(_) => false,
                };
                let merged = match &es[f].1 {
                    Requirement::Required(x) => x.intersection(&range),
                    Requirement::Constrained(x) => x.intersection(&range),
                };
                let nm = es[f].0.clone();
                let entry = if from_depends || was_required {
                    Requirement::Required(merged)
                } else {
                    Requirement::Constrained(merged)
                };
                es.set(f, (nm, entry));
                proof {
                    let new_es = es@;
                    assert(old_es[f as int].1.set().wf(m));
                    assert(merged.members(m) == old_es[f as int].1.set().members(m).intersect(range.members(m)));
                    assert forall|ii: int| 0 <= ii < m implies (#[trigger] new_es[f as int].1.set().has(ii)
                        <==> admits(all2, n, self.records@[mem[ii] as int])) by {
                        assert(merged.members(m).contains(ii) == merged.has(ii));
                        assert(range.members(m).contains(ii) == range.has(ii));
                        assert(old_es[f as int].1.set().members(m).contains(ii) == old_es[f as int].1.set().has(ii));
                    }
                    assert forall|t: int| 0 <= t < all2.len() implies exists|b: int| 0 <= b < new_es.len() && (#[trigger] new_es[b]).0@ == (#[trigger] all2[t]).name->Some_0@ by {
                        if t < all.len() {
                            assert(all2[t] == all[t]);
                            let b = choose|b: int| 0 <= b < old_es.len() && (#[trigger] old_es[b]).0@ == (#[trigger] all[t]).name->Some_0@;
                            assert(new_es[b].0@ == old_es[b].0@);
                        } else {
                            assert(new_es[f as int].0@ == n);
                        }
                    }
                    assert forall|b: int| 0 <= b < new_es.len() && b != f implies #[trigger] new_es[b] == old_es[b] by {}
                    assert forall|b: int| 0 <= b < new_es.len() && b != f implies (#[trigger] new_es[b]).0@ != n by {
                        assert(old_es[b].0@ != old_es[f as int].0@);
                    }
                }
            },
            None => {
                let entry = if from_depends {
                    Requirement::Required(range)
                } else {
                    Requirement::Constrained(range)
                };
                es.push((name, entry));
                proof {
                    let new_es = es@;
                    let f = old_es.len() as int;
                    assert(!names(all, n)) by {
                        if names(all, n) {
                            let t = choose|t: int| 0 <= t < all.len() && (#[trigger] all[t]).name->Some_0@ == n;
                            let b = choose|b: int| 0 <= b < old_es.len() && (#[trigger] old_es[b]).0@ == (#[trigger] all[t]).name->Some_0@;
                            assert(old_es[b].0@ != n);
                        }
                    }
                    assert forall|ii: int| 0 <= ii < m implies (#[trigger] new_es[f].1.set().has(ii)
                        <==> admits(all2, n, self.records@[mem[ii] as int])) by {
                        assert(admits(all, n, self.records@[mem[ii] as int]));
                    }
                    assert forall|t: int| 0 <= t < all2.len() implies exists|b: int| 0 <= b < new_es.len() && (#[trigger] new_es[b]).0@ == (#[trigger] all2[t]).name->Some_0@ by {
                        if t < all.len() {
                            assert(all2[t] == all[t]);
                            let b = choose|b: int| 0 <= b < old_es.len() && (#[trigger] old_es[b]).0@ == (#[trigger] all[t]).name->Some_0@;
                            assert(new_es[b].0@ == old_es[b].0@);
                        } else {
                            assert(new_es[f].0@ == n);
                        }
                    }
                    assert forall|b: int| 0 <= b < old_es.len() implies #[trigger] new_es[b] == old_es[b] by {}
                    assert(!names(req, n)) by {
                        if names(req, n) {
                            assert(names(all, n));
                            let t = choose|t: int| 0 <= t < all.len() && (#[trigger] all[t]).name->Some_0@ == n;
                            let b = choose|b: int| 0 <= b < old_es.len() && (#[trigger] old_es[b]).0@ == (#[trigger] all[t]).name->Some_0@;
                            assert(old_es[b].0@ != n);
                        }
                    }
                }
            },
        }
    }
}

impl Index {
    /// The requirements that variant `v` places on other packages: one entry per package
    /// named by its constrains and depends, required exactly when it is depended on, whose
    /// set admits exactly the variants that every spec on that package admits. The first
    /// dependency on a package without variants decides instead: `Unknown` for a host
    /// capability (a name starting with two underscores), an error naming it otherwise.
    pub fn get_dependencies(&mut self, v: &VariantId) -> (r: Result<Dependencies, ResolveError>)
        requires
            old(self).wf(),
            v.universe < old(self).universes@.len(),
            v.index < old(self).universes@[v.universe as int].members@.len(),
            all_named(old(self).rec(v.universe as int, v.index as int).depends@),
            all_named(old(self).rec(v.universe as int, v.index as int).constrains@),
        ensures
            final(self).wf(),
            final(self).same_model(old(self)),
            final(self).extends(old(self)),
            ({
                let rec = old(self).rec(v.universe as int, v.index as int);
                let cs = rec.constrains@;
                let ds = rec.depends@;
                match old(self).first_missing(ds) {
                    Some(t) => if is_virtual_name(ds[t].name->Some_0@) {
                        r matches Ok(Dependencies::Unknown)
                    } else {
                        r matches Err(ResolveError::NoEntries(nm)) && nm@ == ds[t].name->Some_0@
                    },
                    None => r matches Ok(Dependencies::Known(es)) && final(self).entries_model(
                        es@,
                        cs + ds,
                        ds,
                    ),
                }
            }),
    {
        let ghost start = *self;
        let ri = self.universes[v.universe].members[v.index];
        let ghost rec = self.records@[ri as int];
        let ghost cs = rec.constrains@;
        let ghost ds = rec.depends@;
        assert(rec == start.rec(v.universe as int, v.index as int));
        let mut es: Vec<(String, Requirement)> = Vec::new();
        let nc = self.records[ri].constrains.len();
        let mut i: usize = 0;
        assert(cs.take(0) =~= Seq::<MatchSpec>::empty());
        while i < nc
            invariant
                start == *old(self),
                self.wf(),
                self.same_model(&start),
                self.extends(&start),
                ri < self.records@.len(),
                rec == self.records@[ri as int],
                rec == start.rec(v.universe as int, v.index as int),
                cs == rec.constrains@,
                all_named(cs),
                nc == cs.len(),
                i <= nc,
                self.entries_model(es@, cs.take(i as int), Seq::empty()),
            decreases nc - i,
        {
            let ghost prev = *self;
            self.merge_requirement(&mut es, ri, false, i, Ghost(cs.take(i as int)), Ghost(Seq::empty()));
            proof {
                lemma_extends_trans(self, &prev, &start);
                assert(cs.take(i as int).push(cs[i as int]) =~= cs.take(i + 1));
            }
            i = i + 1;
        }
        assert(cs.take(nc as int) =~= cs);
        let nd = self.records[ri].depends.len();
        let mut j: usize = 0;
        assert(cs + ds.take(0) =~= cs);
        assert(ds.take(0) =~= Seq::<MatchSpec>::empty());
        while j < nd
            invariant
                start == *old(self),
                self.wf(),
                self.same_model(&start),
                self.extends(&start),
                ri < self.records@.len(),
                rec == self.records@[ri as int],
                rec == start.rec(v.universe as int, v.index as int),
                cs == rec.constrains@,
                ds == rec.depends@,
                all_named(ds),
                nd == ds.len(),
                j <= nd,
                self.entries_model(es@, cs + ds.take(j as int), ds.take(j as int)),
                forall|q: int| 0 <= q < j ==> start.universe_of((#[trigger] ds[q]).name->Some_0@).len() > 0,
            decreases nd - j,
        {
            let name = match &self.records[ri].depends[j].name {
                Some(nm) => nm.clone(),
                None => {
                    return Err(ResolveError::NoCandidate);
                },
            };
            let ghost prev = *self;
            let u = self.package_variants(&name);
            proof {
                lemma_extends_trans(self, &prev, &start);
            }
            if self.universes[u].members.len() == 0 {
                proof {
                    let t = j as int;
                    assert(start.universe_of((ds[t]).name->Some_0@).len() == 0);
                    let c = choose|c: int| 0 <= c < ds.len() && start.universe_of((#[trigger] ds[c]).name->Some_0@).len() == 0
                        && forall|q: int| 0 <= q < c ==> start.universe_of((#[trigger] ds[q]).name->Some_0@).len() > 0;
                    if c < t {
                        assert(start.universe_of(ds[c].name->Some_0@).len() > 0);
                    }
                    if c > t {
                        assert(start.universe_of(ds[t].name->Some_0@).len() > 0);
                    }
                    assert(start.first_missing(ds) == Some(t));
                }
                let s = name.as_str();
                assert(s@ == ds[j as int].name->Some_0@);
                let virt = s.unicode_len() >= 2 && s.get_char(0) == '_' && s.get_char(1) == '_';
                assert(virt == is_virtual_name(ds[j as int].name->Some_0@));
                if virt {
                    return Ok(Dependencies::Unknown);
                } else {
                    return Err(ResolveError::NoEntries(name));
                }
            }
            let ghost all = cs + ds.take(j as int);
            let ghost req = ds.take(j as int);
            proof {
                assert forall|nb: Seq<char>| names(req, nb) implies names(all, nb) by {
                    let t = choose|t: int| 0 <= t < req.len() && (#[trigger] req[t]).name->Some_0@ == nb;
                    assert(all[cs.len() + t] == req[t]);
                }
            }
            let ghost prev2 = *self;
            self.merge_requirement(&mut es, ri, true, j, Ghost(all), Ghost(req));
            proof {
                lemma_extends_trans(self, &prev2, &start);
                assert(all.push(ds[j as int]) =~= cs + ds.take(j + 1));
                assert(req.push(ds[j as int]) =~= ds.take(j + 1));
            }
            j = j + 1;
        }
        proof {
            assert(ds.take(nd as int) =~= ds);
            assert(start.first_missing(ds) is None);
        }
        Ok(Dependencies::Known(es))
    }
}

} // verus!
