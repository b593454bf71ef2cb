//! Package records, versions and match specifications.
use vstd::prelude::*;

verus! {

/// A package version as a sequence of numeric components, compared component by component;
/// a proper prefix ranks below the longer version.
#[derive(Debug)]
pub struct Version {
    pub parts: Vec<u64>,
}

impl View for Version {
    type V = Seq<u64>;

    open spec fn view(&self) -> Seq<u64> {
        self.parts@
    }
}

/// Three-way comparison of version components: negative, zero or positive.
pub open spec fn parts_cmp(a: Seq<u64>, b: Seq<u64>) -> int
    decreases a.len(),
{
    if a.len() == 0 {
        if b.len() == 0 {
            0
        } else {
            -1
        }
    } else if b.len() == 0 {
        1
    } else if a[0] < b[0] {
        -1
    } else if a[0] > b[0] {
        1
    } else {
        parts_cmp(a.drop_first(), b.drop_first())
    }
}

pub proof fn lemma_parts_cmp_antisym(a: Seq<u64>, b: Seq<u64>)
    ensures
        parts_cmp(a, b) == -parts_cmp(b, a),
        -1 <= parts_cmp(a, b) <= 1,
        parts_cmp(a, b) == 0 <==> a == b,
    decreases a.len(),
{
    if a.len() == 0 && b.len() == 0 {
        assert(a =~= b);
    }
    if a.len() > 0 && b.len() > 0 {
        lemma_parts_cmp_antisym(a.drop_first(), b.drop_first());
        if a[0] == b[0] && a.drop_first() == b.drop_first() {
            assert(a =~= seq![a[0]] + a.drop_first());
            assert(b =~= seq![b[0]] + b.drop_first());
        }
        if a == b {
            assert(a.drop_first() == b.drop_first());
        }
    }
}

pub proof fn lemma_parts_cmp_trans(a: Seq<u64>, b: Seq<u64>, c: Seq<u64>)
    requires
        parts_cmp(a, b) <= 0,
        parts_cmp(b, c) <= 0,
    ensures
        parts_cmp(a, c) <= 0,
    decreases a.len(),
{
    if a.len() > 0 && b.len() > 0 && c.len() > 0 && a[0] == b[0] && b[0] == c[0] {
        lemma_parts_cmp_trans(a.drop_first(), b.drop_first(), c.drop_first());
    }
}

impl Version {
    pub fn new(parts: Vec<u64>) -> (r: Version)
        ensures
            r@ == parts@,
    {
        Version { parts }
    }

    /// A copy of this version.
    pub fn duplicate(&self) -> (r: Version)
        ensures
            r@ == self@,
    {
        Version { parts: self.parts.clone() }
    }

    /// Three-way comparison: `-1`, `0` or `1`.
    pub fn compare(&self, other: &Version) -> (r: i8)
        ensures
            r as int == parts_cmp(self@, other@),
    {
        let a = &self.parts;
        let b = &other.parts;
        let mut i: usize = 0;
        assert(a@.skip(0) =~= a@);
        assert(b@.skip(0) =~= b@);
        while i < a.len() && i < b.len()
            invariant
                a@ == self@,
                b@ == other@,
                i <= a.len(),
                i <= b.len(),
                parts_cmp(a@, b@) == parts_cmp(a@.skip(i as int), b@.skip(i as int)),
            decreases a.len() - i,
        {
            assert(a@.skip(i as int).drop_first() =~= a@.skip(i + 1));
            assert(b@.skip(i as int).drop_first() =~= b@.skip(i + 1));
            assert(a@.skip(i as int).len() > 0 && b@.skip(i as int).len() > 0);
            assert(a@.skip(i as int)[0] == a@[i as int]);
            assert(b@.skip(i as int)[0] == b@[i as int]);
            if a[i] < b[i] {
                assert(parts_cmp(a@.skip(i as int), b@.skip(i as int)) == -1);
                return -1;
            } else if a[i] > b[i] {
                assert(parts_cmp(a@.skip(i as int), b@.skip(i as int)) == 1);
                return 1;
            }
            i = i + 1;
        }
        if i < a.len() {
            1
        } else if i < b.len() {
            -1
        } else {
            0
        }
    }
}

/// A predicate over package records: an optional package name, an inclusive lower and an
/// exclusive upper version bound, and an optional exact build number.
#[derive(Debug)]
pub struct MatchSpec {
    pub name: Option<String>,
    pub min_version: Option<Version>,
    pub max_version: Option<Version>,
    pub build_number: Option<u64>,
}

/// One installable variant of a package.
#[derive(Debug)]
pub struct PackageRecord {
    pub name: String,
    pub version: Version,
    pub build: String,
    pub build_number: u64,
    pub depends: Vec<MatchSpec>,
    pub constrains: Vec<MatchSpec>,
    pub track_features: Vec<String>,
    pub timestamp: u64,
}

impl PackageRecord {
    /// Whether the record carries a tracked feature, which marks it as dispreferred.
    pub open spec fn is_tracked(&self) -> bool {
        self.track_features@.len() > 0
    }
}

impl MatchSpec {
    pub open spec fn name_matches(&self, r: &PackageRecord) -> bool {
        match self.name {
            Some(n) => n@ == r.name@,
            None => true,
        }
    }

    pub open spec fn matches_spec(&self, r: &PackageRecord) -> bool {
        &&& self.name_matches(r)
        &&& match self.min_version {
            Some(v) => parts_cmp(v@, r.version@) <= 0,
            None => true,
        }
        &&& match self.max_version {
            Some(v) => parts_cmp(r.version@, v@) < 0,
            None => true,
        }
        &&& match self.build_number {
            Some(b) => b == r.build_number,
            None => true,
        }
    }

    /// Whether the record satisfies every constraint of this spec.
    pub fn matches(&self, r: &PackageRecord) -> (res: bool)
        ensures
            res == self.matches_spec(r),
    {
        let name_ok = match &self.name {
            Some(n) => n.eq(&r.name),
            None => true,
        };
        if !name_ok {
            return false;
        }
        let min_ok = match &self.min_version {
            Some(v) => v.compare(&r.version) <= 0,
            None => true,
        };
        let max_ok = match &self.max_version {
            Some(v) => r.version.compare(v) < 0,
            None => true,
        };
        let build_ok = match self.build_number {
            Some(b) => b == r.build_number,
            None => true,
        };
        min_ok && max_ok && build_ok
    }
}

} // verus!
