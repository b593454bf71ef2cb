//! Lock files: the guard on the file format version and the canonical order of the
//! locked packages.
use vstd::prelude::*;
use vstd::string::StrSliceExecFns;
use vstd::utf8::encode_utf8;

verus! {

/// The newest lock file format version this library reads and writes.
pub const FILE_VERSION: u32 = 2;

/// Why a lock file cannot be read.
#[derive(Debug, PartialEq, Eq)]
pub enum LockError {
    /// The file was written in a newer format version than this library supports.
    NewerVersion { found: u32, supported: u32 },
}

/// Accepts a lock file format version up to `FILE_VERSION`.
pub fn check_file_version(version: u32) -> (r: Result<u32, LockError>)
    ensures
        version <= FILE_VERSION ==> r == Ok::<u32, LockError>(version),
        version > FILE_VERSION ==> r == Err::<u32, LockError>(
            LockError::NewerVersion { found: version, supported: FILE_VERSION },
        ),
{
    if version > FILE_VERSION {
        Err(LockError::NewerVersion { found: version, supported: FILE_VERSION })
    } else {
        Ok(version)
    }
}

/// The decimal digit for `d`.
pub open spec fn digit_char(d: nat) -> char {
    if d == 0 { '0' } else if d == 1 { '1' } else if d == 2 { '2' } else if d == 3 { '3' }
    else if d == 4 { '4' } else if d == 5 { '5' } else if d == 6 { '6' } else if d == 7 { '7' }
    else if d == 8 { '8' } else { '9' }
}

/// The decimal notation of `n`, without leading zeros.
pub open spec fn decimal(n: nat) -> Seq<char>
    decreases n,
{
    if n < 10 {
        seq![digit_char(n)]
    } else {
        decimal(n / 10) + seq![digit_char(n % 10)]
    }
}

fn digit_of(d: u32) -> (c: char)
    requires
        d < 10,
    ensures
        c == digit_char(d as nat),
{
    if d == 0 { '0' } else if d == 1 { '1' } else if d == 2 { '2' } else if d == 3 { '3' }
    else if d == 4 { '4' } else if d == 5 { '5' } else if d == 6 { '6' } else if d == 7 { '7' }
    else if d == 8 { '8' } else { '9' }
}

/// Appends the decimal notation of `n` to `out`.
fn push_decimal(out: &mut Vec<char>, n: u32)
    ensures
        final(out)@ == old(out)@ + decimal(n as nat),
    decreases n,
{
    if n >= 10 {
        push_decimal(out, n / 10);
    }
    out.push(digit_of(n % 10));
    proof {
        assert(final(out)@ =~= old(out)@ + decimal(n as nat));
    }
}

/// Appends the characters of `s` to `out`.
fn push_chars(out: &mut Vec<char>, s: &str)
    ensures
        final(out)@ == old(out)@ + s@,
{
    let n = s.unicode_len();
    let mut i: usize = 0;
    while i < n
        invariant
            n == s@.len(),
            i <= n,
            out@ == old(out)@ + s@.take(i as int),
        decreases n - i,
    {
        out.push(s.get_char(i));
        proof {
            assert(s@.take(i + 1) =~= s@.take(i as int).push(s@[i as int]));
        }
        i = i + 1;
    }
    assert(s@.take(n as int) =~= s@);
}

/// Relies on `String`'s `FromIterator<&char>`: the string of exactly these characters.
#[verifier::external_body]
fn string_from_chars(cs: &Vec<char>) -> (r: String)
    ensures
        r@ == cs@,
{
    cs.iter().collect()
}

pub open spec fn newer_version_text(found: nat, supported: nat) -> Seq<char> {
    "found newer file format version "@ + decimal(found) + ", but only up to including version "@
        + decimal(supported) + " is supported"@
}

impl LockError {
    /// The human-readable description of the error.
    pub fn message(&self) -> (r: String)
        ensures
            match self {
                LockError::NewerVersion { found, supported } => r@ == newer_version_text(
                    *found as nat,
                    *supported as nat,
                ),
            },
    {
        match self {
            LockError::NewerVersion { found, supported } => {
                let mut out: Vec<char> = Vec::new();
                push_chars(&mut out, "found newer file format version ");
                push_decimal(&mut out, *found);
                push_chars(&mut out, ", but only up to including version ");
                push_decimal(&mut out, *supported);
                push_chars(&mut out, " is supported");
                string_from_chars(&out)
            },
        }
    }
}

/// What kind of package a lock entry is.
#[derive(Debug)]
pub enum LockedDependencyKind {
    Conda { build: String },
    Pip,
}

/// One locked package.
#[derive(Debug)]
pub struct LockedDependency {
    pub name: String,
    pub platform: String,
    pub version: String,
    pub kind: LockedDependencyKind,
}

/// The packages of a lock document.
#[derive(Debug)]
pub struct CondaLock {
    pub package: Vec<LockedDependency>,
}

/// Lexicographic three-way comparison of byte strings: `-1`, `0` or `1`.
pub open spec fn bytes_cmp(a: Seq<u8>, b: Seq<u8>) -> int
    decreases a.len(),
{
    if a.len() == 0 {
        if b.len() == 0 {
            0
        } else {
            -1
        }
    } else if b.len() == 0 {
        1
    } else if a[0] < b[0] {
        -1
    } else if a[0] > b[0] {
        1
    } else {
        bytes_cmp(a.drop_first(), b.drop_first())
    }
}

pub proof fn lemma_bytes_cmp_antisym(a: Seq<u8>, b: Seq<u8>)
    ensures
        bytes_cmp(a, b) == -bytes_cmp(b, a),
    decreases a.len(),
{
    if a.len() > 0 && b.len() > 0 {
        lemma_bytes_cmp_antisym(a.drop_first(), b.drop_first());
    }
}

/// The order of two strings as Rust orders them: by their UTF-8 bytes.
pub open spec fn text_cmp(a: Seq<char>, b: Seq<char>) -> int {
    bytes_cmp(encode_utf8(a), encode_utf8(b))
}

fn compare_text(a: &String, b: &String) -> (r: i8)
    ensures
        r as int == text_cmp(a@, b@),
{
    let x = a.as_str().as_bytes();
    let y = b.as_str().as_bytes();
    let mut i: usize = 0;
    assert(x@.skip(0) =~= x@);
    assert(y@.skip(0) =~= y@);
    while i < x.len() && i < y.len()
        invariant
            x@ == encode_utf8(a@),
            y@ == encode_utf8(b@),
            i <= x@.len(),
            i <= y@.len(),
            text_cmp(a@, b@) == bytes_cmp(x@.skip(i as int), y@.skip(i as int)),
        decreases x@.len() - i,
    {
        assert(x@.skip(i as int).drop_first() =~= x@.skip(i + 1));
        assert(y@.skip(i as int).drop_first() =~= y@.skip(i + 1));
        assert(x@.skip(i as int).len() > 0 && y@.skip(i as int).len() > 0);
        assert(x@.skip(i as int)[0] == x@[i as int]);
        assert(y@.skip(i as int)[0] == y@[i as int]);
        if x[i] < y[i] {
            assert(bytes_cmp(x@.skip(i as int), y@.skip(i as int)) == -1);
            return -1;
        } else if x[i] > y[i] {
            assert(bytes_cmp(x@.skip(i as int), y@.skip(i as int)) == 1);
            return 1;
        }
        i = i + 1;
    }
    if i < x.len() {
        1
    } else if i < y.len() {
        -1
    } else {
        0
    }
}

/// The canonical order of two lock entries: by name, platform and version; then two
/// conda entries by build, and a pip entry before any other kind.
pub open spec fn entry_cmp(a: LockedDependency, b: LockedDependency) -> int {
    if text_cmp(a.name@, b.name@) != 0 {
        text_cmp(a.name@, b.name@)
    } else if text_cmp(a.platform@, b.platform@) != 0 {
        text_cmp(a.platform@, b.platform@)
    } else if text_cmp(a.version@, b.version@) != 0 {
        text_cmp(a.version@, b.version@)
    } else {
        match (a.kind, b.kind) {
            (LockedDependencyKind::Conda { build: x }, LockedDependencyKind::Conda { build: y }) => text_cmp(x@, y@),
            (LockedDependencyKind::Pip, LockedDependencyKind::Pip) => 0,
            (LockedDependencyKind::Pip, _) => -1,
            (_, LockedDependencyKind::Pip) => 1,
        }
    }
}

pub proof fn lemma_entry_cmp_antisym(a: LockedDependency, b: LockedDependency)
    ensures
        entry_cmp(a, b) == -entry_cmp(b, a),
{
    lemma_bytes_cmp_antisym(encode_utf8(a.name@), encode_utf8(b.name@));
    lemma_bytes_cmp_antisym(encode_utf8(a.platform@), encode_utf8(b.platform@));
    lemma_bytes_cmp_antisym(encode_utf8(a.version@), encode_utf8(b.version@));
    match (a.kind, b.kind) {
        (LockedDependencyKind::Conda { build: x }, LockedDependencyKind::Conda { build: y }) => {
            lemma_bytes_cmp_antisym(encode_utf8(x@), encode_utf8(y@));
        },
        _ => {},
    }
}

fn compare_entries(a: &LockedDependency, b: &LockedDependency) -> (r: i8)
    ensures
        r as int == entry_cmp(*a, *b),
{
    let c = compare_text(&a.name, &b.name);
    if c != 0 {
        return c;
    }
    let c = compare_text(&a.platform, &b.platform);
    if c != 0 {
        return c;
    }
    let c = compare_text(&a.version, &b.version);
    if c != 0 {
        return c;
    }
    match (&a.kind, &b.kind) {
        (LockedDependencyKind::Conda { build: x }, LockedDependencyKind::Conda { build: y }) => compare_text(x, y),
        (LockedDependencyKind::Pip, LockedDependencyKind::Pip) => 0,
        (LockedDependencyKind::Pip, _) => -1,
        (_, LockedDependencyKind::Pip) => 1,
    }
}

impl CondaLock {
    /// `o` lists every package position once, and no entry sorts before the one ahead
    /// of it.
    pub open spec fn is_canonical_order(&self, o: Seq<usize>) -> bool {
        let p = self.package@;
        &&& o.len() == p.len()
        &&& o.no_duplicates()
        &&& forall|k: int| 0 <= k < o.len() ==> #[trigger] o[k] < p.len()
        &&& forall|k: int, l: int|
            0 <= k && l == k + 1 && l < o.len() ==> entry_cmp(p[#[trigger] o[k] as int], p[#[trigger] o[l] as int]) <= 0
    }

    /// The packages are already in canonical order.
    pub open spec fn is_sorted(&self) -> bool {
        forall|k: int, l: int|
            0 <= k && l == k + 1 && l < self.package@.len() ==> entry_cmp(#[trigger] self.package@[k], #[trigger] self.package@[l]) <= 0
    }

    /// The order in which the packages are written: the canonical order, keeping entries
    /// that compare equal in their original order.
    #[verifier::rlimit(50)]
    pub fn serialization_order(&self) -> (o: Vec<usize>)
        ensures
            self.is_canonical_order(o@),
            self.is_sorted() ==> o@ == Seq::new(self.package@.len(), |k: int| k as usize),
    {
        let p = &self.package;
        let m = p.len();
        let mut o: Vec<usize> = Vec::new();
        let mut i: usize = 0;
        while i < m
            invariant
                p@ == self.package@,
                m == p@.len(),
                i <= m,
                o@.len() == i,
                o@.no_duplicates(),
                forall|k: int| 0 <= k < o@.len() ==> #[trigger] o@[k] < i,
                forall|k: int, l: int|
                    0 <= k && l == k + 1 && l < o@.len() ==> entry_cmp(p@[#[trigger] o@[k] as int], p@[#[trigger] o@[l] as int]) <= 0,
                self.is_sorted() ==> o@ == Seq::new(i as nat, |k: int| k as usize),
            decreases m - i,
        {
            let mut j: usize = o.len();
            loop
                invariant
                    p@ == self.package@,
                    m == p@.len(),
                    i < m,
                    o@.len() == i,
                    forall|k: int| 0 <= k < o@.len() ==> #[trigger] o@[k] < i,
                    j <= o@.len(),
                    j < o@.len() ==> entry_cmp(p@[i as int], p@[o@[j as int] as int]) < 0,
                    self.is_sorted() && j == o@.len() && i > 0 ==> o@[i - 1] == i - 1,
                    self.is_sorted() ==> j == o@.len(),
                ensures
                    j <= o@.len(),
                    j < o@.len() ==> entry_cmp(p@[i as int], p@[o@[j as int] as int]) < 0,
                    j > 0 ==> entry_cmp(p@[i as int], p@[o@[j - 1] as int]) >= 0,
                    self.is_sorted() ==> j == o@.len(),
                decreases j,
            {
                if j == 0 {
                    break;
                }
                if compare_entries(&p[i], &p[o[j - 1]]) >= 0 {
                    break;
                }
                proof {
                    if self.is_sorted() {
                        let k = (i - 1) as int;
                        let l = k + 1;
                        assert(entry_cmp(self.package@[k], self.package@[l]) <= 0);
                        lemma_entry_cmp_antisym(p@[k], p@[l]);
                    }
                }
                j = j - 1;
            }
            let ghost before = o@;
            o.insert(j, i);
            proof {
                let after = o@;
                assert forall|k: int| 0 <= k < after.len() implies #[trigger] after[k] < i + 1 by {
                    if k < j {
                        assert(after[k] == before[k]);
                    } else if k > j {
                        assert(after[k] == before[k - 1]);
                    }
                }
                assert forall|k: int, l: int|
                    0 <= k < after.len() && 0 <= l < after.len() && k != l implies after[k] != after[l] by {
                    if k != j && l != j {
                        let kk = if k < j { k } else { k - 1 };
                        let ll = if l < j { l } else { l - 1 };
                        assert(after[k] == before[kk]);
                        assert(after[l] == before[ll]);
                    } else if k == j {
                        let ll = if l < j { l } else { l - 1 };
                        assert(after[l] == before[ll]);
                    } else {
                        let kk = if k < j { k } else { k - 1 };
                        assert(after[k] == before[kk]);
                    }
                }
                assert forall|k: int, l: int|
                    0 <= k && l == k + 1 && l < after.len() implies entry_cmp(p@[#[trigger] after[k] as int], p@[#[trigger] after[l] as int]) <= 0 by {
                    if l < j {
                        assert(after[k] == before[k] && after[l] == before[l]);
                    } else if l == j {
                        assert(after[k] == before[k]);
                        assert(after[l] == i);
                        lemma_entry_cmp_antisym(p@[i as int], p@[before[k] as int]);
                    } else if k == j {
                        assert(after[k] == i);
                        assert(after[l] == before[k]);
                    } else {
                        let kk = k - 1;
                        assert(after[k] == before[kk] && after[l] == before[kk + 1]);
                    }
                }
                if self.is_sorted() {
                    assert(after =~= Seq::new((i + 1) as nat, |k: int| k as usize));
                }
            }
            i = i + 1;
        }
        o
    }
}

} // verus!
