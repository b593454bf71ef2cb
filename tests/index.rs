use rattler_solve::candidates::{PackageVariantSet, VariantId};
use rattler_solve::index::{Dependencies, Index, Requirement, ResolveError};
use rattler_solve::record::{MatchSpec, PackageRecord, Version};
use std::cmp::Ordering;

fn ver(parts: &[u64]) -> Version {
    Version::new(parts.to_vec())
}

fn rec(name: &str, version: &[u64], build_number: u64) -> PackageRecord {
    PackageRecord {
        name: name.to_string(),
        version: ver(version),
        build: format!("b{build_number}"),
        build_number,
        depends: vec![],
        constrains: vec![],
        track_features: vec![],
        timestamp: 0,
    }
}

fn any(name: &str) -> MatchSpec {
    MatchSpec { name: Some(name.to_string()), min_version: None, max_version: None, build_number: None }
}

fn at_least(name: &str, v: &[u64]) -> MatchSpec {
    MatchSpec { min_version: Some(ver(v)), ..any(name) }
}

fn below(name: &str, v: &[u64]) -> MatchSpec {
    MatchSpec { max_version: Some(ver(v)), ..any(name) }
}

fn members(s: &PackageVariantSet, n: usize) -> Vec<usize> {
    (0..n).filter(|&i| s.contains_variant_index(i)).collect()
}

fn three_versions() -> Index {
    Index::new(vec![
        vec![rec("pkg", &[1, 0], 0), rec("other", &[3], 0)],
        vec![rec("pkg", &[2, 0], 0), rec("pkg", &[1, 5], 0)],
    ])
}

#[test]
fn universe_collects_records_in_registration_order() {
    let mut index = three_versions();
    let u = index.package_variants(&"pkg".to_string());
    assert_eq!(index.universes[u].members, vec![0, 2, 3]);
    let again = index.package_variants(&"pkg".to_string());
    assert_eq!(again, u);
    let missing = index.package_variants(&"nothing".to_string());
    assert!(index.universes[missing].members.is_empty());
}

#[test]
fn range_from_matchspec_selects_matching_variants() {
    let mut index = three_versions();
    let u = index.package_variants(&"pkg".to_string());
    let pv = &index.universes[u];
    let s = pv.range_from_matchspec(&index.records, &at_least("pkg", &[1, 5]));
    assert_eq!(members(&s, 3), vec![1, 2]);
    assert_eq!(pv.available_variant_count_in_range(&s), 2);
    let all = pv.range_from_matchspec(&index.records, &any("pkg"));
    assert!(matches!(all, PackageVariantSet::Full));
    assert_eq!(pv.available_variant_count_in_range(&all), 3);
    let none = pv.range_from_matchspec(&index.records, &at_least("pkg", &[9]));
    assert!(matches!(none, PackageVariantSet::Empty));
    assert_eq!(pv.available_variant_count_in_range(&none), 0);
}

#[test]
fn find_highest_version_reports_maximum_and_tracking() {
    let mut featured = rec("lib", &[4], 0);
    featured.track_features = vec!["debug".to_string()];
    let index = Index::new(vec![vec![rec("lib", &[2], 0), featured, rec("lib", &[3], 0)]]);
    let (v, all_tracked) = index.find_highest_version(&any("lib")).unwrap();
    assert_eq!(v.parts, vec![4]);
    assert!(!all_tracked);
    let (v, all_tracked) = index.find_highest_version(&below("lib", &[4])).unwrap();
    assert_eq!(v.parts, vec![3]);
    assert!(!all_tracked);
    let (v, all_tracked) = index.find_highest_version(&at_least("lib", &[4])).unwrap();
    assert_eq!(v.parts, vec![4]);
    assert!(all_tracked);
    assert!(index.find_highest_version(&at_least("lib", &[5])).is_none());
    assert!(index.find_highest_version(&any("absent")).is_none());
}

#[test]
fn tracked_feature_ranks_below_older_untracked_variant() {
    let mut newer = rec("pkg", &[1, 0], 0);
    newer.track_features = vec!["debug".to_string()];
    let older = rec("pkg", &[0, 9], 0);
    let mut index = Index::new(vec![vec![newer, older]]);
    let u = index.package_variants(&"pkg".to_string());
    assert_eq!(index.compare_variants(u, 1, 0), Ordering::Less);
    assert_eq!(index.compare_variants(u, 0, 1), Ordering::Greater);
    let potential = vec![("pkg".to_string(), PackageVariantSet::full())];
    let (k, v) = index.choose_package_version(&potential).unwrap();
    assert_eq!(k, 0);
    assert_eq!(v.index, 1);
    assert_eq!(index.record(&v).version.parts, vec![0, 9]);
}

#[test]
fn cascade_prefers_version_then_build_then_timestamp() {
    let mut late = rec("pkg", &[1], 1);
    late.timestamp = 20;
    let mut early = rec("pkg", &[1], 1);
    early.timestamp = 10;
    let mut index = Index::new(vec![vec![
        rec("pkg", &[1], 0),
        early,
        rec("pkg", &[2], 0),
        late,
    ]]);
    let u = index.package_variants(&"pkg".to_string());
    assert_eq!(index.compare_variants(u, 2, 0), Ordering::Less);
    assert_eq!(index.compare_variants(u, 1, 0), Ordering::Less);
    assert_eq!(index.compare_variants(u, 3, 1), Ordering::Less);
    assert_eq!(index.compare_variants(u, 1, 1), Ordering::Equal);
    index.variants_order(u);
    assert_eq!(index.orders[u], Some(vec![2, 3, 1, 0]));
}

#[test]
fn dependency_score_prefers_newer_dependency() {
    let mut a = rec("app", &[1], 0);
    a.depends = vec![below("lib", &[2])];
    let mut b = rec("app", &[1], 0);
    b.depends = vec![any("lib")];
    let mut index = Index::new(vec![vec![a, b, rec("lib", &[1], 0), rec("lib", &[3], 0)]]);
    let u = index.package_variants(&"app".to_string());
    assert_eq!(index.compare_variants(u, 0, 1), Ordering::Greater);
    assert_eq!(index.compare_variants(u, 1, 0), Ordering::Less);
}

#[test]
fn dependency_score_penalizes_tracked_only_dependency() {
    let mut tracked_lib = rec("lib", &[5], 0);
    tracked_lib.track_features = vec!["debug".to_string()];
    let mut a = rec("app", &[1], 0);
    a.depends = vec![at_least("lib", &[5])];
    let mut b = rec("app", &[1], 0);
    b.depends = vec![below("lib", &[5])];
    let mut index = Index::new(vec![vec![a, b, rec("lib", &[1], 0), tracked_lib]]);
    let u = index.package_variants(&"app".to_string());
    assert_eq!(index.compare_variants(u, 0, 1), Ordering::Greater);
}

#[test]
fn choose_picks_smallest_nonzero_population() {
    let mut index = Index::new(vec![vec![
        rec("a", &[1], 0),
        rec("a", &[2], 0),
        rec("a", &[3], 0),
        rec("b", &[1], 0),
        rec("b", &[2], 0),
    ]]);
    let potential = vec![
        ("a".to_string(), PackageVariantSet::full()),
        ("missing".to_string(), PackageVariantSet::full()),
        ("b".to_string(), PackageVariantSet::full()),
    ];
    let (k, v) = index.choose_package_version(&potential).unwrap();
    assert_eq!(k, 2);
    assert_eq!(v.name(&index), "b");
    assert_eq!(v.index, 1);
}

#[test]
fn choose_respects_candidate_set() {
    let mut index = Index::new(vec![vec![rec("a", &[1], 0), rec("a", &[2], 0), rec("a", &[3], 0)]]);
    let only_first = PackageVariantSet::singleton(VariantId { universe: 0, index: 0, count: 3 });
    let potential = vec![("a".to_string(), only_first)];
    let (_, v) = index.choose_package_version(&potential).unwrap();
    assert_eq!(v.index, 0);
}

#[test]
fn choose_without_candidates_fails() {
    let mut index = Index::new(vec![vec![rec("a", &[1], 0)]]);
    let potential = vec![("a".to_string(), PackageVariantSet::empty())];
    assert!(matches!(index.choose_package_version(&potential), Err(ResolveError::NoCandidate)));
    assert!(matches!(index.choose_package_version(&vec![]), Err(ResolveError::NoCandidate)));
}

fn dependent_on(dep: MatchSpec) -> Index {
    let mut app = rec("app", &[1], 0);
    app.depends = vec![dep];
    Index::new(vec![vec![app]])
}

#[test]
fn missing_dependency_is_an_error_naming_it() {
    let mut index = dependent_on(any("nonexistent-xyzzy"));
    let u = index.package_variants(&"app".to_string());
    let r = index.get_dependencies(&VariantId { universe: u, index: 0, count: 1 });
    match r {
        Err(ResolveError::NoEntries(name)) => assert_eq!(name, "nonexistent-xyzzy"),
        _ => panic!("expected a missing-package error"),
    }
}

#[test]
fn absent_virtual_dependency_is_unknown() {
    let mut index = dependent_on(at_least("__glibc", &[2, 17]));
    let u = index.package_variants(&"app".to_string());
    let r = index.get_dependencies(&VariantId { universe: u, index: 0, count: 1 });
    assert!(matches!(r, Ok(Dependencies::Unknown)));
}

#[test]
fn registered_virtual_dependency_is_required() {
    let mut index = dependent_on(at_least("__glibc", &[2, 17]));
    assert!(!index.has_package(&"__glibc".to_string()));
    let g = index.add_package(rec("__glibc", &[2, 31], 0));
    assert_eq!(g.count, 1);
    assert!(index.has_package(&"__glibc".to_string()));
    let u = index.package_variants(&"app".to_string());
    let r = index.get_dependencies(&VariantId { universe: u, index: 0, count: 1 });
    match r {
        Ok(Dependencies::Known(es)) => {
            assert_eq!(es.len(), 1);
            assert_eq!(es[0].0, "__glibc");
            assert!(matches!(es[0].1, Requirement::Required(PackageVariantSet::Full)));
        }
        _ => panic!("expected known dependencies"),
    }
}

#[test]
fn constraints_narrow_and_depends_upgrade() {
    let mut app = rec("app", &[1], 0);
    app.constrains = vec![below("lib", &[3]), at_least("opt", &[2])];
    app.depends = vec![at_least("lib", &[2])];
    let mut index = Index::new(vec![vec![
        app,
        rec("lib", &[1], 0),
        rec("lib", &[2], 0),
        rec("lib", &[3], 0),
        rec("opt", &[1], 0),
        rec("opt", &[2], 0),
    ]]);
    let u = index.package_variants(&"app".to_string());
    let r = index.get_dependencies(&VariantId { universe: u, index: 0, count: 1 });
    let es = match r {
        Ok(Dependencies::Known(es)) => es,
        _ => panic!("expected known dependencies"),
    };
    assert_eq!(es.len(), 2);
    let lib = es.iter().find(|e| e.0 == "lib").unwrap();
    match &lib.1 {
        Requirement::Required(s) => assert_eq!(members(s, 3), vec![1]),
        _ => panic!("lib should be required"),
    }
    let opt = es.iter().find(|e| e.0 == "opt").unwrap();
    match &opt.1 {
        Requirement::Constrained(s) => assert_eq!(members(s, 2), vec![1]),
        _ => panic!("opt should only be constrained"),
    }
}

#[test]
fn version_comparison_is_componentwise() {
    assert_eq!(ver(&[1, 2]).compare(&ver(&[1, 10])), -1);
    assert_eq!(ver(&[2]).compare(&ver(&[1, 10])), 1);
    assert_eq!(ver(&[1]).compare(&ver(&[1, 0])), -1);
    assert_eq!(ver(&[1, 0]).compare(&ver(&[1, 0])), 0);
}

#[test]
fn match_spec_checks_bounds_and_build_number() {
    let r = rec("pkg", &[1, 5], 3);
    assert!(at_least("pkg", &[1, 5]).matches(&r));
    assert!(!below("pkg", &[1, 5]).matches(&r));
    assert!(!any("other").matches(&r));
    let exact = MatchSpec { build_number: Some(3), ..any("pkg") };
    assert!(exact.matches(&r));
    let wrong = MatchSpec { build_number: Some(4), ..any("pkg") };
    assert!(!wrong.matches(&r));
}

fn known_entries(deps: Vec<MatchSpec>) -> Vec<(String, Vec<usize>, bool)> {
    let mut app = rec("app", &[1], 0);
    app.depends = deps;
    let mut index = Index::new(vec![vec![
        app,
        rec("lib", &[1], 0),
        rec("lib", &[2], 0),
        rec("opt", &[1], 0),
        rec("opt", &[2], 0),
    ]]);
    let u = index.package_variants(&"app".to_string());
    match index.get_dependencies(&VariantId { universe: u, index: 0, count: 1 }) {
        Ok(Dependencies::Known(es)) => {
            let mut out: Vec<(String, Vec<usize>, bool)> = es
                .iter()
                .map(|(name, req)| match req {
                    Requirement::Required(s) => (name.clone(), members(s, 2), true),
                    Requirement::Constrained(s) => (name.clone(), members(s, 2), false),
                })
                .collect();
            out.sort();
            out
        }
        _ => panic!("expected known dependencies"),
    }
}

#[test]
fn dependency_order_does_not_change_requirements() {
    let forward = known_entries(vec![at_least("lib", &[2]), below("opt", &[2]), any("lib")]);
    let backward = known_entries(vec![any("lib"), below("opt", &[2]), at_least("lib", &[2])]);
    assert_eq!(forward, backward);
    assert_eq!(
        forward,
        vec![("lib".to_string(), vec![1], true), ("opt".to_string(), vec![0], true)]
    );
}
