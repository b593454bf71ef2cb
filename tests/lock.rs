use rattler_solve::lock::{
    check_file_version, CondaLock, LockError, LockedDependency, LockedDependencyKind, FILE_VERSION,
};

fn conda(name: &str, platform: &str, version: &str, build: &str) -> LockedDependency {
    LockedDependency {
        name: name.to_string(),
        platform: platform.to_string(),
        version: version.to_string(),
        kind: LockedDependencyKind::Conda { build: build.to_string() },
    }
}

fn pip(name: &str, platform: &str, version: &str) -> LockedDependency {
    LockedDependency {
        name: name.to_string(),
        platform: platform.to_string(),
        version: version.to_string(),
        kind: LockedDependencyKind::Pip,
    }
}

#[test]
fn read_conda_lock() {
    let err = check_file_version(1000).unwrap_err();
    assert_eq!(
        err.message(),
        "found newer file format version 1000, but only up to including version 2 is supported"
    );
}

#[test]
fn version_one_past_the_newest_is_refused() {
    let err = check_file_version(FILE_VERSION + 1).unwrap_err();
    assert_eq!(err, LockError::NewerVersion { found: 3, supported: 2 });
    assert_eq!(
        err.message(),
        "found newer file format version 3, but only up to including version 2 is supported"
    );
}

#[test]
fn supported_versions_are_accepted() {
    assert_eq!(check_file_version(0), Ok(0));
    assert_eq!(check_file_version(1), Ok(1));
    assert_eq!(check_file_version(2), Ok(2));
}

#[test]
fn packages_sort_by_name_platform_version_build() {
    let lock = CondaLock {
        package: vec![
            conda("zlib", "linux-64", "1.2", "h0"),
            conda("numpy", "osx-64", "1.0", "py_0"),
            conda("numpy", "linux-64", "1.1", "py_0"),
            conda("numpy", "linux-64", "1.0", "py_1"),
            conda("numpy", "linux-64", "1.0", "py_0"),
        ],
    };
    assert_eq!(lock.serialization_order(), vec![4, 3, 2, 1, 0]);
}

#[test]
fn pip_sorts_before_conda_of_same_version() {
    let lock = CondaLock {
        package: vec![
            conda("requests", "linux-64", "2.0", "pyh0"),
            pip("requests", "linux-64", "2.0"),
        ],
    };
    assert_eq!(lock.serialization_order(), vec![1, 0]);
}

#[test]
fn sorted_document_keeps_its_order() {
    let lock = CondaLock {
        package: vec![
            conda("a", "linux-64", "1", "b0"),
            pip("b", "linux-64", "1"),
            pip("b", "linux-64", "1"),
            conda("c", "noarch", "2", "b1"),
        ],
    };
    assert_eq!(lock.serialization_order(), vec![0, 1, 2, 3]);
}

#[test]
fn empty_document_has_empty_order() {
    let lock = CondaLock { package: vec![] };
    assert_eq!(lock.serialization_order(), Vec::<usize>::new());
}
