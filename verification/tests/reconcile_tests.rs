use elm_vendor::intervals::normalize_union;
use elm_vendor::shared::{ElmJson, ElmJsonDeps, ElmJsonKind, ElmVendor, NormalizedElmJson};
use elm_vendor::utils::try_with_progress;
use elm_vendor::vendoring::{
    coalesce_dependencies, collapse_sources, reconcile, vendor_merge, Dependency,
    VendorChangeError,
};
use elm_vendor::version::{DependencyVersion, Relation, SemVer, VersionRange};

fn v(major: u64, minor: u64, patch: u64) -> SemVer {
    SemVer { major, minor, patch }
}

fn rng(lower: SemVer, lr: Relation, hr: Relation, higher: SemVer) -> DependencyVersion {
    DependencyVersion::VersionRange(VersionRange {
        lower,
        lower_relation: lr,
        higher_relation: hr,
        higher,
    })
}

fn exact(ver: SemVer) -> DependencyVersion {
    DependencyVersion::SpecificVersion(ver)
}

fn src(name: &str, c: DependencyVersion) -> (String, DependencyVersion) {
    (name.to_string(), c)
}

#[test]
fn identical_constraints_converge() {
    let c = exact(v(1, 2, 3));
    let sources = vec![src("main package (elm-vendor.json)", c), src("pkg-a", c)];
    assert_eq!(collapse_sources(sources), Ok(c));
}

#[test]
fn identical_ranges_converge_verbatim() {
    let c = DependencyVersion::parse("1.0.0 <= v < 2.0.0").unwrap();
    let sources = vec![src("a", c), src("b", c), src("c", c)];
    let merged = collapse_sources(sources).unwrap();
    assert_eq!(merged, c);
    assert_eq!(merged.display(), "1.0.0 <= v < 2.0.0");
}

#[test]
fn disjoint_sources_conflict_with_full_provenance() {
    let a = DependencyVersion::parse("1.0.0 <= v < 2.0.0").unwrap();
    let b = exact(v(5, 0, 0));
    let sources = vec![src("source-a", a), src("source-b", b)];
    let back = collapse_sources(sources.clone()).unwrap_err();
    assert_eq!(back, sources);
}

#[test]
fn overlapping_ranges_merge_to_the_hull() {
    let a = DependencyVersion::parse("1.0.0 <= v < 2.0.0").unwrap();
    let b = DependencyVersion::parse("1.5.0 <= v < 3.0.0").unwrap();
    let merged = collapse_sources(vec![src("a", a), src("b", b)]).unwrap();
    assert_eq!(merged.display(), "1.0.0 <= v < 3.0.0");
}

#[test]
fn adjacent_ranges_merge() {
    let a = DependencyVersion::parse("1.0.0 <= v < 2.0.0").unwrap();
    let b = DependencyVersion::parse("2.0.0 <= v < 3.0.0").unwrap();
    let merged = collapse_sources(vec![src("a", a), src("b", b)]).unwrap();
    assert_eq!(merged.display(), "1.0.0 <= v < 3.0.0");
}

#[test]
fn single_point_range_collapses_to_exact() {
    let c = DependencyVersion::parse("1.2.3 <= v <= 1.2.3").unwrap();
    let merged = collapse_sources(vec![src("a", c)]).unwrap();
    assert_eq!(merged, exact(v(1, 2, 3)));
}

#[test]
fn inverted_range_is_a_conflict() {
    let c = DependencyVersion::parse("2.0.0 <= v < 1.0.0").unwrap();
    let sources = vec![src("a", c)];
    assert_eq!(collapse_sources(sources.clone()), Err(sources));
}

#[test]
fn normalize_union_sorts_and_keeps_gaps() {
    let five = VersionRange {
        lower: v(5, 0, 0),
        lower_relation: Relation::LTE,
        higher_relation: Relation::LTE,
        higher: v(6, 0, 0),
    };
    let one = VersionRange {
        lower: v(1, 0, 0),
        lower_relation: Relation::LTE,
        higher_relation: Relation::LT,
        higher: v(2, 0, 0),
    };
    let result = normalize_union(vec![five, one]);
    assert_eq!(result, vec![one, five]);
}

#[test]
fn fail_soft_collects_every_failure() {
    let items = vec![0, 1, 2, 3, 4];
    let result = try_with_progress(items, |n: i32| {
        if n == 2 || n == 4 {
            Err(format!("broken {}", n))
        } else {
            Ok(n * 10)
        }
    });
    assert_eq!(
        result,
        Err(vec!["broken 2".to_string(), "broken 4".to_string()])
    );
}

#[test]
fn fail_soft_keeps_every_success_in_order() {
    let items = vec![0, 1, 2, 3, 4];
    let result = try_with_progress(items, |n: i32| Ok::<i32, String>(n * 10));
    assert_eq!(result, Ok(vec![0, 10, 20, 30, 40]));
}

#[test]
fn coalesce_groups_by_dependency_name() {
    let mut groups = Vec::new();
    coalesce_dependencies(
        vec![
            Dependency {
                source: "a".to_string(),
                dependency: "x".to_string(),
                version: exact(v(1, 0, 0)),
            },
            Dependency {
                source: "b".to_string(),
                dependency: "y".to_string(),
                version: exact(v(2, 0, 0)),
            },
            Dependency {
                source: "c".to_string(),
                dependency: "x".to_string(),
                version: exact(v(3, 0, 0)),
            },
        ],
        &mut groups,
    );
    assert_eq!(groups.len(), 2);
    assert_eq!(groups[0].0, "x");
    assert_eq!(
        groups[0].1,
        vec![src("a", exact(v(1, 0, 0))), src("c", exact(v(3, 0, 0)))]
    );
    assert_eq!(groups[1].0, "y");
    assert_eq!(groups[1].1, vec![src("b", exact(v(2, 0, 0)))]);
}

#[test]
fn source_dirs_are_contextualized() {
    let man = NormalizedElmJson {
        kind: ElmJsonKind::Package,
        source_dirs: vec!["src".to_string(), "/abs/dir".to_string()],
        dependencies: Vec::new(),
    };
    assert_eq!(
        man.contextualize_source_dirs("mypkg"),
        vec!["mypkg/src".to_string(), "/abs/dir".to_string()]
    );
}

#[test]
fn application_manifest_normalizes_pins() {
    let json = ElmJson {
        source_dirs: vec!["src".to_string()],
        dependencies: ElmJsonDeps::Application {
            direct: vec![("elm/core".to_string(), v(1, 0, 5))],
        },
    };
    let man = json.normalize();
    assert_eq!(man.kind, ElmJsonKind::Application);
    assert_eq!(man.source_dirs, vec!["src".to_string()]);
    assert_eq!(man.dependencies, vec![src("elm/core", exact(v(1, 0, 5)))]);
}

#[test]
fn missing_manifest_fails_the_run_with_exactly_that_error() {
    let vendor = ElmVendor {
        main_deps: vec![src("x", exact(v(1, 0, 0)))],
        source_dirs: vec!["src".to_string()],
        vendored: vec!["ghost-pkg".to_string()],
        kind: ElmJsonKind::Application,
    };
    let loads = vec![Err(VendorChangeError::NoElmJsonFound(
        "ghost-pkg".to_string(),
    ))];
    let err = vendor_merge(vendor, loads).unwrap_err();
    assert_eq!(err.errors.len(), 1);
    assert!(
        matches!(&err.errors[0], VendorChangeError::NoElmJsonFound(name) if name == "ghost-pkg")
    );
}

#[test]
fn load_failures_are_all_collected_in_order() {
    let vendor = ElmVendor {
        main_deps: Vec::new(),
        source_dirs: Vec::new(),
        vendored: vec!["a".to_string(), "b".to_string(), "c".to_string()],
        kind: ElmJsonKind::Package,
    };
    let loads = vec![
        Err(VendorChangeError::IoError(
            "a".to_string(),
            "disk on fire".to_string(),
        )),
        Ok(NormalizedElmJson {
            kind: ElmJsonKind::Package,
            source_dirs: Vec::new(),
            dependencies: Vec::new(),
        }),
        Err(VendorChangeError::SerdeError(
            "c".to_string(),
            "not json".to_string(),
        )),
    ];
    let err = vendor_merge(vendor, loads).unwrap_err();
    assert_eq!(err.errors.len(), 2);
    assert!(matches!(&err.errors[0], VendorChangeError::IoError(p, _) if p == "a"));
    assert!(matches!(&err.errors[1], VendorChangeError::SerdeError(p, _) if p == "c"));
}

#[test]
fn vendor_merge_happy_path() {
    let vendor = ElmVendor {
        main_deps: vec![src(
            "x",
            DependencyVersion::parse("1.0.0 <= v < 2.0.0").unwrap(),
        )],
        source_dirs: vec!["src".to_string()],
        vendored: vec!["mypkg".to_string()],
        kind: ElmJsonKind::Application,
    };
    let man = NormalizedElmJson {
        kind: ElmJsonKind::Package,
        source_dirs: vec!["src".to_string()],
        dependencies: vec![src(
            "x",
            DependencyVersion::parse("1.5.0 <= v < 3.0.0").unwrap(),
        )],
    };
    let merged = vendor_merge(vendor, vec![Ok(man)]).unwrap();
    assert_eq!(
        merged.source_dirs,
        vec!["src".to_string(), "mypkg/src".to_string()]
    );
    assert_eq!(merged.dependencies.len(), 1);
    assert_eq!(merged.dependencies[0].0, "x");
    assert_eq!(merged.dependencies[0].1.display(), "1.0.0 <= v < 3.0.0");
}

#[test]
fn reconcile_keeps_an_agreed_constraint_unchanged() {
    let shared = DependencyVersion::parse("2.1.0 <= v < 3.0.0").unwrap();
    let man = NormalizedElmJson {
        kind: ElmJsonKind::Package,
        source_dirs: vec!["lib".to_string()],
        dependencies: vec![src("x", shared)],
    };
    let merged = reconcile(
        vec![src("x", shared)],
        vec![("vendored-pkg".to_string(), man)],
        vec!["src".to_string()],
    )
    .unwrap();
    assert_eq!(
        merged.source_dirs,
        vec!["src".to_string(), "vendored-pkg/lib".to_string()]
    );
    assert_eq!(merged.dependencies, vec![src("x", shared)]);
    assert_eq!(merged.dependencies[0].1.display(), "2.1.0 <= v < 3.0.0");
}

#[test]
fn vendor_merge_reports_every_conflict() {
    let vendor = ElmVendor {
        main_deps: vec![
            src("x", exact(v(1, 0, 0))),
            src("y", exact(v(1, 0, 0))),
            src("z", exact(v(1, 0, 0))),
        ],
        source_dirs: Vec::new(),
        vendored: vec!["p".to_string()],
        kind: ElmJsonKind::Application,
    };
    let man = NormalizedElmJson {
        kind: ElmJsonKind::Package,
        source_dirs: Vec::new(),
        dependencies: vec![src("x", exact(v(9, 0, 0))), src("z", exact(v(8, 0, 0)))],
    };
    let err = vendor_merge(vendor, vec![Ok(man)]).unwrap_err();
    assert_eq!(err.errors.len(), 2);
    assert!(matches!(
        &err.errors[0],
        VendorChangeError::ConflictingDependency { dependency, versions }
            if dependency == "x" && versions.len() == 2
    ));
    assert!(matches!(
        &err.errors[1],
        VendorChangeError::ConflictingDependency { dependency, .. } if dependency == "z"
    ));
}
