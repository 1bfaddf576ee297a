use elm_vendor::discard_input;
use elm_vendor::shared::is_lamdera_project;
use elm_vendor::version::{DependencyVersion, SemVer, VersionStepError};
use elm_vendor::CmdContext;

fn v(major: u64, minor: u64, patch: u64) -> SemVer {
    SemVer { major, minor, patch }
}

#[test]
fn predecessor_of_minimum_fails() {
    assert_eq!(v(0, 0, 0).predecessor(), Err(VersionStepError::NoPredecessor));
}

#[test]
fn successor_of_maximum_fails() {
    assert_eq!(
        v(u64::MAX, u64::MAX, u64::MAX).successor(),
        Err(VersionStepError::NoSuccessor)
    );
}

#[test]
fn predecessor_borrows_through_minor_and_major() {
    assert_eq!(v(1, 2, 3).predecessor(), Ok(v(1, 2, 2)));
    assert_eq!(v(1, 2, 0).predecessor(), Ok(v(1, 1, u64::MAX)));
    assert_eq!(v(1, 0, 0).predecessor(), Ok(v(0, u64::MAX, u64::MAX)));
}

#[test]
fn successor_carries_through_minor_and_major() {
    assert_eq!(v(1, 2, 3).successor(), Ok(v(1, 2, 4)));
    assert_eq!(v(1, 2, u64::MAX).successor(), Ok(v(1, 3, 0)));
    assert_eq!(v(1, u64::MAX, u64::MAX).successor(), Ok(v(2, 0, 0)));
}

#[test]
fn step_down_then_up_returns_the_version() {
    for sample in [v(0, 0, 1), v(1, 0, 0), v(3, 5, 7), v(2, 0, u64::MAX)] {
        let down = sample.predecessor().unwrap();
        assert_eq!(down.successor(), Ok(sample));
    }
}

#[test]
fn step_up_then_down_returns_the_version() {
    for sample in [v(0, 0, 0), v(1, u64::MAX, u64::MAX), v(3, 5, 7)] {
        let up = sample.successor().unwrap();
        assert_eq!(up.predecessor(), Ok(sample));
    }
}

#[test]
fn ordering_is_lexicographic() {
    assert!(v(1, 2, 3) < v(1, 2, 4));
    assert!(v(1, 2, 3) < v(1, 3, 0));
    assert!(v(1, 9, 9) < v(2, 0, 0));
    assert!(!(v(2, 0, 0) < v(1, 9, 9)));
    assert!(!(v(1, 2, 3) < v(1, 2, 3)));
    assert!(v(0, 0, 0) < v(0, 0, 1));
    assert!(v(1, 2, 3) <= v(1, 2, 3));
    assert!(v(2, 0, 0) > v(1, u64::MAX, u64::MAX));
}

#[test]
fn domain_bounds() {
    assert_eq!(SemVer::minimum(), v(0, 0, 0));
    assert_eq!(SemVer::maximum(), v(u64::MAX, u64::MAX, u64::MAX));
}

#[test]
fn version_converts_to_exact_constraint() {
    assert_eq!(
        DependencyVersion::from(v(1, 2, 3)),
        DependencyVersion::SpecificVersion(v(1, 2, 3))
    );
}

#[test]
fn lamdera_detection() {
    let with: Vec<(String, u32)> = vec![
        ("elm/core".to_string(), 0),
        ("lamdera/core".to_string(), 1),
    ];
    let without: Vec<(String, u32)> = vec![("elm/core".to_string(), 0)];
    let empty: Vec<(String, u32)> = Vec::new();
    assert!(is_lamdera_project(&with));
    assert!(!is_lamdera_project(&without));
    assert!(!is_lamdera_project(&empty));
}

#[test]
fn discard_input_keeps_the_payload() {
    assert_eq!(discard_input((42, "rest")), "rest");
    let ctx = CmdContext {
        yes: true,
        root: ".".to_string(),
    };
    assert!(ctx.yes);
    assert_eq!(ctx.root, ".");
}
