use elm_vendor::version::{DependencyVersion, Relation, SemVer, VersionRange};

fn v(major: u64, minor: u64, patch: u64) -> SemVer {
    SemVer { major, minor, patch }
}

fn range(
    lower: SemVer,
    lower_relation: Relation,
    higher_relation: Relation,
    higher: SemVer,
) -> VersionRange {
    VersionRange {
        lower,
        lower_relation,
        higher_relation,
        higher,
    }
}

#[test]
fn parses_plain_version() {
    assert_eq!(SemVer::parse("1.2.3"), Ok(v(1, 2, 3)));
    assert_eq!(SemVer::parse("0.0.0"), Ok(v(0, 0, 0)));
    assert_eq!(
        SemVer::parse("18446744073709551615.0.7"),
        Ok(v(u64::MAX, 0, 7))
    );
}

#[test]
fn version_overflow_is_rejected() {
    assert!(SemVer::parse("18446744073709551616.0.0").is_err());
    assert!(SemVer::parse("99999999999999999999999.1.2").is_err());
}

#[test]
fn malformed_versions_are_rejected() {
    assert!(SemVer::parse("").is_err());
    assert!(SemVer::parse("1").is_err());
    assert!(SemVer::parse("1.2").is_err());
    assert!(SemVer::parse("a.b.c").is_err());
    assert!(SemVer::parse(" 1.2.3").is_err());
    assert!(SemVer::parse("1..3").is_err());
}

#[test]
fn trailing_text_is_ignored() {
    assert_eq!(SemVer::parse("1.2.3 "), Ok(v(1, 2, 3)));
    assert_eq!(SemVer::parse("1.2.3junk"), Ok(v(1, 2, 3)));
    assert_eq!(
        DependencyVersion::parse("1.2.3junk"),
        Ok(DependencyVersion::SpecificVersion(v(1, 2, 3)))
    );
}

#[test]
fn parse_error_carries_the_input() {
    let err = SemVer::parse("nope").unwrap_err();
    assert_eq!(err.input, "nope");
}

#[test]
fn parses_ranges_with_both_relations() {
    assert_eq!(
        VersionRange::parse("1.0.0 <= v < 2.0.0"),
        Ok(range(v(1, 0, 0), Relation::LTE, Relation::LT, v(2, 0, 0)))
    );
    assert_eq!(
        VersionRange::parse("1.0.0 < v <= 2.0.0"),
        Ok(range(v(1, 0, 0), Relation::LT, Relation::LTE, v(2, 0, 0)))
    );
    assert_eq!(
        VersionRange::parse("1.0.0 <= v <= 2.0.0"),
        Ok(range(v(1, 0, 0), Relation::LTE, Relation::LTE, v(2, 0, 0)))
    );
    assert_eq!(
        VersionRange::parse("1.0.0 < v < 2.0.0"),
        Ok(range(v(1, 0, 0), Relation::LT, Relation::LT, v(2, 0, 0)))
    );
}

#[test]
fn range_whitespace_is_flexible() {
    assert_eq!(
        VersionRange::parse("1.0.0<=v<2.0.0"),
        Ok(range(v(1, 0, 0), Relation::LTE, Relation::LT, v(2, 0, 0)))
    );
    assert_eq!(
        VersionRange::parse("  1.0.0\t<= v <\t2.0.0  "),
        Ok(range(v(1, 0, 0), Relation::LTE, Relation::LT, v(2, 0, 0)))
    );
}

#[test]
fn constraint_prefers_the_range_reading() {
    assert_eq!(
        DependencyVersion::parse("1.0.0 <= v < 2.0.0"),
        Ok(DependencyVersion::VersionRange(range(
            v(1, 0, 0),
            Relation::LTE,
            Relation::LT,
            v(2, 0, 0)
        )))
    );
    assert_eq!(
        DependencyVersion::parse("5.0.0"),
        Ok(DependencyVersion::SpecificVersion(v(5, 0, 0)))
    );
}

#[test]
fn display_is_canonical() {
    assert_eq!(v(1, 2, 3).display(), "1.2.3");
    assert_eq!(v(0, 0, 0).display(), "0.0.0");
    assert_eq!(v(u64::MAX, 0, 10).display(), "18446744073709551615.0.10");
    assert_eq!(Relation::LTE.display(), "<=");
    assert_eq!(Relation::LT.display(), "<");
    assert_eq!(
        range(v(1, 0, 0), Relation::LTE, Relation::LT, v(2, 0, 0)).display(),
        "1.0.0 <= v < 2.0.0"
    );
    assert_eq!(
        DependencyVersion::SpecificVersion(v(1, 2, 3)).display(),
        "1.2.3"
    );
}

#[test]
fn parse_display_parse_round_trips() {
    for text in [
        "1.2.3",
        "0.0.0",
        "1.0.0 <= v < 2.0.0",
        "1.0.0 < v <= 2.0.0",
        "1.0.0<v<2.0.0",
        "  10.20.30 <= v <= 10.20.30",
        "18446744073709551615.18446744073709551615.18446744073709551615",
    ] {
        let first = DependencyVersion::parse(text).unwrap();
        let again = DependencyVersion::parse(&first.display()).unwrap();
        assert_eq!(again, first);
    }
}
