use rpkg::debversion::{cmp_debversion, cmp_debversion_with_op, parse_relation, parse_version, VersionError, VersionRelation};

fn cmp(a: &str, b: &str) -> i8 {
    cmp_debversion(&parse_version(a).unwrap(), &parse_version(b).unwrap())
}

#[test]
fn numeric_parts_compare_as_numbers() {
    assert_eq!(cmp("1.10", "1.9"), 1);
    assert_eq!(cmp("1.01", "1.1"), 0);
    assert_eq!(cmp("1.0", "1.0.1"), -1);
}

#[test]
fn tilde_sorts_before_release() {
    assert_eq!(cmp("1.0~rc1", "1.0"), -1);
    assert_eq!(cmp("1.0", "1.0~rc1"), 1);
}

#[test]
fn letters_sort_before_symbols() {
    assert_eq!(cmp("1.0a", "1.0+b"), -1);
    assert_eq!(cmp("1.0a", "1.0"), 1);
}

#[test]
fn epoch_dominates() {
    assert_eq!(cmp("1:0.1", "2.0"), 1);
    assert_eq!(cmp("0:2.0", "2.0"), 0);
}

#[test]
fn revision_breaks_ties() {
    assert_eq!(cmp("1.0-1", "1.0-2"), -1);
    assert_eq!(cmp("1.0-2", "1.0-2"), 0);
}

#[test]
fn parts_are_split() {
    let v = parse_version("2:1.2-3-4").unwrap();
    assert_eq!(v.epoch, vec!['2']);
    assert_eq!(v.upstream_version, vec!['1', '.', '2', '-', '3']);
    assert_eq!(v.debian_revision, vec!['4']);
    assert_eq!(v.to_string(), "2:1.2-3-4");
}

#[test]
fn bad_versions_are_refused() {
    assert!(matches!(parse_version(":1.0"), Err(VersionError::BadEpoch)));
    assert!(matches!(parse_version("a:1.0"), Err(VersionError::BadEpoch)));
    assert!(matches!(parse_version(""), Err(VersionError::EmptyUpstream)));
    assert!(matches!(parse_version("-1"), Err(VersionError::EmptyUpstream)));
}

#[test]
fn relations() {
    assert_eq!(parse_relation("<<"), Some(VersionRelation::StrictlyLess));
    assert_eq!(parse_relation("<="), Some(VersionRelation::LessOrEqual));
    assert_eq!(parse_relation("="), Some(VersionRelation::Equal));
    assert_eq!(parse_relation(">="), Some(VersionRelation::GreaterOrEqual));
    assert_eq!(parse_relation(">>"), Some(VersionRelation::StrictlyGreater));
    assert_eq!(parse_relation("<"), None);
    assert_eq!(parse_relation("=>"), None);
    let a = parse_version("2.5").unwrap();
    let b = parse_version("2.0").unwrap();
    assert!(cmp_debversion_with_op(&VersionRelation::GreaterOrEqual, &a, &b));
    assert!(cmp_debversion_with_op(&VersionRelation::StrictlyGreater, &a, &b));
    assert!(!cmp_debversion_with_op(&VersionRelation::LessOrEqual, &a, &b));
    assert!(!cmp_debversion_with_op(&VersionRelation::Equal, &a, &b));
}
