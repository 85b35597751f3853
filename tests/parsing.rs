use rpkg::debversion::VersionRelation;
use rpkg::packages::Packages;
use rpkg::parsers::{parse_alternative, parse_depends, parse_field, split_on, trim_blanks, ParseError};

fn lines(text: &[&str]) -> Vec<String> {
    text.iter().map(|s| s.to_string()).collect()
}

#[test]
fn field_lines() {
    assert_eq!(parse_field("Package: libc6"), Some(("Package".to_string(), "libc6".to_string())));
    assert_eq!(parse_field("Pre-Depends: a, b"), Some(("Pre-Depends".to_string(), "a, b".to_string())));
    assert_eq!(parse_field(" continuation line"), None);
    assert_eq!(parse_field("Key: "), None);
    assert_eq!(parse_field("no colon"), None);
}

#[test]
fn trimming_and_splitting() {
    assert_eq!(trim_blanks("  a b \t"), "a b");
    assert_eq!(trim_blanks("   "), "");
    assert_eq!(split_on("a, b,,c", ','), vec!["a", " b", "", "c"]);
    assert_eq!(split_on("", ','), vec![""]);
}

#[test]
fn alternatives() {
    assert_eq!(parse_alternative("libc6 (>= 2.34)"), Some(("libc6".to_string(), Some((">=".to_string(), "2.34".to_string())))));
    assert_eq!(parse_alternative("python3:any"), Some(("python3".to_string(), None)));
    assert_eq!(parse_alternative("foo (= 1.0 (x))"), Some(("foo".to_string(), Some(("=".to_string(), "1.0 (x)".to_string())))));
    assert_eq!(parse_alternative("(bad)"), None);
}

#[test]
fn depends_values() {
    let d = parse_depends("a (>= 1.0) | b, , c").unwrap();
    assert_eq!(d.len(), 2);
    assert_eq!(d[0], vec![
        ("a".to_string(), Some((VersionRelation::GreaterOrEqual, "1.0".to_string()))),
        ("b".to_string(), None),
    ]);
    assert_eq!(d[1], vec![("c".to_string(), None)]);
    assert_eq!(parse_depends("a (< 1.0)"), Err(ParseError::BadRelation));
}

#[test]
fn status_file() {
    let mut p = Packages::new();
    p.parse_installed(&lines(&["Package: a", "Status: install ok installed", "Version: 1.2-1 ", "", "Package: b", "Version: 2:0.1"])).unwrap();
    let a = p.get_package_num("a").unwrap();
    let b = p.get_package_num("b").unwrap();
    assert_eq!(p.installed_debvers[a].as_ref().unwrap().to_string(), "1.2-1");
    assert_eq!(p.installed_debvers[b].as_ref().unwrap().to_string(), "2:0.1");
    assert!(p.parse_installed(&lines(&["Package: c", "Version: x:1"])).is_err());
}

#[test]
fn package_index() {
    let mut p = Packages::new();
    p.parse_packages(&lines(&[
        "Package: app",
        "Version: 1.0",
        "Depends: lib (>= 2.0) | other, tool",
        "MD5sum: 0123abcd",
        "",
        "Package: lib",
        "Version: 2.5",
    ]))
    .unwrap();
    let app = p.get_package_num("app").unwrap();
    let lib = p.get_package_num("lib").unwrap();
    assert_eq!(p.md5sums[app], Some("0123abcd".to_string()));
    assert_eq!(p.available_debvers[lib].as_ref().unwrap().to_string(), "2.5");
    let deps = p.dependencies[app].as_ref().unwrap();
    assert_eq!(deps.len(), 2);
    assert_eq!(deps[0].len(), 2);
    assert_eq!(deps[0][0].package_num, lib);
    assert_eq!(deps[1][0].package_num, p.get_package_num("tool").unwrap());
    assert_eq!(p.transitive_dep_solution("app").len(), 2);
}
