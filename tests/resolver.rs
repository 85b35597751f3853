use rpkg::debversion::VersionRelation;
use rpkg::packages::Packages;
use rpkg::solvers::PlanError;

type Alt = (String, Option<(VersionRelation, String)>);

fn alt(name: &str) -> Alt {
    (name.to_string(), None)
}

fn alt_v(name: &str, op: VersionRelation, v: &str) -> Alt {
    (name.to_string(), Some((op, v.to_string())))
}

fn sorted(mut v: Vec<usize>) -> Vec<usize> {
    v.sort();
    v
}

fn num(p: &Packages, name: &str) -> usize {
    p.get_package_num(name).unwrap()
}

#[test]
fn unconstrained_dependency_satisfied_by_any_installed_alternative() {
    let mut p = Packages::new();
    p.record_dependencies("app", &vec![vec![alt("a"), alt("b")]]).unwrap();
    let dep = &p.dependencies[num(&p, "app")].as_ref().unwrap()[0];
    assert_eq!(p.dep_is_satisfied_2(dep), None);
    p.record_installed("b", "0.1").unwrap();
    let dep = &p.dependencies[num(&p, "app")].as_ref().unwrap()[0];
    assert_eq!(p.dep_is_satisfied_2(dep), Some(num(&p, "b")));
    assert_eq!(p.dep_is_satisfied(dep), Some("+ b satisfied by installed version 0.1".to_string()));
}

#[test]
fn first_satisfying_alternative_is_returned() {
    let mut p = Packages::new();
    p.record_installed("a", "1.0").unwrap();
    p.record_installed("b", "3.0").unwrap();
    p.record_installed("c", "3.0").unwrap();
    p.record_dependencies(
        "app",
        &vec![vec![
            alt_v("a", VersionRelation::GreaterOrEqual, "2.0"),
            alt_v("b", VersionRelation::GreaterOrEqual, "2.0"),
            alt("c"),
        ]],
    )
    .unwrap();
    let dep = &p.dependencies[num(&p, "app")].as_ref().unwrap()[0];
    // a is installed at a wrong version: evaluation goes on to b
    assert_eq!(p.dep_is_satisfied_2(dep), Some(num(&p, "b")));
}

#[test]
fn wrong_version_candidates_listed_when_unsatisfied() {
    let mut p = Packages::new();
    p.record_installed("a", "1.0").unwrap();
    p.record_installed("b", "1.5").unwrap();
    p.record_dependencies(
        "app",
        &vec![vec![
            alt_v("a", VersionRelation::GreaterOrEqual, "2.0"),
            alt_v("x", VersionRelation::GreaterOrEqual, "2.0"),
            alt_v("b", VersionRelation::GreaterOrEqual, "2.0"),
        ]],
    )
    .unwrap();
    let dep = &p.dependencies[num(&p, "app")].as_ref().unwrap()[0];
    assert_eq!(p.dep_is_satisfied_2(dep), None);
    let wrong = p.dep_satisfied_by_wrong_version(dep);
    let ids: Vec<usize> = wrong.iter().map(|w| w.0).collect();
    assert_eq!(ids, vec![num(&p, "a"), num(&p, "b")]);
    assert_eq!(wrong[1].1.to_string(), "1.5");
}

#[test]
fn transitive_solution_terminates_on_cycle() {
    let mut p = Packages::new();
    p.record_dependencies("a", &vec![vec![alt("b")]]).unwrap();
    p.record_dependencies("b", &vec![vec![alt("a"), alt("c")]]).unwrap();
    let first = sorted(p.transitive_dep_solution("a"));
    let second = sorted(p.transitive_dep_solution("a"));
    assert_eq!(first, sorted(vec![num(&p, "a"), num(&p, "b")]));
    assert_eq!(first, second);
}

#[test]
fn transitive_solution_follows_first_alternatives_only() {
    let mut p = Packages::new();
    p.record_dependencies("top", &vec![vec![alt("a"), alt("z")], vec![alt("b")]]).unwrap();
    p.record_dependencies("a", &vec![vec![alt("c")]]).unwrap();
    p.record_installed("a", "1.0").unwrap();
    let r = sorted(p.transitive_dep_solution("top"));
    assert_eq!(r, sorted(vec![num(&p, "a"), num(&p, "b"), num(&p, "c")]));
    assert!(p.transitive_dep_solution("nope").is_empty());
}

#[test]
fn plan_skips_satisfied_single_alternative() {
    let mut p = Packages::new();
    p.record_installed("a", "1.0").unwrap();
    p.record_available("a", "1.0").unwrap();
    p.record_available("b", "1.0").unwrap();
    p.record_dependencies("app", &vec![vec![alt("a")], vec![alt("b")]]).unwrap();
    assert_eq!(p.compute_how_to_install("app"), Ok(vec![num(&p, "b")]));
}

#[test]
fn plan_upgrades_installed_wrong_version() {
    let mut p = Packages::new();
    p.record_installed("a", "1.0").unwrap();
    p.record_available("a", "2.0").unwrap();
    p.record_available("b", "9.0").unwrap();
    p.record_dependencies(
        "app",
        &vec![vec![
            alt_v("a", VersionRelation::GreaterOrEqual, "2.0"),
            alt_v("b", VersionRelation::GreaterOrEqual, "2.0"),
        ]],
    )
    .unwrap();
    assert_eq!(p.compute_how_to_install("app"), Ok(vec![num(&p, "a")]));
}

#[test]
fn plan_picks_highest_available_when_nothing_installed() {
    let mut p = Packages::new();
    p.record_available("x", "2.5").unwrap();
    p.record_available("y", "3.0").unwrap();
    p.record_dependencies(
        "app",
        &vec![vec![
            alt_v("x", VersionRelation::GreaterOrEqual, "2.0"),
            alt_v("y", VersionRelation::GreaterOrEqual, "2.0"),
        ]],
    )
    .unwrap();
    assert_eq!(p.compute_how_to_install("app"), Ok(vec![num(&p, "y")]));
}

#[test]
fn plan_picks_highest_available_among_wrong_versions() {
    let mut p = Packages::new();
    p.record_installed("a", "1.0").unwrap();
    p.record_installed("b", "1.5").unwrap();
    p.record_available("a", "2.0").unwrap();
    p.record_available("b", "2.2").unwrap();
    p.record_dependencies(
        "app",
        &vec![vec![
            alt_v("a", VersionRelation::GreaterOrEqual, "2.0"),
            alt_v("b", VersionRelation::GreaterOrEqual, "2.0"),
        ]],
    )
    .unwrap();
    assert_eq!(p.compute_how_to_install("app"), Ok(vec![num(&p, "b")]));
}

#[test]
fn plan_follows_chosen_packages_dependencies() {
    let mut p = Packages::new();
    p.record_available("a", "1.0").unwrap();
    p.record_available("b", "1.0").unwrap();
    p.record_available("c", "1.0").unwrap();
    p.record_dependencies("app", &vec![vec![alt("a")]]).unwrap();
    p.record_dependencies("a", &vec![vec![alt("b")], vec![alt("app")]]).unwrap();
    p.record_dependencies("b", &vec![vec![alt("a")]]).unwrap();
    p.record_available("app", "1.0").unwrap();
    let plan = sorted(p.compute_how_to_install("app").unwrap());
    assert_eq!(plan, sorted(vec![num(&p, "a"), num(&p, "b"), num(&p, "app")]));
    assert_eq!(p.compute_how_to_install("unknown"), Ok(vec![]));
}

#[test]
fn plan_reports_missing_available_version() {
    let mut p = Packages::new();
    p.record_available("x", "1.0").unwrap();
    p.record_dependencies("app", &vec![vec![alt("x"), alt("virtual")]]).unwrap();
    assert_eq!(p.compute_how_to_install("app"), Err(PlanError::MissingAvailable(num(&p, "virtual"))));
}

#[test]
fn bad_dependency_version_refused() {
    let mut p = Packages::new();
    let r = p.record_dependencies("app", &vec![vec![alt_v("a", VersionRelation::Equal, ":x")]]);
    assert!(r.is_err());
    assert!(p.record_installed("a", "").is_err());
}

#[test]
fn dependency_report() {
    let mut p = Packages::new();
    p.record_installed("a", "1.2").unwrap();
    p.record_dependencies("app", &vec![vec![alt("a")], vec![alt("b")]]).unwrap();
    let r = p.deps_available("app").unwrap();
    assert_eq!(r, vec![Some("+ a satisfied by installed version 1.2".to_string()), None]);
    assert!(p.deps_available("nope").is_none());
    assert_eq!(p.deps_available("a"), Some(vec![]));
}

#[test]
fn interning_is_stable() {
    let mut p = Packages::new();
    let a = p.get_package_num_inserting("a");
    let b = p.get_package_num_inserting("b");
    assert_eq!(p.get_package_num_inserting("a"), a);
    assert_ne!(a, b);
    assert_eq!(p.get_package_name(b), "b");
    assert!(p.package_exists("a"));
    assert!(!p.package_exists("c"));
}

#[test]
fn decision_per_dependency() {
    let mut p = Packages::new();
    p.record_installed("a", "1.0").unwrap();
    p.record_available("a", "1.0").unwrap();
    p.record_available("b", "0.5").unwrap();
    p.record_dependencies("app", &vec![vec![alt("a")], vec![alt("b")], vec![alt("gone")], vec![]]).unwrap();
    let deps = p.dependencies[num(&p, "app")].as_ref().unwrap();
    assert_eq!(p.handle_dependency(&deps[0]), Ok(None));
    assert_eq!(p.handle_dependency(&deps[1]), Ok(Some(num(&p, "b"))));
    // a single alternative needs no version comparison
    assert_eq!(p.handle_dependency(&deps[2]), Ok(Some(num(&p, "gone"))));
    assert_eq!(p.handle_dependency(&deps[3]), Ok(None));
    assert_eq!(p.get_available_debver("b").unwrap().to_string(), "0.5");
    assert!(p.get_available_debver("gone").is_none());
}
