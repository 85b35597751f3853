use rpkg::async_fns::{VerificationOutcome, DEFAULT_SERVER};
use rpkg::packages::Packages;

fn catalog() -> Packages {
    let mut p = Packages::new();
    p.record_available("foo", "1.0").unwrap();
    p.record_checksum("foo", "abc123");
    p
}

#[test]
fn queued_url_is_encoded() {
    let mut p = catalog();
    assert_eq!(p.async_state.server, DEFAULT_SERVER);
    p.set_server("localhost:4590");
    p.enq_verify_with_version("foo bar", "1:2.0+b~1");
    let q = &p.async_state.pending[0];
    assert_eq!(q.url, "http://localhost:4590/rest/v1/checksums/foo%20bar/1%3A2.0%2Bb~1");
    assert_eq!(q.key, 0);
    assert_eq!(q.package_name, "foo bar");
    assert_eq!(q.version, "1:2.0+b~1");
}

#[test]
fn matching_checksum_reported() {
    let mut p = catalog();
    assert!(p.enq_verify("foo"));
    assert_eq!(p.async_state.pending[0].version, "1.0");
    match p.verification_outcome(0, 200, "abc123") {
        Some(VerificationOutcome::Checked { package_name, matches }) => {
            assert_eq!(package_name, "foo");
            assert!(matches);
        }
        _ => panic!("expected a checked outcome"),
    }
    match p.verification_outcome(0, 200, "zzz") {
        Some(VerificationOutcome::Checked { matches, .. }) => assert!(!matches),
        _ => panic!("expected a checked outcome"),
    }
}

#[test]
fn error_status_reported_without_match() {
    let mut p = catalog();
    p.enq_verify_with_version("foo", "1.0");
    match p.verification_outcome(0, 404, "") {
        Some(VerificationOutcome::Failed { status, package_name, version }) => {
            assert_eq!(status, 404);
            assert_eq!(package_name, "foo");
            assert_eq!(version, "1.0");
        }
        _ => panic!("expected a failed outcome"),
    }
}

#[test]
fn unknown_package_not_queued() {
    let mut p = catalog();
    assert!(!p.enq_verify("nothing"));
    assert!(p.async_state.pending.is_empty());
    assert!(p.verification_outcome(0, 200, "abc123").is_none());
}

#[test]
fn batch_cleared_after_finish() {
    let mut p = catalog();
    p.enq_verify_with_version("foo", "1.0");
    p.enq_verify_with_version("bar", "2.0");
    assert_eq!(p.async_state.pending[1].key, 1);
    assert!(p.verification_outcome(1, 200, "x").is_none());
    p.finish_batch();
    assert!(p.async_state.pending.is_empty());
}
