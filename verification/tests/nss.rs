use resolvd::nss::{is_localhost, local_addresses};
use resolvd::protocol::Family;

#[test]
fn localhost_is_answered_without_a_daemon() {
    assert!(is_localhost("localhost"));
    assert!(is_localhost("LOCALHOST."));
    assert!(is_localhost("foo.localhost"));
    assert!(!is_localhost("localhost.example"));
    let a = local_addresses(Family::V4);
    assert_eq!(a.addresses.len(), 1);
    assert!(a.addresses[0].address.is_ipv4());
}
