use resolvd::addr::IpAddr;
use resolvd::cache::{Cache, CacheKey, Entry, MAX_ENTRIES};
use resolvd::dns::Name;
use resolvd::protocol::Outcome;
use resolvd::time::{Instant, SECOND};

fn entry(expires: Instant) -> Entry {
    Entry { outcome: Outcome::Found, records: vec![], rcode: 0, server: IpAddr::parse("10.0.0.1").unwrap(), stored: 5 * SECOND, expires }
}

#[test]
fn entries_expire_and_scopes_flush() {
    let mut c = Cache::new();
    let now: Instant = 5 * SECOND;
    let k = CacheKey::new(&Name::parse("A.example").unwrap(), 1, "lan");
    c.insert(k.clone(), entry(now + (10) * SECOND));
    assert!(c.get(&CacheKey::new(&Name::parse("a.EXAMPLE").unwrap(), 1, "lan"), now).is_some());
    assert!(c.get(&k, now + (10) * SECOND).is_none());
    assert!(c.get(&CacheKey::new(&Name::parse("a.example").unwrap(), 1, "vpn"), now).is_none());
    c.flush_scope("lan");
    assert_eq!(c.len(), 0);
}

#[test]
fn the_cache_is_bounded() {
    let mut c = Cache::new();
    let now: Instant = 5 * SECOND;
    for i in 0..MAX_ENTRIES + 10 {
        let k = CacheKey::new(&Name::parse(&format!("n{i}.example")).unwrap(), 1, "lan");
        c.insert(k, entry(now + (100 + i as u64) * SECOND));
    }
    assert!(c.len() <= MAX_ENTRIES);
}
