use resolvd::addr::{IpAddr, Ipv4Addr};
use resolvd::cache::{Cache, CacheKey, Entry, MAX_ENTRIES};
use resolvd::dns::{Name, RData, Record};
use resolvd::protocol::Outcome;
use resolvd::time::SECOND;

fn n(s: &str) -> Name {
    Name::parse(s).unwrap()
}

fn entry_of(records: Vec<Record>, expires: u64) -> Entry {
    Entry { outcome: Outcome::Found, records, rcode: 0, server: IpAddr::V4(Ipv4Addr::new(10, 0, 0, 1)), stored: 0, expires }
}

#[test]
fn what_is_inserted_is_found_and_replaces_what_was() {
    let mut c = Cache::new();
    let k = CacheKey::new(&n("a"), 1, "lan");
    c.insert(k.clone(), entry_of(vec![], 10 * SECOND));
    c.insert(k.clone(), entry_of(vec![], 20 * SECOND));
    assert_eq!(c.len(), 1);
    assert_eq!(c.get(&k, 15 * SECOND).unwrap().expires, 20 * SECOND);
}

#[test]
fn keys_differ_by_name_type_and_scope() {
    let mut c = Cache::new();
    for (name, t, scope) in [("a", 1, "lan"), ("b", 1, "lan"), ("a", 2, "lan"), ("a", 1, "vpn")] {
        c.insert(CacheKey::new(&n(name), t, scope), entry_of(vec![], 10 * SECOND));
    }
    assert_eq!(c.len(), 4);
    c.flush_scope("lan");
    assert_eq!(c.len(), 1);
    assert!(c.get(&CacheKey::new(&n("a"), 1, "vpn"), 0).is_some());
    c.clear();
    assert_eq!(c.len(), 0);
}

#[test]
fn a_full_cache_loses_the_soonest_to_expire() {
    let mut c = Cache::new();
    for i in 0..MAX_ENTRIES as u64 {
        let expires = if i == 77 { 50 } else { 100 + i };
        c.insert(CacheKey::new(&n(&format!("n{i}.example")), 1, "lan"), entry_of(vec![], expires * SECOND));
    }
    c.insert(CacheKey::new(&n("new.example"), 1, "lan"), entry_of(vec![], 20_000 * SECOND));
    assert_eq!(c.len(), MAX_ENTRIES);
    assert!(c.get(&CacheKey::new(&n("n77.example"), 1, "lan"), 0).is_none());
    assert!(c.get(&CacheKey::new(&n("n0.example"), 1, "lan"), 0).is_some());
    assert!(c.get(&CacheKey::new(&n("new.example"), 1, "lan"), 0).is_some());
    c.insert(CacheKey::new(&n("N3.example"), 1, "lan"), entry_of(vec![], 9 * SECOND));
    assert_eq!(c.len(), MAX_ENTRIES);
}

#[test]
fn cached_ttls_count_down() {
    let mut c = Cache::new();
    let k = CacheKey::new(&n("a"), 1, "lan");
    let records = vec![
        Record::new(n("a"), 300, RData::A(Ipv4Addr::new(1, 1, 1, 1))),
        Record::new(n("a"), 20, RData::A(Ipv4Addr::new(1, 1, 1, 2))),
    ];
    c.insert(k.clone(), entry_of(records, 60 * SECOND));
    let e = c.get(&k, 10 * SECOND).unwrap();
    assert_eq!(e.records[0].ttl, 290);
    assert_eq!(e.records[1].ttl, 10);
    let e = c.get(&k, 0).unwrap();
    assert_eq!((e.records[0].ttl, e.records[1].ttl), (300, 20));
    let e = c.get(&k, 59 * SECOND + 1).unwrap();
    assert_eq!((e.records[0].ttl, e.records[1].ttl), (241, 0));
    assert_eq!(e.records[0].rdata, RData::A(Ipv4Addr::new(1, 1, 1, 1)));
    assert!(c.get(&k, 60 * SECOND).is_none());
}
