use dns_resolver::cache::{DnsCache, DnsCacheEntry};
use dns_resolver::packet::DnsPacket;
use dns_resolver::query_type::QueryType;
use dns_resolver::question::DnsQuestion;
use dns_resolver::record::DnsRecord;
use dns_resolver::sync_cache::ThreadSafeDnsCache;

fn create_test_packet() -> DnsPacket {
    let mut packet = DnsPacket::new();
    packet.questions.push(DnsQuestion::new("google.com".to_string(), QueryType::A));
    packet
}

fn create_test_entry(ttl: u32, now: u64) -> DnsCacheEntry {
    let packet = create_test_packet();
    DnsCacheEntry::from_packet(&packet, ttl, now).unwrap()
}

const NOW: u64 = 1_700_000_000;

#[test]
fn test_create_entry() {
    let ttl = 60;
    let entry = create_test_entry(ttl, NOW);

    assert_eq!(entry.response.len(), 512);
    assert_eq!(entry.expiry, NOW + ttl as u64);
}

#[test]
fn test_insert_and_get() {
    let mut cache = DnsCache::new(2);
    let ttl = 60;
    let entry = create_test_entry(ttl, NOW);

    cache.insert("example.com".to_string(), entry.clone()).unwrap();

    let cached_entry = cache.get("example.com", NOW).unwrap();
    assert_eq!(cached_entry, &entry);
}

#[test]
fn test_expired_entry() {
    let mut cache = DnsCache::new(2);
    let ttl = 1; // 1 second TTL for quick expiry
    let entry = create_test_entry(ttl, NOW);

    cache.insert("example.com".to_string(), entry.clone()).unwrap();

    // two seconds later the entry has expired
    assert!(cache.get("example.com", NOW + 2).is_none());
    // and the key is gone from both the entries and the order
    assert!(cache.items().iter().all(|p| p.0 != "example.com"));
}

#[test]
fn test_update_entry() {
    let mut cache = DnsCache::new(2);
    let ttl = 60;
    let entry = create_test_entry(ttl, NOW);
    let mut packet = create_test_packet();
    packet.answers.push(DnsRecord::A {
        domain: "example.com".to_string(),
        addr: 0x7f000001, // 127.0.0.1
        ttl,
    });

    cache.insert("example.com".to_string(), entry.clone()).unwrap();
    cache.update("example.com", &packet, ttl, NOW).unwrap();

    let cached_entry = cache.get("example.com", NOW).unwrap();
    assert_eq!(cached_entry.response[..], packet.write_to_bytes().unwrap()[..]);
}

#[test]
fn test_eviction_policy() {
    let mut cache = DnsCache::new(2);
    let ttl = 60;
    let entry1 = create_test_entry(ttl, NOW);
    let entry2 = create_test_entry(ttl, NOW);
    let entry3 = create_test_entry(ttl, NOW);

    cache.insert("example1.com".to_string(), entry1).unwrap();
    cache.insert("example2.com".to_string(), entry2).unwrap();
    cache.insert("example3.com".to_string(), entry3).unwrap(); // This should evict the oldest entry (example1.com)

    assert!(cache.get("example1.com", NOW).is_none());
    assert!(cache.get("example2.com", NOW).is_some());
    assert!(cache.get("example3.com", NOW).is_some());
}

#[test]
fn test_insert_existing_key_is_noop() {
    let mut cache = DnsCache::new(2);
    let entry1 = create_test_entry(60, NOW);
    let entry2 = create_test_entry(120, NOW + 5);

    cache.insert("example.com".to_string(), entry1.clone()).unwrap();
    cache.insert("example.com".to_string(), entry2).unwrap();

    // neither the entry nor its expiry changed, and the key is held once
    let cached = cache.get("example.com", NOW).unwrap();
    assert_eq!(cached, &entry1);
    assert_eq!(cache.len(), 1);
}

#[test]
fn test_fifo_eviction_keeps_newest() {
    let mut cache = DnsCache::new(2);
    for key in ["k1", "k2", "k3", "k4", "k5"] {
        cache.insert(key.to_string(), create_test_entry(60, NOW)).unwrap();
    }
    let keys: Vec<String> = cache.items().iter().map(|p| p.0.clone()).collect();
    assert_eq!(keys, vec!["k4".to_string(), "k5".to_string()]);
}

#[test]
fn test_expired_keys_listing() {
    let mut cache = DnsCache::new(4);
    cache.insert("old.com".to_string(), create_test_entry(1, NOW)).unwrap();
    cache.insert("new.com".to_string(), create_test_entry(600, NOW)).unwrap();

    let expired = cache.expired_keys(NOW + 10);
    assert_eq!(expired, vec!["old.com".to_string()]);
}

#[test]
fn test_entry_packet_round_trip() {
    let mut packet = create_test_packet();
    packet.header.questions = 1;
    packet.header.id = 4242;
    let entry = DnsCacheEntry::from_packet(&packet, 60, NOW).unwrap();
    let decoded = entry.get_packet().unwrap();
    assert_eq!(decoded.header.id, 4242);
    assert_eq!(decoded.questions, packet.questions);
}

#[test]
fn test_from_snapshot_drops_malformed_and_caps() {
    let good = create_test_entry(60, NOW);
    let bad = DnsCacheEntry {
        response: vec![0u8; 100], // wrong frame size: dropped on load
        expiry: NOW + 60,
        ttl: 60,
    };
    let items = vec![
        ("a.com".to_string(), good.clone()),
        ("broken.com".to_string(), bad),
        ("b.com".to_string(), good.clone()),
        ("c.com".to_string(), good.clone()),
    ];
    let mut cache = DnsCache::from_snapshot(items, 2);
    assert_eq!(cache.max_size(), 2);
    assert!(cache.get("a.com", NOW).is_none());
    assert!(cache.get("broken.com", NOW).is_none());
    assert!(cache.get("b.com", NOW).is_some());
    assert!(cache.get("c.com", NOW).is_some());
}

#[test]
fn test_thread_safe_cache_operations() {
    let cache = ThreadSafeDnsCache::new(DnsCache::new(2));
    let entry = create_test_entry(60, NOW);

    cache.insert("example.com".to_string(), entry.clone()).unwrap();
    let got = cache.get("example.com", NOW).unwrap();
    assert_eq!(got.response, entry.response);
    assert_eq!(got.expiry, entry.expiry);
    assert!(cache.get("missing.com", NOW).is_none());
    assert!(cache.get("example.com", NOW + 120).is_none());
}
