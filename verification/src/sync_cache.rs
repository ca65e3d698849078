//! The cache behind a verified lock: every operation takes the lock for
//! its whole duration, so all reads and writes are totally ordered.

use vstd::prelude::*;
use vstd::rwlock::RwLock;

use crate::byte_buffer::{DnsError, FRAME_SIZE};
use crate::cache::{DnsCache, DnsCacheEntry};
use crate::packet::{packet_bytes, DnsPacket};

verus! {

/// A `DnsCache` guarded by a lock whose invariant is the cache invariant:
/// whoever takes the lock receives a well-formed cache and must put a
/// well-formed cache back.
pub struct ThreadSafeDnsCache {
    cache: RwLock<DnsCache, spec_fn(DnsCache) -> bool>,
}

impl ThreadSafeDnsCache {
    /// The lock carries exactly the cache invariant.
    pub closed spec fn wf(&self) -> bool {
        self.cache.pred() == (|c: DnsCache| c.wf())
    }

    /// Wrap an already well-formed cache.
    pub fn new(cache: DnsCache) -> (r: ThreadSafeDnsCache)
        requires
            cache.wf(),
        ensures
            r.wf(),
    {
        ThreadSafeDnsCache { cache: RwLock::new(cache, Ghost(|c: DnsCache| c.wf())) }
    }

    /// Store `entry` under `key`; a present key is left as it was.
    pub fn insert(&self, key: String, entry: DnsCacheEntry) -> (r: Result<(), DnsError>)
        requires
            self.wf(),
            entry.wf(),
        ensures
            r is Ok,
    {
        let (mut cache, handle) = self.cache.acquire_write();
        let res = cache.insert(key, entry);
        handle.release_write(cache);
        res
    }

    /// Look `key` up at wall time `now`, removing it if it has expired;
    /// a live entry comes back as a copy.
    pub fn get(&self, key: &str, now: u64) -> (r: Option<DnsCacheEntry>)
        requires
            self.wf(),
        ensures
            r matches Some(e) ==> e.wf() && e.expiry > now,
    {
        let (mut cache, handle) = self.cache.acquire_write();
        let res = match cache.get(key, now) {
            Some(entry) => Some(entry.duplicate()),
            None => None,
        };
        handle.release_write(cache);
        res
    }

    /// Re-encode `packet` into the entry under `key`, restarting its
    /// expiry at `now + ttl`; a missing key changes nothing.
    pub fn update(&self, key: &str, packet: &DnsPacket, ttl: u32, now: u64) -> (r: Result<
        (),
        DnsError,
    >)
        requires
            self.wf(),
            packet.wf(),
            now + ttl <= u64::MAX,
        ensures
            packet_bytes(packet@).len() <= FRAME_SIZE ==> r is Ok,
    {
        let (mut cache, handle) = self.cache.acquire_write();
        let res = cache.update(key, packet, ttl, now);
        handle.release_write(cache);
        res
    }

    /// The keys whose entries have expired by `now`, oldest first.
    pub fn expired_keys(&self, now: u64) -> (r: Vec<String>)
        requires
            self.wf(),
    {
        let (cache, handle) = self.cache.acquire_write();
        let res = cache.expired_keys(now);
        handle.release_write(cache);
        res
    }

    /// A copy of the stored pairs, oldest first, for the snapshot writer.
    pub fn snapshot_items(&self) -> (r: Vec<(String, DnsCacheEntry)>)
        requires
            self.wf(),
        ensures
            forall|i: int| 0 <= i < r@.len() ==> (#[trigger] r@[i]).1.wf(),
    {
        let (cache, handle) = self.cache.acquire_write();
        let items = cache.items();
        let mut out: Vec<(String, DnsCacheEntry)> = Vec::new();
        let mut i: usize = 0;
        while i < items.len()
            invariant
                cache.wf(),
                items@ == cache.entries_seq(),
                i <= items@.len(),
                forall|j: int| 0 <= j < out@.len() ==> (#[trigger] out@[j]).1.wf(),
            decreases items@.len() - i,
        {
            let key = items[i].0.clone();
            let entry = items[i].1.duplicate();
            out.push((key, entry));
            i = i + 1;
        }
        handle.release_write(cache);
        out
    }
}

} // verus!
