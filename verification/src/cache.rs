//! The bounded response cache: fingerprint-keyed entries with expiry and
//! FIFO eviction in insertion order.

use vstd::prelude::*;

use crate::byte_buffer::{ByteBuffer, DnsError, FRAME_SIZE};
use crate::packet::{decode_packet_at, packet_bytes, DnsPacket, PacketDecode};

verus! {

/// One cached response: the full 512-byte reply frame, the absolute expiry
/// time in unix seconds, and the time to live it was stored with.
#[derive(Clone, Debug, PartialEq, Eq)]
pub struct DnsCacheEntry {
    pub response: Vec<u8>,
    pub expiry: u64,
    pub ttl: u32,
}

impl DnsCacheEntry {
    /// The stored frame always spans exactly `FRAME_SIZE` bytes.
    pub open spec fn wf(&self) -> bool {
        self.response@.len() == FRAME_SIZE
    }

    /// An entry from an already-encoded frame.
    pub fn new(response: Vec<u8>, expiry: u64, ttl: u64) -> (r: DnsCacheEntry)
        requires
            response@.len() == FRAME_SIZE,
        ensures
            r.response@ == response@,
            r.expiry == expiry,
            r.ttl == ttl as u32,
            r.wf(),
    {
        DnsCacheEntry { response, expiry, ttl: #[verifier::truncate] (ttl as u32) }
    }

    /// An entry holding `packet`'s encoding, expiring `ttl` seconds after
    /// `now`.
    pub fn from_packet(packet: &DnsPacket, ttl: u32, now: u64) -> (r: Result<
        DnsCacheEntry,
        DnsError,
    >)
        requires
            packet.wf(),
            now + ttl <= u64::MAX,
        ensures
            packet_bytes(packet@).len() <= FRAME_SIZE ==> {
                &&& r is Ok
                &&& r->Ok_0.response@ =~= packet_bytes(packet@) + Seq::new(
                    (FRAME_SIZE - packet_bytes(packet@).len()) as nat,
                    |i: int| 0u8,
                )
                &&& r->Ok_0.expiry == now + ttl
                &&& r->Ok_0.ttl == ttl
                &&& r->Ok_0.wf()
            },
            packet_bytes(packet@).len() > FRAME_SIZE ==> r == Err::<DnsCacheEntry, DnsError>(
                DnsError::BufferOverflow,
            ),
    {
        let response = packet.write_to_bytes()?;
        Ok(DnsCacheEntry { response, expiry: now + (ttl as u64), ttl })
    }

    /// Whether the entry has expired by wall time `now`.
    pub fn is_expired(&self, now: u64) -> (r: bool)
        ensures
            r == (now >= self.expiry),
    {
        now >= self.expiry
    }

    /// Replace the stored frame with `packet`'s encoding and restart the
    /// expiry clock at `now + ttl`.
    pub fn update(&mut self, packet: &DnsPacket, ttl: u32, now: u64) -> (r: Result<(), DnsError>)
        requires
            packet.wf(),
            now + ttl <= u64::MAX,
        ensures
            packet_bytes(packet@).len() <= FRAME_SIZE ==> {
                &&& r is Ok
                &&& final(self).response@ =~= packet_bytes(packet@) + Seq::new(
                    (FRAME_SIZE - packet_bytes(packet@).len()) as nat,
                    |i: int| 0u8,
                )
                &&& final(self).expiry == now + ttl
                &&& final(self).ttl == ttl
                &&& final(self).wf()
            },
            packet_bytes(packet@).len() > FRAME_SIZE ==> r == Err::<(), DnsError>(
                DnsError::BufferOverflow,
            ) && *final(self) == *old(self),
    {
        let response = packet.write_to_bytes()?;
        self.response = response;
        self.expiry = now + (ttl as u64);
        self.ttl = ttl;
        Ok(())
    }

    /// Decode the stored frame back into a packet.
    pub fn get_packet(&self) -> (r: Result<DnsPacket, DnsError>)
        requires
            self.wf(),
        ensures
            match decode_packet_at(self.response@, 0) {
                PacketDecode::Done { packet, end } => {
                    &&& r is Ok
                    &&& r->Ok_0@ == packet
                    &&& r->Ok_0.wf()
                },
                PacketDecode::Fail { err } => r == Err::<DnsPacket, DnsError>(err),
            },
    {
        let mut buffer = ByteBuffer::from_buffer(self.response.as_slice());
        proof {
            assert(buffer.buffer@ =~= self.response@);
        }
        DnsPacket::from_buffer(&mut buffer)
    }
}

// ------------------------------------------------------------------
// The bounded cache
// ------------------------------------------------------------------

/// The entry stored under `k` in an association run, scanning from the
/// front.
pub open spec fn lookup_entry(s: Seq<(String, DnsCacheEntry)>, k: Seq<char>) -> Option<
    DnsCacheEntry,
>
    decreases s.len(),
{
    if s.len() == 0 {
        None
    } else if s[0].0@ == k {
        Some(s[0].1)
    } else {
        lookup_entry(s.drop_first(), k)
    }
}

/// The run with the first pair keyed `k` removed.
pub open spec fn remove_key(s: Seq<(String, DnsCacheEntry)>, k: Seq<char>) -> Seq<
    (String, DnsCacheEntry),
>
    decreases s.len(),
{
    if s.len() == 0 {
        s
    } else if s[0].0@ == k {
        s.drop_first()
    } else {
        seq![s[0]] + remove_key(s.drop_first(), k)
    }
}

/// How one insertion reshapes the key order: a present key changes
/// nothing; a full cache drops its oldest key; the new key joins at the
/// tail.
pub open spec fn fifo_insert(order: Seq<Seq<char>>, k: Seq<char>, max: nat) -> Seq<Seq<char>> {
    if order.contains(k) {
        order
    } else if order.len() >= max {
        order.drop_first().push(k)
    } else {
        order.push(k)
    }
}

/// A bounded map from fingerprint keys to cached entries, held in
/// insertion order; the head of the order is the oldest key.
#[derive(Clone, Debug, PartialEq, Eq)]
pub struct DnsCache {
    pub entries: Vec<(String, DnsCacheEntry)>,
    pub max_size: usize,
}

impl DnsCache {
    /// The pairs the cache holds, oldest first.
    pub open spec fn entries_seq(&self) -> Seq<(String, DnsCacheEntry)> {
        self.entries@
    }

    /// The keys the cache holds, oldest first.
    pub open spec fn order(&self) -> Seq<Seq<char>> {
        self.entries@.map_values(|p: (String, DnsCacheEntry)| p.0@)
    }

    /// The capacity the cache was built with.
    pub open spec fn spec_max_size(&self) -> nat {
        self.max_size as nat
    }

    /// Whether some entry is stored under `k`.
    pub open spec fn spec_contains_key(&self, k: Seq<char>) -> bool {
        exists|i: int| 0 <= i < self.entries@.len() && (#[trigger] self.entries@[i]).0@ == k
    }

    /// The cache as a mapping from keys to entries.
    pub open spec fn entry_map(&self) -> Map<Seq<char>, DnsCacheEntry> {
        Map::new(
            |k: Seq<char>| self.spec_contains_key(k),
            |k: Seq<char>| lookup_entry(self.entries@, k)->Some_0,
        )
    }

    /// The cache invariant: a positive capacity that the size never
    /// exceeds, every key held at most once, and every entry well formed.
    pub open spec fn wf(&self) -> bool {
        &&& 1 <= self.max_size
        &&& self.entries@.len() <= self.max_size
        &&& forall|i: int, j: int|
            0 <= i < j < self.entries@.len() ==> (#[trigger] self.entries@[i]).0@ != (
            #[trigger] self.entries@[j]).0@
        &&& forall|i: int| 0 <= i < self.entries@.len() ==> (#[trigger] self.entries@[i]).1.wf()
    }

    /// An empty cache with the given positive capacity.
    pub fn new(max_size: usize) -> (r: DnsCache)
        requires
            max_size >= 1,
        ensures
            r.wf(),
            r.entries_seq().len() == 0,
            r.spec_max_size() == max_size,
    {
        DnsCache { entries: Vec::new(), max_size }
    }

    /// The number of entries held.
    pub fn len(&self) -> (r: usize)
        ensures
            r == self.entries_seq().len(),
    {
        self.entries.len()
    }

    /// The capacity the cache was built with.
    pub fn max_size(&self) -> (r: usize)
        ensures
            r == self.spec_max_size(),
    {
        self.max_size
    }

    /// Read-only access to the stored pairs, oldest first.
    pub fn items(&self) -> (r: &Vec<(String, DnsCacheEntry)>)
        ensures
            r@ == self.entries_seq(),
    {
        &self.entries
    }

    /// The index of the pair keyed `key`, with what the recursive lookup
    /// and removal yield on this run.
    fn find_key(&self, key: &str) -> (r: Option<usize>)
        ensures
            match r {
                Some(i) => {
                    &&& i < self.entries@.len()
                    &&& self.entries@[i as int].0@ == key@
                    &&& (forall|j: int| 0 <= j < i ==> (#[trigger] self.entries@[j]).0@ != key@)
                    &&& lookup_entry(self.entries@, key@) == Some(self.entries@[i as int].1)
                    &&& remove_key(self.entries@, key@) == self.entries@.remove(i as int)
                },
                None => {
                    &&& (forall|j: int|
                        0 <= j < self.entries@.len() ==> (#[trigger] self.entries@[j]).0@ != key@)
                    &&& lookup_entry(self.entries@, key@) is None
                    &&& remove_key(self.entries@, key@) == self.entries@
                },
            },
    {
        let key_string = key.to_owned();
        let ghost s = self.entries@;
        let mut i: usize = 0;
        proof {
            assert(s.skip(0) =~= s);
            assert(s.take(0) =~= Seq::<(String, DnsCacheEntry)>::empty());
        }
        while i < self.entries.len()
            invariant
                s == self.entries@,
                key_string@ == key@,
                i <= s.len(),
                forall|j: int| 0 <= j < i ==> (#[trigger] s[j]).0@ != key@,
                lookup_entry(s, key@) == lookup_entry(s.skip(i as int), key@),
                remove_key(s, key@) == s.take(i as int) + remove_key(s.skip(i as int), key@),
            decreases s.len() - i,
        {
            proof {
                assert(s.skip(i as int)[0] == s[i as int]);
                assert(s.skip(i as int).drop_first() =~= s.skip(i + 1));
            }
            if self.entries[i].0.eq(&key_string) {
                proof {
                    assert(remove_key(s, key@) =~= s.remove(i as int));
                }
                return Some(i);
            }
            proof {
                assert(s.take(i + 1) =~= s.take(i as int).push(s[i as int]));
                assert(s.take(i as int) + (seq![s[i as int]] + remove_key(s.skip(i + 1), key@))
                    =~= s.take(i + 1) + remove_key(s.skip(i + 1), key@));
            }
            i = i + 1;
        }
        proof {
            assert(s.skip(s.len() as int) =~= Seq::<(String, DnsCacheEntry)>::empty());
            assert(s.take(s.len() as int) =~= s);
            assert(s + Seq::<(String, DnsCacheEntry)>::empty() =~= s);
        }
        None
    }

    /// Store `entry` under `key`.  A key already present is left exactly
    /// as it was; a full cache first evicts its oldest entry.
    pub fn insert(&mut self, key: String, entry: DnsCacheEntry) -> (r: Result<(), DnsError>)
        requires
            old(self).wf(),
            entry.wf(),
        ensures
            final(self).wf(),
            final(self).spec_max_size() == old(self).spec_max_size(),
            r is Ok,
            old(self).spec_contains_key(key@) ==> final(self).entries_seq() == old(
                self,
            ).entries_seq(),
            !old(self).spec_contains_key(key@) && old(self).entries_seq().len() < old(
                self,
            ).spec_max_size() ==> final(self).entries_seq() == old(self).entries_seq().push(
                (key, entry),
            ),
            !old(self).spec_contains_key(key@) && old(self).entries_seq().len() == old(
                self,
            ).spec_max_size() ==> final(self).entries_seq() == old(
                self,
            ).entries_seq().drop_first().push((key, entry)),
            final(self).order() == fifo_insert(old(self).order(), key@, old(self).spec_max_size()),
    {
        let ghost s0 = self.entries@;
        match self.find_key(key.as_str()) {
            Some(_) => {
                proof {
                    assert(self.order().contains(key@)) by {
                        let i = choose|i: int|
                            0 <= i < self.entries@.len() && (#[trigger] self.entries@[i]).0@
                                == key@;
                        assert(self.order()[i] == key@);
                    }
                }
                return Ok(());
            },
            None => {},
        }
        if self.entries.len() >= self.max_size {
            let _ = self.entries.remove(0);
        }
        self.entries.push((key, entry));
        proof {
            let s1 = self.entries@;
            assert forall|i: int, j: int| 0 <= i < j < s1.len() implies (#[trigger] s1[i]).0@ != (
            #[trigger] s1[j]).0@ by {
                if s0.len() >= self.max_size {
                    if j < s1.len() - 1 {
                        assert(s1[i] == s0[i + 1] && s1[j] == s0[j + 1]);
                    } else {
                        assert(s1[i] == s0[i + 1]);
                    }
                } else {
                    if j < s1.len() - 1 {
                        assert(s1[i] == s0[i] && s1[j] == s0[j]);
                    } else {
                        assert(s1[i] == s0[i]);
                    }
                }
            }
            assert(!self.order().contains(key@) ==> !old(self).spec_contains_key(key@));
            if !old(self).spec_contains_key(key@) {
                assert(!old(self).order().contains(key@)) by {
                    if old(self).order().contains(key@) {
                        let i = choose|i: int|
                            0 <= i < old(self).order().len() && old(self).order()[i] == key@;
                        assert(s0[i].0@ == key@);
                    }
                }
                if s0.len() >= self.max_size {
                    assert(self.order() =~= old(self).order().drop_first().push(key@));
                } else {
                    assert(self.order() =~= old(self).order().push(key@));
                }
            }
        }
        Ok(())
    }

    /// Look `key` up at wall time `now`.  A present but expired entry is
    /// removed from the cache and not returned.
    pub fn get(&mut self, key: &str, now: u64) -> (r: Option<&DnsCacheEntry>)
        requires
            old(self).wf(),
        ensures
            final(self).wf(),
            final(self).spec_max_size() == old(self).spec_max_size(),
            match lookup_entry(old(self).entries_seq(), key@) {
                None => r is None && final(self).entries_seq() == old(self).entries_seq(),
                Some(e) => if now >= e.expiry {
                    &&& r is None
                    &&& final(self).entries_seq() == remove_key(old(self).entries_seq(), key@)
                    &&& !final(self).spec_contains_key(key@)
                    &&& !final(self).order().contains(key@)
                } else {
                    &&& r matches Some(er) && *er == e && er.wf()
                    &&& final(self).entries_seq() == old(self).entries_seq()
                },
            },
    {
        let ghost s0 = self.entries@;
        match self.find_key(key) {
            None => None,
            Some(i) => {
                if self.entries[i].1.is_expired(now) {
                    let _ = self.entries.remove(i);
                    proof {
                        let s1 = self.entries@;
                        assert forall|a: int, b: int| 0 <= a < b < s1.len() implies (
                        #[trigger] s1[a]).0@ != (#[trigger] s1[b]).0@ by {
                            let a0: int = if a < i { a } else { a + 1 };
                            let b0: int = if b < i { b } else { b + 1 };
                            assert(s1[a] == s0[a0] && s1[b] == s0[b0]);
                        }
                        assert forall|a: int| 0 <= a < s1.len() implies (
                        #[trigger] s1[a]).0@ != key@ by {
                            let a0: int = if a < i { a } else { a + 1 };
                            assert(s1[a] == s0[a0]);
                        }
                        assert(!final(self).order().contains(key@)) by {
                            if final(self).order().contains(key@) {
                                let a = choose|a: int|
                                    0 <= a < s1.len() && final(self).order()[a] == key@;
                                assert(s1[a].0@ == key@);
                            }
                        }
                    }
                    None
                } else {
                    Some(&self.entries[i].1)
                }
            },
        }
    }

    /// Re-encode `packet` into the entry under `key`, restarting its
    /// expiry at `now + ttl`; a missing key changes nothing.
    pub fn update(&mut self, key: &str, packet: &DnsPacket, ttl: u32, now: u64) -> (r: Result<
        (),
        DnsError,
    >)
        requires
            old(self).wf(),
            packet.wf(),
            now + ttl <= u64::MAX,
        ensures
            final(self).wf(),
            final(self).spec_max_size() == old(self).spec_max_size(),
            final(self).order() == old(self).order(),
            match lookup_entry(old(self).entries_seq(), key@) {
                None => r is Ok && final(self).entries_seq() == old(self).entries_seq(),
                Some(e) => {
                    &&& packet_bytes(packet@).len() <= FRAME_SIZE ==> {
                        &&& r is Ok
                        &&& lookup_entry(final(self).entries_seq(), key@) matches Some(e2)
                            && e2.response@ =~= packet_bytes(packet@) + Seq::new(
                            (FRAME_SIZE - packet_bytes(packet@).len()) as nat,
                            |i: int| 0u8,
                        ) && e2.expiry == now + ttl && e2.ttl == ttl
                    }
                    &&& packet_bytes(packet@).len() > FRAME_SIZE ==> r == Err::<(), DnsError>(
                        DnsError::BufferOverflow,
                    ) && final(self).entries_seq() == old(self).entries_seq()
                },
            },
    {
        let ghost s0 = self.entries@;
        match self.find_key(key) {
            None => Ok(()),
            Some(i) => {
                let entry = DnsCacheEntry::from_packet(packet, ttl, now)?;
                let key_copy = self.entries[i].0.clone();
                self.entries.set(i, (key_copy, entry));
                proof {
                    let s1 = self.entries@;
                    assert(s1[i as int].0@ == s0[i as int].0@);
                    assert forall|a: int, b: int| 0 <= a < b < s1.len() implies (
                    #[trigger] s1[a]).0@ != (#[trigger] s1[b]).0@ by {
                        assert(s0[a].0@ != s0[b].0@);
                        assert(s1[a].0@ == s0[a].0@ && s1[b].0@ == s0[b].0@);
                    }
                    assert(final(self).order() =~= old(self).order());
                    assert(lookup_entry(s1, key@) == Some(s1[i as int].1)) by {
                        lemma_lookup_at_first_match(s1, key@, i as int);
                    }
                }
                Ok(())
            },
        }
    }

    /// The keys whose entries have expired by `now`, oldest first.
    pub fn expired_keys(&self, now: u64) -> (r: Vec<String>)
        ensures
            r@.map_values(|k: String| k@) == expired_of(self.entries_seq(), now),
    {
        let ghost s = self.entries@;
        let mut out: Vec<String> = Vec::new();
        let mut i: usize = 0;
        proof {
            assert(s.skip(0) =~= s);
            assert(out@.map_values(|k: String| k@) =~= Seq::<Seq<char>>::empty());
            assert(Seq::<Seq<char>>::empty() + expired_of(s, now) =~= expired_of(s, now));
        }
        while i < self.entries.len()
            invariant
                s == self.entries@,
                i <= s.len(),
                expired_of(s, now) == out@.map_values(|k: String| k@) + expired_of(
                    s.skip(i as int),
                    now,
                ),
            decreases s.len() - i,
        {
            let ghost acc = out@.map_values(|k: String| k@);
            proof {
                assert(s.skip(i as int)[0] == s[i as int]);
                assert(s.skip(i as int).drop_first() =~= s.skip(i + 1));
            }
            if self.entries[i].1.is_expired(now) {
                let k = self.entries[i].0.clone();
                out.push(k);
                proof {
                    assert(out@.map_values(|k2: String| k2@) =~~= acc.push(s[i as int].0@));
                    assert(acc.push(s[i as int].0@) =~= acc + seq![s[i as int].0@]);
                    assert(acc + (seq![s[i as int].0@] + expired_of(s.skip(i + 1), now)) =~= (acc
                        + seq![s[i as int].0@]) + expired_of(s.skip(i + 1), now));
                }
            }
            i = i + 1;
        }
        proof {
            assert(s.skip(s.len() as int) =~= Seq::<(String, DnsCacheEntry)>::empty());
            assert(out@.map_values(|k: String| k@) + Seq::<Seq<char>>::empty() =~= out@.map_values(
                |k: String| k@,
            ));
        }
        out
    }
}

// ------------------------------------------------------------------
// Snapshot loading
// ------------------------------------------------------------------

/// The pairs whose entries are well formed, in run order.
pub open spec fn wf_items(s: Seq<(String, DnsCacheEntry)>) -> Seq<(String, DnsCacheEntry)>
    decreases s.len(),
{
    if s.len() == 0 {
        s
    } else if s[0].1.wf() {
        seq![s[0]] + wf_items(s.drop_first())
    } else {
        wf_items(s.drop_first())
    }
}

/// Whether some pair in the run is keyed `k`.
pub open spec fn seq_contains_key(s: Seq<(String, DnsCacheEntry)>, k: Seq<char>) -> bool {
    exists|i: int| 0 <= i < s.len() && (#[trigger] s[i]).0@ == k
}

/// What one insertion does to the stored pairs.
pub open spec fn insert_step(
    s: Seq<(String, DnsCacheEntry)>,
    p: (String, DnsCacheEntry),
    max: nat,
) -> Seq<(String, DnsCacheEntry)> {
    if seq_contains_key(s, p.0@) {
        s
    } else if s.len() >= max {
        s.drop_first().push(p)
    } else {
        s.push(p)
    }
}

/// The pairs held after inserting `items` in order, starting from `s`.
pub open spec fn insert_fold(
    s: Seq<(String, DnsCacheEntry)>,
    items: Seq<(String, DnsCacheEntry)>,
    max: nat,
) -> Seq<(String, DnsCacheEntry)>
    decreases items.len(),
{
    if items.len() == 0 {
        s
    } else {
        insert_fold(insert_step(s, items[0], max), items.drop_first(), max)
    }
}

impl DnsCache {
    /// Rebuild a cache from snapshot pairs, best effort: pairs with a
    /// malformed frame are dropped, the rest are inserted in order under
    /// the ordinary insertion rules, against the caller's capacity.
    pub fn from_snapshot(items: Vec<(String, DnsCacheEntry)>, max_size: usize) -> (r: DnsCache)
        requires
            max_size >= 1,
        ensures
            r.wf(),
            r.spec_max_size() == max_size,
            r.entries_seq() == insert_fold(
                Seq::<(String, DnsCacheEntry)>::empty(),
                wf_items(items@),
                max_size as nat,
            ),
    {
        let ghost items0 = items@;
        let mut items = items;
        let mut cache = DnsCache::new(max_size);
        proof {
            assert(cache.entries_seq() =~= Seq::<(String, DnsCacheEntry)>::empty());
        }
        while items.len() > 0
            invariant
                cache.wf(),
                cache.spec_max_size() == max_size,
                max_size >= 1,
                insert_fold(cache.entries_seq(), wf_items(items@), max_size as nat) == insert_fold(
                    Seq::<(String, DnsCacheEntry)>::empty(),
                    wf_items(items0),
                    max_size as nat,
                ),
            decreases items@.len(),
        {
            let ghost pre = items@;
            let ghost centries = cache.entries_seq();
            let (key, entry) = items.remove(0);
            proof {
                assert(pre.drop_first() =~= items@);
                assert(pre[0] == (key, entry));
            }
            if entry.response.len() == FRAME_SIZE {
                let ghost p = (key, entry);
                let _ = cache.insert(key, entry);
                proof {
                    assert(wf_items(pre) == seq![p] + wf_items(pre.drop_first()));
                    assert(seq![p].drop_first() =~= Seq::<(String, DnsCacheEntry)>::empty());
                    assert((seq![p] + wf_items(pre.drop_first()))[0] == p);
                    assert((seq![p] + wf_items(pre.drop_first())).drop_first() =~= wf_items(
                        pre.drop_first(),
                    ));
                    assert(cache.entries_seq() == insert_step(centries, p, max_size as nat)) by {
                        if seq_contains_key(centries, p.0@) {
                            assert(cache.entries_seq() == centries);
                        }
                    }
                }
            } else {
                proof {
                    assert(wf_items(pre) == wf_items(pre.drop_first()));
                }
            }
        }
        proof {
            assert(items@.len() == 0);
            assert(wf_items(items@) =~= Seq::<(String, DnsCacheEntry)>::empty());
        }
        cache
    }
}

// ------------------------------------------------------------------
// Cache laws
// ------------------------------------------------------------------

/// The number of entries never exceeds the capacity.
pub proof fn lemma_size_bounded(c: DnsCache)
    requires
        c.wf(),
    ensures
        c.entries_seq().len() <= c.spec_max_size(),
        c.order().len() <= c.spec_max_size(),
{
}

/// A key is in the entry map exactly when it is in the insertion order.
pub proof fn lemma_key_in_map_iff_in_order(c: DnsCache, k: Seq<char>)
    requires
        c.wf(),
    ensures
        c.entry_map().contains_key(k) <==> c.order().contains(k),
{
    if c.spec_contains_key(k) {
        let i = choose|i: int|
            0 <= i < c.entries_seq().len() && (#[trigger] c.entries_seq()[i]).0@ == k;
        assert(c.order()[i] == k);
    }
    if c.order().contains(k) {
        let i = choose|i: int| 0 <= i < c.order().len() && c.order()[i] == k;
        assert(c.entries_seq()[i].0@ == k);
    }
}

/// Each key appears in the insertion order exactly once.
pub proof fn lemma_order_keys_unique(c: DnsCache)
    requires
        c.wf(),
    ensures
        forall|i: int, j: int|
            0 <= i < j < c.order().len() ==> c.order()[i] != c.order()[j],
{
    assert forall|i: int, j: int| 0 <= i < j < c.order().len() implies c.order()[i]
        != c.order()[j] by {
        assert(c.order()[i] == c.entries_seq()[i].0@);
        assert(c.order()[j] == c.entries_seq()[j].0@);
    }
}

/// The key order after inserting each of `ks` in turn, starting from
/// `order`.
pub open spec fn fifo_insert_all(order: Seq<Seq<char>>, ks: Seq<Seq<char>>, max: nat) -> Seq<
    Seq<char>,
>
    decreases ks.len(),
{
    if ks.len() == 0 {
        order
    } else {
        fifo_insert_all(fifo_insert(order, ks[0], max), ks.drop_first(), max)
    }
}

/// The newest `max` keys of a run, in order.
pub open spec fn newest_window(s: Seq<Seq<char>>, max: nat) -> Seq<Seq<char>> {
    if s.len() <= max {
        s
    } else {
        s.skip(s.len() - max)
    }
}

/// Folding distinct keys over a window keeps a window.
proof fn lemma_fifo_fold_window(pre: Seq<Seq<char>>, ks: Seq<Seq<char>>, max: nat)
    requires
        max >= 1,
        forall|i: int, j: int| 0 <= i < j < (pre + ks).len() ==> (pre + ks)[i] != (pre + ks)[j],
    ensures
        fifo_insert_all(newest_window(pre, max), ks, max) == newest_window(pre + ks, max),
    decreases ks.len(),
{
    if ks.len() == 0 {
        assert(pre + ks =~= pre);
    } else {
        let k = ks[0];
        let w = newest_window(pre, max);
        assert((pre + ks)[pre.len() as int] == k);
        assert(!w.contains(k)) by {
            if w.contains(k) {
                let i = choose|i: int| 0 <= i < w.len() && w[i] == k;
                if pre.len() <= max {
                    assert((pre + ks)[i] == k);
                } else {
                    assert(pre[pre.len() - max + i] == k);
                    assert((pre + ks)[pre.len() - max + i] == k);
                }
            }
        }
        let pre2 = pre.push(k);
        assert(fifo_insert(w, k, max) =~= newest_window(pre2, max));
        assert(pre2 + ks.drop_first() =~= pre + ks);
        lemma_fifo_fold_window(pre2, ks.drop_first(), max);
    }
}

/// FIFO eviction: after inserting distinct keys into an empty cache, the
/// surviving keys are exactly the most recent `max`, in insertion order.
pub proof fn lemma_fifo_eviction(ks: Seq<Seq<char>>, max: nat)
    requires
        max >= 1,
        forall|i: int, j: int| 0 <= i < j < ks.len() ==> ks[i] != ks[j],
    ensures
        ks.len() <= max ==> fifo_insert_all(Seq::<Seq<char>>::empty(), ks, max) == ks,
        ks.len() > max ==> fifo_insert_all(Seq::<Seq<char>>::empty(), ks, max) == ks.skip(
            ks.len() - max,
        ),
{
    let pre = Seq::<Seq<char>>::empty();
    assert(pre + ks =~= ks);
    assert(newest_window(pre, max) =~= pre);
    lemma_fifo_fold_window(pre, ks, max);
}

impl DnsCacheEntry {
    /// A copy of this entry, field for field.
    pub fn duplicate(&self) -> (r: DnsCacheEntry)
        ensures
            r.response@ == self.response@,
            r.expiry == self.expiry,
            r.ttl == self.ttl,
    {
        let response = self.response.clone();
        proof {
            assert(response@ =~= self.response@);
        }
        DnsCacheEntry { response, expiry: self.expiry, ttl: self.ttl }
    }
}

/// The keys of the expired pairs in a run, in run order.
pub open spec fn expired_of(s: Seq<(String, DnsCacheEntry)>, now: u64) -> Seq<Seq<char>>
    decreases s.len(),
{
    if s.len() == 0 {
        Seq::empty()
    } else {
        let rest = expired_of(s.drop_first(), now);
        if now >= s[0].1.expiry {
            seq![s[0].0@] + rest
        } else {
            rest
        }
    }
}

/// Looking a key up lands on its first occurrence.
proof fn lemma_lookup_at_first_match(s: Seq<(String, DnsCacheEntry)>, k: Seq<char>, i: int)
    requires
        0 <= i < s.len(),
        s[i].0@ == k,
        forall|j: int| 0 <= j < i ==> (#[trigger] s[j]).0@ != k,
    ensures
        lookup_entry(s, k) == Some(s[i].1),
    decreases i,
{
    if i > 0 {
        assert(s.drop_first()[i - 1] == s[i]);
        assert forall|j: int| 0 <= j < i - 1 implies (#[trigger] s.drop_first()[j]).0@ != k by {
            assert(s.drop_first()[j] == s[j + 1]);
        }
        lemma_lookup_at_first_match(s.drop_first(), k, i - 1);
    }
}

} // verus!
