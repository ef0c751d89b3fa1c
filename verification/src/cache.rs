//! The per-listen-IP authorization cache.
//!
//! A bounded map from listen address to credential record. Each entry carries
//! its insertion time and is served only while younger than the configured
//! time-to-live; when the cache is full, the oldest-inserted entry is evicted.
//! Correctness of authentication never depends on residency: a missing entry
//! only forces the caller to rehydrate from the source of truth.

use vstd::prelude::*;
use std::collections::HashMap;
use crate::config::AuthCacheConfig;
use crate::models::UserOrder;
use crate::net::Ipv4;

verus! {

broadcast use vstd::std_specs::hash::group_hash_axioms;

/// The authoritative in-memory authorization record for one listen IP.
#[derive(Debug)]
pub struct AuthCacheValue {
    pub use_credentials: bool,
    pub username: String,
    pub password: String,
    pub whitelist: Vec<String>,
    /// Milliseconds since the epoch; the entry authenticates nobody at or
    /// past this instant.
    pub expiration: i64,
}

/// The mathematical shape of a cache entry: text as character sequences.
pub struct EntryModel {
    pub use_credentials: bool,
    pub username: Seq<char>,
    pub password: Seq<char>,
    pub whitelist: Seq<Seq<char>>,
    pub expiration: int,
}

impl AuthCacheValue {
    pub open spec fn model(self) -> EntryModel {
        EntryModel {
            use_credentials: self.use_credentials,
            username: self.username@,
            password: self.password@,
            whitelist: self.whitelist.deep_view(),
            expiration: self.expiration as int,
        }
    }

    /// A copy with the same model.
    pub fn duplicate(&self) -> (r: AuthCacheValue)
        ensures
            r.model() == self.model(),
    {
        let r = AuthCacheValue {
            use_credentials: self.use_credentials,
            username: self.username.clone(),
            password: self.password.clone(),
            whitelist: self.whitelist.clone(),
            expiration: self.expiration,
        };
        proof {
            assert(r.whitelist.deep_view() =~= self.whitelist.deep_view());
            assert(r.model() =~= self.model());
        }
        r
    }
}

/// The entry an order materializes to for the sibling at `pos`: the
/// credential pair at `pos`, the order's whitelist and expiry.
pub open spec fn spec_materialize(doc: UserOrder, pos: int) -> EntryModel {
    EntryModel {
        use_credentials: doc.proxy.use_credentials,
        username: doc.proxy.username.deep_view()[pos],
        password: doc.proxy.password.deep_view()[pos],
        whitelist: doc.proxy.whitelist.deep_view(),
        expiration: doc.expiration as int,
    }
}

struct CacheSlot {
    value: AuthCacheValue,
    inserted_at: i64,
}

/// Bounded TTL cache from listen IP to authorization record.
pub struct AuthCache {
    entries: HashMap<u32, CacheSlot>,
    /// Keys in insertion order, oldest first; drives eviction at capacity.
    age: Vec<u32>,
    max_size: u64,
    ttl: u64,
}

impl AuthCache {
    /// Entries currently held, by listen IP.
    pub closed spec fn contents(self) -> Map<u32, EntryModel> {
        Map::new(
            |k: u32| self.entries@.contains_key(k),
            |k: u32| self.entries@[k].value.model(),
        )
    }

    /// Insertion instant of each held entry.
    pub closed spec fn stamps(self) -> Map<u32, int> {
        Map::new(
            |k: u32| self.entries@.contains_key(k),
            |k: u32| self.entries@[k].inserted_at as int,
        )
    }

    /// Keys in insertion order, oldest first.
    pub closed spec fn age_spec(self) -> Seq<u32> {
        self.age@
    }

    pub closed spec fn max_spec(self) -> int {
        self.max_size as int
    }

    pub closed spec fn ttl_spec(self) -> int {
        self.ttl as int
    }

    pub closed spec fn wf(self) -> bool {
        &&& forall|i: int, j: int|
            0 <= i < j < self.age@.len() ==> self.age@[i] != self.age@[j]
        &&& forall|k: u32| #![auto] self.age@.contains(k) <==> self.entries@.contains_key(k)
        &&& self.age@.len() <= self.max_size
    }

    /// A capacity of zero is honored as retaining nothing: every lookup
    /// misses and the caller re-hydrates each time.
    pub fn new(config: AuthCacheConfig) -> (r: AuthCache)
        ensures
            r.wf(),
            r.contents() =~= Map::<u32, EntryModel>::empty(),
            r.age_spec() == Seq::<u32>::empty(),
            r.max_spec() == config.max_size as int,
            r.ttl_spec() == config.time_to_live as int,
    {
        AuthCache {
            entries: HashMap::new(),
            age: Vec::new(),
            max_size: config.max_size,
            ttl: config.time_to_live,
        }
    }

    /// Serve the entry for `key`, if present and younger than the
    /// time-to-live at instant `now`.
    pub fn get(&self, key: Ipv4, now: i64) -> (r: Option<&AuthCacheValue>)
        ensures
            match r {
                Some(v) => self.contents().contains_key(key.0)
                    && v.model() == self.contents()[key.0]
                    && now < self.stamps()[key.0] + self.ttl_spec(),
                None => !self.contents().contains_key(key.0)
                    || now >= self.stamps()[key.0] + self.ttl_spec(),
            },
    {
        match self.entries.get(&key.0) {
            None => None,
            Some(slot) => {
                if (now as i128) < (slot.inserted_at as i128) + (self.ttl as i128) {
                    Some(&slot.value)
                } else {
                    None
                }
            },
        }
    }

    /// Install the entry `doc` materializes to at position `credentials_pos`,
    /// stamped `now`, evicting the oldest entry if a new key would exceed
    /// capacity. Returns the installed value.
    pub fn insert(&mut self, key: Ipv4, doc: &UserOrder, credentials_pos: usize, now: i64) -> (r:
        AuthCacheValue)
        requires
            old(self).wf(),
            credentials_pos < doc.proxy.username@.len(),
            credentials_pos < doc.proxy.password@.len(),
        ensures
            final(self).wf(),
            final(self).max_spec() == old(self).max_spec(),
            final(self).ttl_spec() == old(self).ttl_spec(),
            r.model() == spec_materialize(*doc, credentials_pos as int),
            ({
                let m = spec_materialize(*doc, credentials_pos as int);
                if old(self).max_spec() == 0 {
                    &&& final(self).contents() == old(self).contents()
                    &&& final(self).stamps() == old(self).stamps()
                    &&& final(self).age_spec() == old(self).age_spec()
                } else if old(self).contents().contains_key(key.0) {
                    &&& final(self).contents() == old(self).contents().insert(key.0, m)
                    &&& final(self).stamps() == old(self).stamps().insert(key.0, now as int)
                    &&& final(self).age_spec() == old(self).age_spec()
                } else if old(self).age_spec().len() < old(self).max_spec() {
                    &&& final(self).contents() == old(self).contents().insert(key.0, m)
                    &&& final(self).stamps() == old(self).stamps().insert(key.0, now as int)
                    &&& final(self).age_spec() == old(self).age_spec().push(key.0)
                } else {
                    let ev = old(self).age_spec()[0];
                    &&& final(self).contents() == old(self).contents().remove(ev).insert(key.0, m)
                    &&& final(self).stamps() == old(self).stamps().remove(ev).insert(
                        key.0,
                        now as int,
                    )
                    &&& final(self).age_spec() == old(self).age_spec().drop_first().push(key.0)
                }
            }),
    {
        let ghost m = spec_materialize(*doc, credentials_pos as int);
        let username = doc.proxy.username[credentials_pos].clone();
        let password = doc.proxy.password[credentials_pos].clone();
        let whitelist = doc.proxy.whitelist.clone();
        let value = AuthCacheValue {
            use_credentials: doc.proxy.use_credentials,
            username,
            password,
            whitelist,
            expiration: doc.expiration,
        };
        proof {
            assert(value.whitelist.deep_view() =~= doc.proxy.whitelist.deep_view());
            assert(value.model() =~= m);
        }
        if self.max_size == 0 {
            // Nothing is retained; the caller still gets the entry.
            return value;
        }
        let stored = value.duplicate();
        if self.entries.contains_key(&key.0) {
            self.entries.insert(key.0, CacheSlot { value: stored, inserted_at: now });
            proof {
                let slot = self.entries@[key.0];
                lemma_update_existing(*old(self), *self, key.0, slot);
            }
        } else {
            if self.age.len() as u64 >= self.max_size {
                let ev = self.age[0];
                self.entries.remove(&ev);
                self.age.remove(0);
                proof {
                    lemma_remove_key(*old(self), *self, ev, 0);
                }
            }
            let ghost mid = *self;
            self.entries.insert(key.0, CacheSlot { value: stored, inserted_at: now });
            self.age.push(key.0);
            proof {
                let slot = self.entries@[key.0];
                lemma_insert_new(mid, *self, key.0, slot);
                if old(self).age_spec().len() < old(self).max_spec() {
                } else {
                    let ev = old(self).age_spec()[0];
                    assert(mid.contents() == old(self).contents().remove(ev));
                    assert(mid.age@ =~= old(self).age@.drop_first());
                }
            }
        }
        value
    }

    /// Index of `key` in the age queue, if present; the queue holds each key
    /// at most once.
    fn find_age_index(&self, key: u32) -> (r: Option<usize>)
        ensures
            match r {
                Some(i) => i < self.age_spec().len() && self.age_spec()[i as int] == key,
                None => !self.age_spec().contains(key),
            },
    {
        let n = self.age.len();
        let mut i: usize = 0;
        while i < n
            invariant
                0 <= i <= n,
                n == self.age@.len(),
                forall|j: int| 0 <= j < i ==> self.age@[j] != key,
            decreases n - i,
        {
            if self.age[i] == key {
                return Some(i);
            }
            i = i + 1;
        }
        None
    }

    /// Drop the entry for `key`, if any.
    pub fn delete(&mut self, key: Ipv4)
        requires
            old(self).wf(),
        ensures
            final(self).wf(),
            final(self).max_spec() == old(self).max_spec(),
            final(self).ttl_spec() == old(self).ttl_spec(),
            final(self).contents() == old(self).contents().remove(key.0),
            final(self).stamps() == old(self).stamps().remove(key.0),
            final(self).age_spec() == old(self).age_spec().remove_value(key.0),
    {
        match self.find_age_index(key.0) {
            Some(i) => {
                self.entries.remove(&key.0);
                self.age.remove(i);
                proof {
                    lemma_remove_key(*old(self), *self, key.0, i as int);
                    old(self).age@.index_of_first_ensures(key.0);
                    let idx = old(self).age@.index_of_first(key.0);
                    assert(idx is Some);
                    let fi = idx->Some_0;
                    assert(old(self).age@[fi] == key.0);
                    assert(fi == i as int);
                    assert(final(self).age_spec() == old(self).age_spec().remove_value(key.0));
                }
            },
            None => {
                self.entries.remove(&key.0);
                proof {
                    assert(!old(self).age@.contains(key.0));
                    assert(!old(self).entries@.contains_key(key.0));
                    assert(self.entries@ =~= old(self).entries@);
                    old(self).age@.index_of_first_ensures(key.0);
                    assert(final(self).contents() =~= old(self).contents().remove(key.0));
                    assert(final(self).stamps() =~= old(self).stamps().remove(key.0));
                }
            },
        }
    }

    /// Number of held entries.
    pub fn len(&self) -> (r: usize)
        ensures
            r as int == self.age_spec().len(),
    {
        self.age.len()
    }
}

/// Replacing the slot of a key already held changes no membership.
proof fn lemma_update_existing(pre: AuthCache, post: AuthCache, key: u32, slot: CacheSlot)
    requires
        pre.wf(),
        pre.entries@.contains_key(key),
        post.entries@ == pre.entries@.insert(key, slot),
        post.age@ == pre.age@,
        post.max_size == pre.max_size,
        post.ttl == pre.ttl,
    ensures
        post.wf(),
        post.contents() == pre.contents().insert(key, slot.value.model()),
        post.stamps() == pre.stamps().insert(key, slot.inserted_at as int),
{
    assert(post.entries@.dom() =~= pre.entries@.dom());
    assert forall|k: u32| #![auto] post.age@.contains(k) <==> post.entries@.contains_key(k) by {
        assert(pre.age@.contains(k) <==> pre.entries@.contains_key(k));
    }
    assert(post.contents() =~= pre.contents().insert(key, slot.value.model()));
    assert(post.stamps() =~= pre.stamps().insert(key, slot.inserted_at as int));
}

/// Inserting a fresh key below capacity keeps the cache well-formed and adds
/// exactly that entry, the key going to the back of the age queue.
proof fn lemma_insert_new(pre: AuthCache, post: AuthCache, key: u32, slot: CacheSlot)
    requires
        pre.wf(),
        !pre.entries@.contains_key(key),
        pre.age@.len() < pre.max_size,
        post.entries@ == pre.entries@.insert(key, slot),
        post.age@ == pre.age@.push(key),
        post.max_size == pre.max_size,
        post.ttl == pre.ttl,
    ensures
        post.wf(),
        post.contents() == pre.contents().insert(key, slot.value.model()),
        post.stamps() == pre.stamps().insert(key, slot.inserted_at as int),
{
    assert forall|k: u32| #![auto] post.age@.contains(k) implies post.entries@.contains_key(
        k,
    ) by {
        let i = choose|i: int| 0 <= i < post.age@.len() && post.age@[i] == k;
        if i == pre.age@.len() {
            assert(k == key);
        } else {
            assert(pre.age@[i] == k);
            assert(pre.age@.contains(k));
        }
    }
    assert forall|k: u32| #![auto] post.entries@.contains_key(k) implies post.age@.contains(
        k,
    ) by {
        if k == key {
            assert(post.age@[post.age@.len() - 1] == k);
        } else {
            assert(pre.entries@.contains_key(k));
            assert(pre.age@.contains(k));
            let i = choose|i: int| 0 <= i < pre.age@.len() && pre.age@[i] == k;
            assert(post.age@[i] == k);
        }
    }
    assert forall|i: int, j: int| 0 <= i < j < post.age@.len() implies post.age@[i]
        != post.age@[j] by {
        if j == post.age@.len() - 1 {
            assert(post.age@[i] == pre.age@[i]);
            assert(pre.age@.contains(pre.age@[i]));
            assert(pre.entries@.contains_key(pre.age@[i]));
        }
    }
    assert(post.contents() =~= pre.contents().insert(key, slot.value.model()));
    assert(post.stamps() =~= pre.stamps().insert(key, slot.inserted_at as int));
}

/// Removing the key at one age-queue position keeps the cache well-formed and
/// drops exactly that entry.
proof fn lemma_remove_key(pre: AuthCache, post: AuthCache, key: u32, i: int)
    requires
        pre.wf(),
        0 <= i < pre.age@.len(),
        pre.age@[i] == key,
        post.entries@ == pre.entries@.remove(key),
        post.age@ == pre.age@.remove(i),
        post.max_size == pre.max_size,
        post.ttl == pre.ttl,
    ensures
        post.wf(),
        !post.entries@.contains_key(key),
        post.age@.len() == pre.age@.len() - 1,
        post.contents() == pre.contents().remove(key),
        post.stamps() == pre.stamps().remove(key),
{
    assert forall|k: u32| #![auto] post.age@.contains(k) implies post.entries@.contains_key(
        k,
    ) by {
        let j = choose|j: int| 0 <= j < post.age@.len() && post.age@[j] == k;
        if j < i {
            assert(pre.age@[j] == k);
            assert(pre.age@.contains(k));
        } else {
            assert(pre.age@[j + 1] == k);
            assert(pre.age@.contains(k));
        }
        assert(k != key);
        assert(pre.entries@.contains_key(k));
    }
    assert forall|k: u32| #![auto] post.entries@.contains_key(k) implies post.age@.contains(
        k,
    ) by {
        assert(pre.entries@.contains_key(k));
        assert(k != key);
        assert(pre.age@.contains(k));
        let j = choose|j: int| 0 <= j < pre.age@.len() && pre.age@[j] == k;
        assert(j != i);
        if j < i {
            assert(post.age@[j] == k);
        } else {
            assert(post.age@[j - 1] == k);
        }
    }
    assert forall|a: int, b: int| 0 <= a < b < post.age@.len() implies post.age@[a]
        != post.age@[b] by {
        let pa: int = if a < i { a } else { a + 1 };
        let pb: int = if b < i { b } else { b + 1 };
        assert(post.age@[a] == pre.age@[pa]);
        assert(post.age@[b] == pre.age@[pb]);
    }
    assert(post.contents() =~= pre.contents().remove(key));
    assert(post.stamps() =~= pre.stamps().remove(key));
}

} // verus!
