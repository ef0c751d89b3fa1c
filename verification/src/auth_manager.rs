//! Read-through resolution of a listen IP to its authorization record.
//!
//! On a cache miss the caller fetches, from the external store, the order
//! owning the listen IP and the addresses of every sibling proxy of that
//! order; `hydrate` then primes the cache for all siblings in one pass,
//! giving the sibling at enumeration index `i` the credential pair at
//! position `i` when the order carries one pair per sibling, and the shared
//! pair at position 0 otherwise.

use vstd::prelude::*;
use crate::cache::{AuthCache, AuthCacheValue, EntryModel, spec_materialize};
use crate::models::{UserOrder, UserOrderProxy, spec_multi_credentials};
use crate::net::{Ipv4, ipv4_to_string, spec_ipv4_string, spec_parse_ipv4, parse_ipv4};
use crate::text::str_eq;

verus! {

/// The observable state of the cache: entries, insertion stamps, age order
/// and capacity.
pub struct CacheState {
    pub contents: Map<u32, EntryModel>,
    pub stamps: Map<u32, int>,
    pub age: Seq<u32>,
    pub max: int,
}

pub open spec fn state_of(c: AuthCache) -> CacheState {
    CacheState {
        contents: c.contents(),
        stamps: c.stamps(),
        age: c.age_spec(),
        max: c.max_spec(),
    }
}

/// What one insertion does to the cache state: replace in place for a held
/// key, append below capacity, else evict the oldest first.
pub open spec fn insert_effect(s: CacheState, key: u32, m: EntryModel, now: int) -> CacheState {
    if s.max == 0 {
        s
    } else if s.contents.contains_key(key) {
        CacheState {
            contents: s.contents.insert(key, m),
            stamps: s.stamps.insert(key, now),
            age: s.age,
            max: s.max,
        }
    } else if s.age.len() < s.max {
        CacheState {
            contents: s.contents.insert(key, m),
            stamps: s.stamps.insert(key, now),
            age: s.age.push(key),
            max: s.max,
        }
    } else {
        let ev = s.age[0];
        CacheState {
            contents: s.contents.remove(ev).insert(key, m),
            stamps: s.stamps.remove(ev).insert(key, now),
            age: s.age.drop_first().push(key),
            max: s.max,
        }
    }
}

/// What deleting one key does to the cache state.
pub open spec fn delete_effect(s: CacheState, key: u32) -> CacheState {
    CacheState {
        contents: s.contents.remove(key),
        stamps: s.stamps.remove(key),
        age: s.age.remove_value(key),
        max: s.max,
    }
}

/// The credential position a sibling at enumeration index `i` uses.
pub open spec fn cred_pos(proxy: UserOrderProxy, i: int) -> int {
    if spec_multi_credentials(proxy) {
        i
    } else {
        0
    }
}

/// The cache state after priming the first `upto` siblings of `doc`:
/// each sibling whose address is a well-formed dotted quad is inserted under
/// that address with its credential position; malformed addresses are
/// skipped, since no listen IP could ever look them up.
pub open spec fn hydrate_effect(
    s: CacheState,
    doc: UserOrder,
    siblings: Seq<Seq<char>>,
    now: int,
    upto: int,
) -> CacheState
    decreases upto,
{
    if upto <= 0 {
        s
    } else {
        let prev = hydrate_effect(s, doc, siblings, now, upto - 1);
        match spec_parse_ipv4(siblings[upto - 1]) {
            Some(k) => insert_effect(
                prev,
                k,
                spec_materialize(doc, cred_pos(doc.proxy, upto - 1)),
                now,
            ),
            None => prev,
        }
    }
}

/// The entry returned for `listen` after priming the first `upto` siblings:
/// the one materialized at the last enumeration index whose address is
/// `listen`, if any.
pub open spec fn hydrate_result(
    doc: UserOrder,
    siblings: Seq<Seq<char>>,
    listen: u32,
    upto: int,
) -> Option<EntryModel>
    decreases upto,
{
    if upto <= 0 {
        None
    } else if spec_parse_ipv4(siblings[upto - 1]) == Some(listen) {
        Some(spec_materialize(doc, cred_pos(doc.proxy, upto - 1)))
    } else {
        hydrate_result(doc, siblings, listen, upto - 1)
    }
}

/// Entry check against presented credentials: only a credential-mode entry
/// authenticates, both strings must match exactly, and the entry must not
/// have expired.
pub open spec fn spec_check_credentials(
    e: EntryModel,
    username: Seq<char>,
    password: Seq<char>,
    now: int,
) -> bool {
    e.use_credentials && username == e.username && password == e.password && e.expiration > now
}

/// The client address is whitelisted when its canonical dotted-quad text is
/// one of the entry's whitelist strings.
pub open spec fn spec_whitelisted(e: EntryModel, ip: u32) -> bool {
    exists|i: int| 0 <= i < e.whitelist.len() && e.whitelist[i] == spec_ipv4_string(ip)
}

/// Entry check against the client address: only a whitelist-mode entry
/// authenticates, the address must be whitelisted, and the entry must not
/// have expired.
pub open spec fn spec_check_whitelist(e: EntryModel, ip: u32, now: int) -> bool {
    !e.use_credentials && spec_whitelisted(e, ip) && e.expiration > now
}

/// An entry at or past its expiration authenticates no client, whatever
/// credentials are presented and whatever address the client holds.
pub proof fn lemma_expired_entry_rejects(
    e: EntryModel,
    username: Seq<char>,
    password: Seq<char>,
    ip: u32,
    now: int,
)
    requires
        e.expiration <= now,
    ensures
        !spec_check_credentials(e, username, password, now),
        !spec_check_whitelist(e, ip, now),
{
}

/// Read-through resolver over the shared authorization cache.
pub struct AuthManager {
    pub cache: AuthCache,
}

impl AuthManager {
    pub fn new(cache: AuthCache) -> (r: AuthManager)
        ensures
            r.cache == cache,
    {
        AuthManager { cache }
    }

    /// The cached entry for this listen IP, if present and fresh at `now`.
    /// A `None` forces the caller to fetch the order and its siblings and
    /// call `hydrate`; a `None` is never cached, so the next request retries.
    pub fn lookup(&self, listen_ip: Ipv4, now: i64) -> (r: Option<AuthCacheValue>)
        ensures
            match r {
                Some(v) => self.cache.contents().contains_key(listen_ip.0) && v.model()
                    == self.cache.contents()[listen_ip.0] && now < self.cache.stamps()[listen_ip.0]
                    + self.cache.ttl_spec(),
                None => !self.cache.contents().contains_key(listen_ip.0) || now
                    >= self.cache.stamps()[listen_ip.0] + self.cache.ttl_spec(),
            },
    {
        match self.cache.get(listen_ip, now) {
            Some(v) => Some(v.duplicate()),
            None => None,
        }
    }

    /// Prime the cache for every sibling of the freshly fetched order and
    /// return the entry belonging to `listen_ip`, if any sibling's address
    /// is that IP.
    pub fn hydrate(
        &mut self,
        listen_ip: Ipv4,
        order: &UserOrder,
        siblings: &Vec<String>,
        now: i64,
    ) -> (r: Option<AuthCacheValue>)
        requires
            old(self).cache.wf(),
            order.proxy.username@.len() >= 1,
            order.proxy.password@.len() >= 1,
            spec_multi_credentials(order.proxy) ==> siblings@.len()
                <= order.proxy.username@.len() && siblings@.len() <= order.proxy.password@.len(),
        ensures
            final(self).cache.wf(),
            final(self).cache.ttl_spec() == old(self).cache.ttl_spec(),
            state_of(final(self).cache) == hydrate_effect(
                state_of(old(self).cache),
                *order,
                siblings.deep_view(),
                now as int,
                siblings@.len() as int,
            ),
            match r {
                Some(v) => hydrate_result(
                    *order,
                    siblings.deep_view(),
                    listen_ip.0,
                    siblings@.len() as int,
                ) == Some(v.model()),
                None => hydrate_result(
                    *order,
                    siblings.deep_view(),
                    listen_ip.0,
                    siblings@.len() as int,
                ) is None,
            },
    {
        let ghost s0 = state_of(old(self).cache);
        let ghost dv = siblings.deep_view();
        let multi = order.proxy.multi_credentials();
        let mut cv: Option<AuthCacheValue> = None;
        let n = siblings.len();
        let mut i: usize = 0;
        while i < n
            invariant
                0 <= i <= n,
                n == siblings@.len(),
                dv == siblings.deep_view(),
                self.cache.wf(),
                self.cache.ttl_spec() == old(self).cache.ttl_spec(),
                multi == spec_multi_credentials(order.proxy),
                order.proxy.username@.len() >= 1,
                order.proxy.password@.len() >= 1,
                spec_multi_credentials(order.proxy) ==> n <= order.proxy.username@.len() && n
                    <= order.proxy.password@.len(),
                state_of(self.cache) == hydrate_effect(s0, *order, dv, now as int, i as int),
                match cv {
                    Some(v) => hydrate_result(*order, dv, listen_ip.0, i as int) == Some(v.model()),
                    None => hydrate_result(*order, dv, listen_ip.0, i as int) is None,
                },
            decreases n - i,
        {
            assert(dv[i as int] == siblings@[i as int]@);
            match parse_ipv4(siblings[i].as_str()) {
                Some(k) => {
                    let pos: usize = if multi {
                        i
                    } else {
                        0
                    };
                    let v = self.cache.insert(k, order, pos, now);
                    if k == listen_ip {
                        cv = Some(v);
                    }
                },
                None => {},
            }
            i = i + 1;
        }
        cv
    }

    /// True exactly when the entry requires credentials, both strings match,
    /// and the entry has not expired at `now`.
    pub fn check_credentials(
        &self,
        cache_value: &AuthCacheValue,
        username: &str,
        password: &str,
        now: i64,
    ) -> (r: bool)
        ensures
            r == spec_check_credentials(cache_value.model(), username@, password@, now as int),
    {
        cache_value.use_credentials && str_eq(cache_value.username.as_str(), username) && str_eq(
            cache_value.password.as_str(),
            password,
        ) && cache_value.expiration > now
    }

    /// True exactly when the entry is in whitelist mode, the client address
    /// is listed, and the entry has not expired at `now`.
    pub fn check_whitelist(&self, cache_value: &AuthCacheValue, client_ip: Ipv4, now: i64) -> (r:
        bool)
        ensures
            r == spec_check_whitelist(cache_value.model(), client_ip.0, now as int),
    {
        if cache_value.use_credentials {
            return false;
        }
        if cache_value.expiration <= now {
            return false;
        }
        let wanted = ipv4_to_string(client_ip);
        let m = cache_value.whitelist.len();
        let mut i: usize = 0;
        while i < m
            invariant
                0 <= i <= m,
                m == cache_value.whitelist@.len(),
                wanted@ == spec_ipv4_string(client_ip.0),
                !cache_value.use_credentials,
                cache_value.expiration > now,
                forall|j: int| 0 <= j < i ==> cache_value.model().whitelist[j] != spec_ipv4_string(
                    client_ip.0,
                ),
            decreases m - i,
        {
            if str_eq(cache_value.whitelist[i].as_str(), wanted.as_str()) {
                assert(cache_value.model().whitelist[i as int] == spec_ipv4_string(client_ip.0));
                assert(spec_whitelisted(cache_value.model(), client_ip.0));
                return true;
            }
            i = i + 1;
        }
        assert(!spec_whitelisted(cache_value.model(), client_ip.0));
        false
    }
}

/// One hydration pass grows the age queue by at most one key per sibling and
/// never changes the capacity.
proof fn lemma_hydrate_age_len(
    s: CacheState,
    doc: UserOrder,
    siblings: Seq<Seq<char>>,
    now: int,
    upto: int,
)
    requires
        upto >= 0,
        s.max >= 1,
    ensures
        hydrate_effect(s, doc, siblings, now, upto).age.len() <= s.age.len() + upto,
        hydrate_effect(s, doc, siblings, now, upto).max == s.max,
    decreases upto,
{
    if upto > 0 {
        lemma_hydrate_age_len(s, doc, siblings, now, upto - 1);
    }
}

/// Once the sibling at index `i` is primed, the entry for its address stays
/// in the cache for the rest of the pass, stamped with the pass's instant.
proof fn lemma_hydrate_contains(
    s: CacheState,
    doc: UserOrder,
    siblings: Seq<Seq<char>>,
    now: int,
    upto: int,
    i: int,
    k: u32,
)
    requires
        0 <= i < upto <= siblings.len(),
        spec_parse_ipv4(siblings[i]) == Some(k),
        s.age.len() + siblings.len() <= s.max,
    ensures
        hydrate_effect(s, doc, siblings, now, upto).contents.contains_key(k),
        hydrate_effect(s, doc, siblings, now, upto).stamps.contains_key(k),
        hydrate_effect(s, doc, siblings, now, upto).stamps[k] == now,
    decreases upto,
{
    lemma_hydrate_age_len(s, doc, siblings, now, upto - 1);
    if upto - 1 > i {
        lemma_hydrate_contains(s, doc, siblings, now, upto - 1, i, k);
    }
}

/// If no later sibling shares the address of the sibling at index `i`, the
/// value primed for that address is the one materialized at index `i` —
/// the last writer wins.
proof fn lemma_hydrate_value(
    s: CacheState,
    doc: UserOrder,
    siblings: Seq<Seq<char>>,
    now: int,
    upto: int,
    i: int,
    k: u32,
)
    requires
        0 <= i < upto <= siblings.len(),
        spec_parse_ipv4(siblings[i]) == Some(k),
        forall|j: int| i < j < siblings.len() ==> spec_parse_ipv4(
            #[trigger] siblings[j],
        ) != Some(k),
        s.age.len() + siblings.len() <= s.max,
    ensures
        hydrate_effect(s, doc, siblings, now, upto).contents.contains_key(k),
        hydrate_effect(s, doc, siblings, now, upto).contents[k] == spec_materialize(
            doc,
            cred_pos(doc.proxy, i),
        ),
    decreases upto,
{
    lemma_hydrate_age_len(s, doc, siblings, now, upto - 1);
    if upto - 1 > i {
        lemma_hydrate_value(s, doc, siblings, now, upto - 1, i, k);
    }
}

/// One read-through hydration suffices: a pass over an order whose sibling
/// at index `i` has address `k` leaves the entry for `k` in the cache,
/// stamped with the pass's instant. By `lookup`'s contract, every later
/// lookup of `k` within the time-to-live (and absent eviction or deletion)
/// then hits the cache, so no further hydration is triggered for that
/// listen IP. The capacity bound rules out eviction during the pass itself.
pub proof fn lemma_single_hydration_primes(
    s: CacheState,
    doc: UserOrder,
    siblings: Seq<Seq<char>>,
    now: int,
    i: int,
    k: u32,
)
    requires
        0 <= i < siblings.len(),
        spec_parse_ipv4(siblings[i]) == Some(k),
        s.age.len() + siblings.len() <= s.max,
    ensures
        hydrate_effect(s, doc, siblings, now, siblings.len() as int).contents.contains_key(k),
        hydrate_effect(s, doc, siblings, now, siblings.len() as int).stamps[k] == now,
{
    lemma_hydrate_contains(s, doc, siblings, now, siblings.len() as int, i, k);
}

/// After hydrating a single order, the sibling at enumeration index `i`
/// carries the credential pair at position `i` when the order is
/// multi-credential, and the shared pair at position 0 otherwise — provided
/// no later sibling repeats the same address (a repeat overwrites, exactly
/// as two passes over the store would) and the pass fits in the cache
/// without evicting (an evicted entry is simply gone until rehydration,
/// which the data model explicitly allows).
pub proof fn lemma_hydration_assigns_sibling_credentials(
    s: CacheState,
    doc: UserOrder,
    siblings: Seq<Seq<char>>,
    now: int,
    i: int,
    k: u32,
)
    requires
        0 <= i < siblings.len(),
        spec_parse_ipv4(siblings[i]) == Some(k),
        forall|j: int| i < j < siblings.len() ==> spec_parse_ipv4(
            #[trigger] siblings[j],
        ) != Some(k),
        s.age.len() + siblings.len() <= s.max,
    ensures
        hydrate_effect(s, doc, siblings, now, siblings.len() as int).contents.contains_key(k),
        hydrate_effect(s, doc, siblings, now, siblings.len() as int).contents[k]
            == spec_materialize(doc, cred_pos(doc.proxy, i)),
{
    lemma_hydrate_value(s, doc, siblings, now, siblings.len() as int, i, k);
}

/// Sibling addresses parse pairwise-differently.
pub open spec fn distinct_sibling_addrs(siblings: Seq<Seq<char>>) -> bool {
    forall|j1: int, j2: int|
        0 <= j1 < j2 < siblings.len() && spec_parse_ipv4(#[trigger] siblings[j1]) is Some
            ==> spec_parse_ipv4(siblings[j1]) != spec_parse_ipv4(#[trigger] siblings[j2])
}

/// A second pass over an order already hydrated moves nothing: every step
/// rewrites an entry with the value it already holds.
proof fn lemma_rehydrate_prefix(
    s: CacheState,
    t: CacheState,
    doc: UserOrder,
    siblings: Seq<Seq<char>>,
    now: int,
    upto: int,
)
    requires
        t == hydrate_effect(s, doc, siblings, now, siblings.len() as int),
        distinct_sibling_addrs(siblings),
        s.age.len() + siblings.len() <= s.max,
        0 <= upto <= siblings.len(),
    ensures
        hydrate_effect(t, doc, siblings, now, upto) == t,
    decreases upto,
{
    if upto > 0 {
        lemma_rehydrate_prefix(s, t, doc, siblings, now, upto - 1);
        let j = upto - 1;
        match spec_parse_ipv4(siblings[j]) {
            Some(k) => {
                assert forall|j2: int|
                    0 <= j2 < siblings.len() && j2 != j implies spec_parse_ipv4(
                    #[trigger] siblings[j2],
                ) != Some(k) by {
                    if j2 < j {
                        if spec_parse_ipv4(siblings[j2]) is Some {
                            assert(spec_parse_ipv4(siblings[j2]) != spec_parse_ipv4(siblings[j]));
                        }
                    } else {
                        assert(spec_parse_ipv4(siblings[j]) != spec_parse_ipv4(siblings[j2]));
                    }
                }
                lemma_hydrate_value(s, doc, siblings, now, siblings.len() as int, j, k);
                lemma_hydrate_contains(s, doc, siblings, now, siblings.len() as int, j, k);
                let m = spec_materialize(doc, cred_pos(doc.proxy, j));
                assert(t.contents.insert(k, m) =~= t.contents);
                assert(t.stamps.insert(k, now) =~= t.stamps);
                assert(insert_effect(t, k, m, now) == t);
            },
            None => {},
        }
    }
}

/// Two consecutive change-stream updates with identical documents produce
/// identical cache state: re-applying a hydration pass that already ran is
/// the identity, provided sibling addresses are pairwise distinct and the
/// pass fits in the cache.
pub proof fn lemma_update_idempotent(
    s: CacheState,
    doc: UserOrder,
    siblings: Seq<Seq<char>>,
    now: int,
)
    requires
        distinct_sibling_addrs(siblings),
        s.age.len() + siblings.len() <= s.max,
    ensures
        hydrate_effect(
            hydrate_effect(s, doc, siblings, now, siblings.len() as int),
            doc,
            siblings,
            now,
            siblings.len() as int,
        ) == hydrate_effect(s, doc, siblings, now, siblings.len() as int),
{
    let t = hydrate_effect(s, doc, siblings, now, siblings.len() as int);
    lemma_rehydrate_prefix(s, t, doc, siblings, now, siblings.len() as int);
}

} // verus!
