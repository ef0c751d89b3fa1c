//! Applying change-stream events of the orders collection to the cache.
//!
//! Inserts and updates of an `"isp"` order re-derive every sibling entry,
//! exactly as the read-through hydration does; a delete drops every sibling
//! entry of the before-change image. Events for other products are ignored.
//! The caller supplies the event's document and the sibling addresses it
//! enumerated from the store.

use vstd::prelude::*;
use crate::auth_manager::{CacheState, state_of, hydrate_effect, delete_effect, cred_pos};
use crate::cache::AuthCache;
use crate::models::{UserOrder, spec_multi_credentials};
use crate::net::{Ipv4, parse_ipv4, spec_parse_ipv4};
use crate::text::str_eq;

verus! {

/// The cache state after dropping the first `upto` sibling entries; sibling
/// addresses that are not well-formed dotted quads were never inserted and
/// are skipped.
pub open spec fn delete_siblings_effect(s: CacheState, siblings: Seq<Seq<char>>, upto: int)
    -> CacheState
    decreases upto,
{
    if upto <= 0 {
        s
    } else {
        let prev = delete_siblings_effect(s, siblings, upto - 1);
        match spec_parse_ipv4(siblings[upto - 1]) {
            Some(k) => delete_effect(prev, k),
            None => prev,
        }
    }
}

/// Whether an order's events touch the cache at all.
pub open spec fn is_isp_order(doc: UserOrder) -> bool {
    doc.product_slug@ == "isp"@
}

/// Apply an insert event: for an `"isp"` order, prime every sibling entry;
/// otherwise leave the cache untouched.
pub fn handle_insert(cache: &mut AuthCache, doc: &UserOrder, siblings: &Vec<String>, now: i64)
    requires
        old(cache).wf(),
        is_isp_order(*doc) ==> {
            &&& doc.proxy.username@.len() >= 1
            &&& doc.proxy.password@.len() >= 1
            &&& (spec_multi_credentials(doc.proxy) ==> siblings@.len()
                <= doc.proxy.username@.len() && siblings@.len() <= doc.proxy.password@.len())
        },
    ensures
        final(cache).wf(),
        final(cache).ttl_spec() == old(cache).ttl_spec(),
        is_isp_order(*doc) ==> state_of(*final(cache)) == hydrate_effect(
            state_of(*old(cache)),
            *doc,
            siblings.deep_view(),
            now as int,
            siblings@.len() as int,
        ),
        !is_isp_order(*doc) ==> *final(cache) == *old(cache),
    {
    proof {
        reveal_strlit("isp");
    }
    if !str_eq(doc.product_slug.as_str(), "isp") {
        return ;
    }
    let ghost s0 = state_of(*old(cache));
    let ghost dv = siblings.deep_view();
    let multi = doc.proxy.multi_credentials();
    let n = siblings.len();
    let mut i: usize = 0;
    while i < n
        invariant
            0 <= i <= n,
            n == siblings@.len(),
            dv == siblings.deep_view(),
            cache.wf(),
            cache.ttl_spec() == old(cache).ttl_spec(),
            multi == spec_multi_credentials(doc.proxy),
            doc.proxy.username@.len() >= 1,
            doc.proxy.password@.len() >= 1,
            spec_multi_credentials(doc.proxy) ==> n <= doc.proxy.username@.len() && n
                <= doc.proxy.password@.len(),
            state_of(*cache) == hydrate_effect(s0, *doc, dv, now as int, i as int),
        decreases n - i,
    {
        assert(dv[i as int] == siblings@[i as int]@);
        match parse_ipv4(siblings[i].as_str()) {
            Some(k) => {
                let pos: usize = if multi {
                    i
                } else {
                    0
                };
                let _ = cache.insert(k, doc, pos, now);
            },
            None => {},
        }
        i = i + 1;
    }
}

/// Apply an update event. An update carries the full document and is applied
/// exactly like an insert: the sibling set is re-derived and every entry
/// rewritten.
pub fn handle_update(cache: &mut AuthCache, doc: &UserOrder, siblings: &Vec<String>, now: i64)
    requires
        old(cache).wf(),
        is_isp_order(*doc) ==> {
            &&& doc.proxy.username@.len() >= 1
            &&& doc.proxy.password@.len() >= 1
            &&& (spec_multi_credentials(doc.proxy) ==> siblings@.len()
                <= doc.proxy.username@.len() && siblings@.len() <= doc.proxy.password@.len())
        },
    ensures
        final(cache).wf(),
        final(cache).ttl_spec() == old(cache).ttl_spec(),
        is_isp_order(*doc) ==> state_of(*final(cache)) == hydrate_effect(
            state_of(*old(cache)),
            *doc,
            siblings.deep_view(),
            now as int,
            siblings@.len() as int,
        ),
        !is_isp_order(*doc) ==> *final(cache) == *old(cache),
{
    handle_insert(cache, doc, siblings, now)
}

/// Apply a delete event: for an `"isp"` order, drop the entry of every
/// sibling of the before-change image; otherwise leave the cache untouched.
pub fn handle_delete(cache: &mut AuthCache, doc: &UserOrder, siblings: &Vec<String>)
    requires
        old(cache).wf(),
    ensures
        final(cache).wf(),
        final(cache).ttl_spec() == old(cache).ttl_spec(),
        is_isp_order(*doc) ==> state_of(*final(cache)) == delete_siblings_effect(
            state_of(*old(cache)),
            siblings.deep_view(),
            siblings@.len() as int,
        ),
        !is_isp_order(*doc) ==> *final(cache) == *old(cache),
{
    proof {
        reveal_strlit("isp");
    }
    if !str_eq(doc.product_slug.as_str(), "isp") {
        return ;
    }
    let ghost s0 = state_of(*old(cache));
    let ghost dv = siblings.deep_view();
    let n = siblings.len();
    let mut i: usize = 0;
    while i < n
        invariant
            0 <= i <= n,
            n == siblings@.len(),
            dv == siblings.deep_view(),
            cache.wf(),
            cache.ttl_spec() == old(cache).ttl_spec(),
            state_of(*cache) == delete_siblings_effect(s0, dv, i as int),
        decreases n - i,
    {
        assert(dv[i as int] == siblings@[i as int]@);
        match parse_ipv4(siblings[i].as_str()) {
            Some(k) => {
                cache.delete(k);
            },
            None => {},
        }
        i = i + 1;
    }
}

/// Deleting never adds an entry: every key absent before a sibling sweep is
/// absent after, and every swept sibling's key is absent after.
proof fn lemma_delete_siblings_monotone(s: CacheState, siblings: Seq<Seq<char>>, upto: int, k: u32)
    requires
        !s.contents.contains_key(k) || (exists|i: int|
            0 <= i < upto && spec_parse_ipv4(siblings[i]) == Some(k)),
    ensures
        !delete_siblings_effect(s, siblings, upto).contents.contains_key(k),
    decreases upto,
{
    if upto <= 0 {
    } else {
        let prev = delete_siblings_effect(s, siblings, upto - 1);
        if spec_parse_ipv4(siblings[upto - 1]) == Some(k) {
        } else {
            if !s.contents.contains_key(k) {
                lemma_delete_siblings_monotone(s, siblings, upto - 1, k);
            } else {
                let i = choose|i: int|
                    0 <= i < upto && spec_parse_ipv4(siblings[i]) == Some(k);
                assert(0 <= i < upto - 1);
                lemma_delete_siblings_monotone(s, siblings, upto - 1, k);
            }
        }
    }
}

/// A delete event clears every sibling of the deleted order: after the
/// sweep, the cache holds no entry for any sibling address of the
/// before-change image.
pub proof fn lemma_delete_clears_siblings(
    s: CacheState,
    siblings: Seq<Seq<char>>,
    i: int,
    k: u32,
)
    requires
        0 <= i < siblings.len(),
        spec_parse_ipv4(siblings[i]) == Some(k),
    ensures
        !delete_siblings_effect(s, siblings, siblings.len() as int).contents.contains_key(k),
{
    lemma_delete_siblings_monotone(s, siblings, siblings.len() as int, k);
}

} // verus!
