//! The token cache: hydrated pages kept in a bounded least-recently-used map
//! keyed by page, filled by the caller on a miss.
use vstd::prelude::*;
use std::collections::HashMap;
use std::num::NonZeroUsize;
use std::rc::Rc;
use lru::LruCache;
use crate::tokens::{
    Token, TokenDef, LookupTables, PageKey, TokenField, kept_positions, hydrated_as, surfaces_of,
    wildcard_phrase_cover, field_value, hydrate_tokens, find_positions as page_positions,
    wildcard_phrase_positions,
};
use crate::text::string_rows;
use crate::positions::sorted_members;

verus! {

#[verifier::external_type_specification]
#[verifier::external_body]
#[verifier::reject_recursive_types(K)]
#[verifier::reject_recursive_types(V)]
#[verifier::reject_recursive_types(S)]
pub struct ExLruCache<K, V, S>(LruCache<K, V, S>);

#[verifier::external_type_specification]
#[verifier::external_body]
pub struct ExLruHasher(lru::DefaultHasher);

/// The pages a cache holds, by key.
pub uninterp spec fn lru_pages(c: LruCache<(u64, u64, u64), Rc<Vec<Token>>>) -> Map<
    (u64, u64, u64),
    Seq<Token>,
>;

/// A cache that holds no page.
pub open spec fn no_pages() -> Map<(u64, u64, u64), Seq<Token>> {
    Map::empty()
}

/// The number of pages a cache was made to hold.
pub uninterp spec fn lru_capacity(c: LruCache<(u64, u64, u64), Rc<Vec<Token>>>) -> nat;

/// Relies on `LruCache::new`: an empty cache of the given capacity.
#[verifier::external_body]
fn lru_new(cap: usize) -> (r: LruCache<(u64, u64, u64), Rc<Vec<Token>>>)
    requires
        cap > 0,
    ensures
        lru_pages(r) == no_pages(),
        lru_capacity(r) == cap,
{
    LruCache::new(NonZeroUsize::new(cap).unwrap())
}

/// Relies on `LruCache::get`: the page under `k`, if held; it only becomes
/// the most recently used.
#[verifier::external_body]
fn lru_get(c: &mut LruCache<(u64, u64, u64), Rc<Vec<Token>>>, k: (u64, u64, u64)) -> (r: Option<
    Rc<Vec<Token>>,
>)
    ensures
        lru_pages(*final(c)) == lru_pages(*old(c)),
        lru_capacity(*final(c)) == lru_capacity(*old(c)),
        r is Some <==> lru_pages(*old(c)).contains_key(k),
        r matches Some(v) ==> v@ == lru_pages(*old(c))[k],
{
    c.get(&k).cloned()
}

/// Relies on `LruCache::put`: `k` now holds `v`; when `k` was new and the
/// cache full, one other page was dropped. `v` is shared, and handed back.
#[verifier::external_body]
fn lru_put(c: &mut LruCache<(u64, u64, u64), Rc<Vec<Token>>>, k: (u64, u64, u64), v: Rc<Vec<Token>>) -> (r: Rc<Vec<Token>>)
    ensures
        r@ == v@,
        lru_capacity(*final(c)) == lru_capacity(*old(c)),
        lru_pages(*old(c)).contains_key(k) || lru_pages(*old(c)).len() < lru_capacity(*old(c))
            ==> lru_pages(*final(c)) == lru_pages(*old(c)).insert(k, v@),
        !(lru_pages(*old(c)).contains_key(k) || lru_pages(*old(c)).len() < lru_capacity(*old(c)))
            ==> exists|d: (u64, u64, u64)|
            lru_pages(*old(c)).contains_key(d) && lru_pages(*final(c)) == lru_pages(
                *old(c),
            ).remove(d).insert(k, v@),
{
    c.put(k, Rc::clone(&v));
    v
}

/// Relies on `LruCache::clear`: no page is held any more.
#[verifier::external_body]
fn lru_clear(c: &mut LruCache<(u64, u64, u64), Rc<Vec<Token>>>)
    ensures
        lru_pages(*final(c)) == no_pages(),
        lru_capacity(*final(c)) == lru_capacity(*old(c)),
{
    c.clear();
}

/// Relies on `LruCache::len`: the number of pages held.
#[verifier::external_body]
fn lru_len(c: &LruCache<(u64, u64, u64), Rc<Vec<Token>>>) -> (r: usize)
    ensures
        r == lru_pages(*c).len(),
{
    c.len()
}

/// Relies on `LruCache::cap`: the capacity the cache was made with.
#[verifier::external_body]
fn lru_cap(c: &LruCache<(u64, u64, u64), Rc<Vec<Token>>>) -> (r: usize)
    ensures
        r == lru_capacity(*c),
{
    c.cap().get()
}

/// The capacity used when none is given.
pub const DEFAULT_CAPACITY: usize = 1000;

/// How many token ids one definition query may carry.
pub const ID_BATCH: usize = 500;

pub struct TokenCache {
    pages: LruCache<(u64, u64, u64), Rc<Vec<Token>>>,
    lookups: LookupTables,
}

pub open spec fn key_of(k: PageKey) -> (u64, u64, u64) {
    (k.id, k.part_index, k.page_id)
}

/// `toks` are the tokens hydrated from `ids` with `defs` and `l`.
pub open spec fn hydrated_page(toks: Seq<Token>, ids: Seq<u32>, defs: Map<u32, TokenDef>, l: LookupTables) -> bool {
    &&& toks.len() == kept_positions(ids, defs, l).len()
    &&& forall|m: int|
        0 <= m < toks.len() ==> hydrated_as(
            #[trigger] toks[m],
            kept_positions(ids, defs, l)[m],
            defs[ids[kept_positions(ids, defs, l)[m]]],
            l,
        )
}

impl TokenCache {
    pub closed spec fn pages(&self) -> Map<(u64, u64, u64), Seq<Token>> {
        lru_pages(self.pages)
    }

    pub closed spec fn capacity(&self) -> nat {
        lru_capacity(self.pages)
    }

    pub closed spec fn tables(&self) -> LookupTables {
        self.lookups
    }

    /// The cache holds finitely many pages, no more than its capacity, which
    /// is positive.
    pub closed spec fn wf(&self) -> bool {
        &&& self.pages().dom().finite()
        &&& self.pages().len() <= self.capacity()
        &&& self.capacity() > 0
    }

    /// The lookup tables the cache hydrates pages with.
    pub fn lookups(&self) -> (r: &LookupTables)
        ensures
            *r == self.tables(),
    {
        &self.lookups
    }

    /// An empty cache over the given lookup tables; a capacity of zero means
    /// the default of 1000 pages.
    pub fn new(lookups: LookupTables, capacity: usize) -> (r: Self)
        ensures
            r.pages() == no_pages(),
            r.capacity() == if capacity == 0 {
                DEFAULT_CAPACITY
            } else {
                capacity
            },
            r.tables() == lookups,
            r.wf(),
    {
        let cap = if capacity == 0 {
            DEFAULT_CAPACITY
        } else {
            capacity
        };
        TokenCache { pages: lru_new(cap), lookups }
    }

    /// The cached tokens of a page, or `None` when the page must be loaded
    /// and given to `fill`.
    pub fn get(&mut self, key: &PageKey) -> (r: Option<Rc<Vec<Token>>>)
        requires
            old(self).wf(),
        ensures
            final(self).wf(),
            final(self).pages() == old(self).pages(),
            final(self).capacity() == old(self).capacity(),
            final(self).tables() == old(self).tables(),
            r is Some <==> old(self).pages().contains_key(key_of(*key)),
            r matches Some(v) ==> v@ == old(self).pages()[key_of(*key)],
    {
        lru_get(&mut self.pages, (key.id, key.part_index, key.page_id))
    }

    /// Hydrates a loaded page from its token ids and definitions, caches it
    /// and returns it.
    pub fn fill(&mut self, key: &PageKey, ids: &Vec<u32>, defs: &HashMap<u32, TokenDef>) -> (r: Rc<
        Vec<Token>,
    >)
        requires
            old(self).wf(),
        ensures
            final(self).wf(),
            hydrated_page(r@, ids@, defs@, old(self).tables()),
            final(self).pages().contains_key(key_of(*key)),
            final(self).pages()[key_of(*key)] == r@,
            final(self).capacity() == old(self).capacity(),
            final(self).tables() == old(self).tables(),
    {
        let toks = hydrate_tokens(ids, defs, &self.lookups);
        let shared = Rc::new(toks);
        let k = (key.id, key.part_index, key.page_id);
        lru_put(&mut self.pages, k, shared)
    }

    /// Indices of the cached page's tokens whose `field` is `value`; `None`
    /// when the page is not cached.
    pub fn find_positions(&mut self, key: &PageKey, field: TokenField, value: &str) -> (r: Option<
        Vec<usize>,
    >)
        requires
            old(self).wf(),
        ensures
            final(self).wf(),
            final(self).pages() == old(self).pages(),
            final(self).capacity() == old(self).capacity(),
            r is Some <==> old(self).pages().contains_key(key_of(*key)),
            r matches Some(v) ==> v@ == old(self).pages()[key_of(*key)].filter(
                |t: Token| field_value(t, field) == Some(value@),
            ).map_values(|t: Token| t.idx),
    {
        match self.get(key) {
            Some(toks) => Some(page_positions(&*toks, field, value)),
            None => None,
        }
    }

    /// Positions of complete wildcard-phrase occurrences on a cached page,
    /// sorted, each once;
    /// `None` when the page is not cached.
    pub fn find_wildcard_phrase_positions(
        &mut self,
        key: &PageKey,
        prefix: &str,
        suffix: Option<&str>,
        wildcard_term_index: usize,
        all_terms: &Vec<String>,
    ) -> (r: Option<Vec<u32>>)
        requires
            old(self).wf(),
            all_terms@.len() <= u32::MAX / 2,
            forall|k: (u64, u64, u64)|
                #[trigger] old(self).pages().contains_key(k) ==> old(self).pages()[k].len()
                    <= u32::MAX / 2,
        ensures
            final(self).wf(),
            final(self).pages() == old(self).pages(),
            r is Some <==> old(self).pages().contains_key(key_of(*key)),
            r matches Some(v) ==> sorted_members(wildcard_phrase_cover(
                surfaces_of(old(self).pages()[key_of(*key)]),
                old(self).pages()[key_of(*key)].len() as int,
                prefix@,
                match suffix {
                    Some(s) => Some(s@),
                    None => None,
                },
                wildcard_term_index as int,
                string_rows(all_terms@),
            ), v@),
    {
        match self.get(key) {
            Some(toks) => {
                assert(old(self).pages().contains_key(key_of(*key)));
                Some(wildcard_phrase_positions(&*toks, prefix, suffix, wildcard_term_index, all_terms))
            },
            None => None,
        }
    }

    /// Drops every cached page.
    pub fn clear(&mut self)
        requires
            old(self).wf(),
        ensures
            final(self).wf(),
            final(self).pages() == no_pages(),
            final(self).capacity() == old(self).capacity(),
            final(self).tables() == old(self).tables(),
    {
        lru_clear(&mut self.pages);
    }

    /// The number of cached pages and the capacity.
    pub fn stats(&self) -> (r: (usize, usize))
        requires
            self.wf(),
        ensures
            r.0 <= r.1,
            r.1 > 0,
            r.0 == self.pages().len(),
            r.1 == self.capacity(),
    {
        (lru_len(&self.pages), lru_cap(&self.pages))
    }
}

} // verus!
