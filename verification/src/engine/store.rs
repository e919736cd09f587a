//! What the engine has learned: a cache that holds nothing but what was found
//! or is absent, the records of the one of class IN and none with the other.
use crate::cache::{cached, flushed, inserted, Cache, CacheKey, CacheKeyView, Entries, Entry, EntryView, MAX_ENTRIES};
use crate::engine::soundness::{cache_sound, honest_records, lemma_flushed_sound, lemma_inserted_sound};
use crate::protocol::Outcome;
use crate::time::Instant;
use vstd::prelude::*;

verus! {

pub struct Store {
    cache: Cache,
}

impl View for Store {
    type V = Entries;

    closed spec fn view(&self) -> Entries {
        self.cache@
    }
}

impl Store {
    #[verifier::type_invariant]
    spec fn inv(&self) -> bool {
        cache_sound(self.cache@)
    }

    pub fn new() -> (r: Store)
        ensures
            r@ == Seq::<(CacheKeyView, EntryView)>::empty(),
    {
        Store { cache: Cache::new() }
    }

    /// Everything that is held is fit to be told.
    pub fn checked(&self)
        ensures
            cache_sound(self@),
    {
        proof {
            use_type_invariant(self);
        }
    }

    pub fn len(&self) -> (n: usize)
        ensures
            n == self@.len(),
            n <= MAX_ENTRIES,
    {
        self.cache.len()
    }

    pub fn get(&self, key: &CacheKey, now: Instant) -> (r: Option<Entry>)
        ensures
            match cached(self@, key@, now) {
                Some(e) => r matches Some(entry) && entry@ == e,
                None => r is None,
            },
    {
        self.cache.get(key, now)
    }

    pub fn insert(&mut self, key: CacheKey, entry: Entry)
        requires
            entry.outcome != Outcome::Unavailable,
            honest_records(entry.outcome, entry@.records),
        ensures
            final(self)@ == inserted(old(self)@, key@, entry@),
    {
        proof {
            use_type_invariant(&*self);
            lemma_inserted_sound(self.cache@, key@, entry@);
        }
        let mut cache = Cache::new();
        std::mem::swap(&mut cache, &mut self.cache);
        cache.insert(key, entry);
        self.cache = cache;
    }

    pub fn flush_scope(&mut self, scope: &str)
        ensures
            final(self)@ == flushed(old(self)@, scope@),
    {
        proof {
            use_type_invariant(&*self);
            lemma_flushed_sound(self.cache@, scope@);
        }
        let mut cache = Cache::new();
        std::mem::swap(&mut cache, &mut self.cache);
        cache.flush_scope(scope);
        self.cache = cache;
    }

    pub fn clear(&mut self)
        ensures
            final(self)@ == Seq::<(CacheKeyView, EntryView)>::empty(),
    {
        self.cache = Cache::new();
    }
}

} // verus!
