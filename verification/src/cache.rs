//! The answer cache, keyed by the scope that answered.
//!
//! `(name, type, scope)` rather than `(name, type)`: the same name may
//! legitimately have different answers on the VPN and on the LAN (split
//! horizon), and when an interface goes away or its servers change its
//! answers go with it: nothing learned through a VPN is served after the
//! VPN is down.
use crate::addr::IpAddr;
use crate::dns::name::{fold, Labels};
use crate::dns::record::{copy_records, records_view, RecordView};
use crate::dns::{Name, Record};
use crate::protocol::Outcome;
use crate::text::str_eq;
use crate::time::{Instant, SECOND};
use vstd::prelude::*;

verus! {

/// Entries beyond this evict the soonest-to-expire. Sized for a busy
/// workstation; a resolver with a hundred thousand hot names is not a stub.
pub const MAX_ENTRIES: usize = 8192;

/// A question and the scope it was asked in.
#[derive(Debug, PartialEq, Eq)]
pub struct CacheKey {
    name: Name,
    rtype: u16,
    scope: String,
}

#[verifier::ext_equal]
pub struct CacheKeyView {
    /// In lower case.
    pub name: Labels,
    pub rtype: u16,
    pub scope: Seq<char>,
}

/// The key for a name as it was written.
pub open spec fn key_of(name: Labels, rtype: u16, scope: Seq<char>) -> CacheKeyView {
    CacheKeyView { name: fold(name), rtype, scope }
}

impl View for CacheKey {
    type V = CacheKeyView;

    closed spec fn view(&self) -> CacheKeyView {
        CacheKeyView { name: self.name@, rtype: self.rtype, scope: self.scope@ }
    }
}

proof fn lemma_fold_twice(n: Labels)
    ensures
        fold(fold(n)) == fold(n),
{
    assert forall|i: int| 0 <= i < n.len() implies #[trigger] fold(fold(n))[i] == fold(n)[i] by {
        assert(fold(fold(n))[i] =~= fold(n)[i]);
    }
    assert(fold(fold(n)) =~= fold(n));
}

impl CacheKey {
    #[verifier::type_invariant]
    spec fn inv(&self) -> bool {
        fold(self.name@) == self.name@
    }

    pub fn new(name: &Name, rtype: u16, scope: &str) -> (r: CacheKey)
        ensures
            r@ == key_of(name@, rtype, scope@),
    {
        proof {
            lemma_fold_twice(name@);
        }
        CacheKey { name: name.to_lowercase(), rtype, scope: scope.to_owned() }
    }

    fn same(&self, other: &CacheKey) -> (r: bool)
        ensures
            r == (self@ == other@),
    {
        proof {
            use_type_invariant(self);
            use_type_invariant(other);
        }
        self.rtype == other.rtype && self.name == other.name && str_eq(self.scope.as_str(), other.scope.as_str())
    }
}

impl Clone for CacheKey {
    fn clone(&self) -> (r: CacheKey)
        ensures
            r@ == self@,
    {
        proof {
            use_type_invariant(self);
        }
        CacheKey { name: self.name.clone(), rtype: self.rtype, scope: self.scope.clone() }
    }
}

#[derive(Debug, PartialEq, Eq)]
pub struct Entry {
    pub outcome: Outcome,
    pub records: Vec<Record>,
    pub rcode: u16,
    pub server: IpAddr,
    /// When it was learned: its records' TTLs count from then.
    pub stored: Instant,
    pub expires: Instant,
}

#[verifier::ext_equal]
pub struct EntryView {
    pub outcome: Outcome,
    pub records: Seq<RecordView>,
    pub rcode: u16,
    pub server: Seq<u8>,
    pub stored: Instant,
    pub expires: Instant,
}

impl View for Entry {
    type V = EntryView;

    open spec fn view(&self) -> EntryView {
        EntryView {
            outcome: self.outcome,
            records: records_view(self.records@),
            rcode: self.rcode,
            server: self.server@,
            stored: self.stored,
            expires: self.expires,
        }
    }
}

impl Clone for Entry {
    fn clone(&self) -> (r: Entry)
        ensures
            r@ == self@,
    {
        Entry {
            outcome: self.outcome,
            records: copy_records(&self.records),
            rcode: self.rcode,
            server: self.server,
            stored: self.stored,
            expires: self.expires,
        }
    }
}

// What a cache holds: entries under keys, in the order they came.

pub type Entries = Seq<(CacheKeyView, EntryView)>;

/// Whether an entry is under a key.
pub open spec fn holds(s: Entries, k: CacheKeyView) -> bool {
    exists|i: int| 0 <= i < s.len() && (#[trigger] s[i]).0 == k
}

/// The first place of a key at or after `i`; the length where it has none.
pub open spec fn place_from(s: Entries, k: CacheKeyView, i: int) -> int
    decreases s.len() - i,
{
    if i >= s.len() {
        s.len() as int
    } else if s[i].0 == k {
        i
    } else {
        place_from(s, k, i + 1)
    }
}

pub open spec fn place(s: Entries, k: CacheKeyView) -> int {
    place_from(s, k, 0)
}

/// The whole seconds that an entry has been in the cache.
pub open spec fn seconds_in(stored: Instant, now: Instant) -> int {
    if now <= stored {
        0
    } else {
        (now - stored) / (SECOND as int)
    }
}

/// What is left of a TTL after so many seconds.
pub open spec fn ttl_after(ttl: u32, seconds: int) -> u32 {
    if ttl > seconds {
        (ttl - seconds) as u32
    } else {
        0
    }
}

/// Records with their TTLs reduced by so many seconds.
pub open spec fn aged(r: Seq<RecordView>, seconds: int) -> Seq<RecordView> {
    Seq::new(r.len(), |i: int| RecordView { ttl: ttl_after(r[i].ttl, seconds), ..r[i] })
}

/// The live entry under a key, with its records' TTLs reduced by the time in
/// cache.
pub open spec fn cached(s: Entries, k: CacheKeyView, now: Instant) -> Option<EntryView> {
    let p = place(s, k);
    if p >= s.len() || s[p].1.expires <= now {
        None
    } else {
        let e = s[p].1;
        Some(EntryView { records: aged(e.records, seconds_in(e.stored, now)), ..e })
    }
}

/// The first place of an entry that expires no later than any at or after `i`.
pub open spec fn soonest_from(s: Entries, i: int) -> int
    decreases s.len() - i,
{
    if i + 1 >= s.len() {
        i
    } else {
        let later = soonest_from(s, i + 1);
        if s[i].1.expires <= s[later].1.expires {
            i
        } else {
            later
        }
    }
}

/// The place of the soonest-to-expire.
pub open spec fn soonest(s: Entries) -> int {
    soonest_from(s, 0)
}

/// An entry put under a key. A full cache loses its soonest-to-expire for a
/// key that is new.
pub open spec fn inserted(s: Entries, k: CacheKeyView, e: EntryView) -> Entries {
    let p = place(s, k);
    if p < s.len() {
        s.update(p, (k, e))
    } else if s.len() >= MAX_ENTRIES {
        s.remove(soonest(s)).push((k, e))
    } else {
        s.push((k, e))
    }
}

/// What is left when the entries of a scope go.
pub open spec fn flushed(s: Entries, scope: Seq<char>) -> Entries
    decreases s.len(),
{
    if s.len() == 0 {
        Seq::empty()
    } else if s[0].0.scope == scope {
        flushed(s.skip(1), scope)
    } else {
        seq![s[0]] + flushed(s.skip(1), scope)
    }
}

/// Whether no key occurs twice.
pub open spec fn distinct(s: Entries) -> bool {
    forall|i: int, j: int| 0 <= i < j < s.len() ==> (#[trigger] s[i]).0 != (#[trigger] s[j]).0
}

proof fn lemma_place_from(s: Entries, k: CacheKeyView, i: int)
    requires
        0 <= i <= s.len(),
    ensures
        i <= place_from(s, k, i) <= s.len(),
        place_from(s, k, i) < s.len() ==> s[place_from(s, k, i)].0 == k,
        forall|j: int| i <= j < place_from(s, k, i) ==> (#[trigger] s[j]).0 != k,
    decreases s.len() - i,
{
    if i < s.len() && s[i].0 != k {
        lemma_place_from(s, k, i + 1);
    }
}

pub proof fn lemma_place(s: Entries, k: CacheKeyView)
    ensures
        0 <= place(s, k) <= s.len(),
        place(s, k) < s.len() ==> s[place(s, k)].0 == k,
        holds(s, k) <==> place(s, k) < s.len(),
        forall|j: int| 0 <= j < place(s, k) ==> (#[trigger] s[j]).0 != k,
{
    lemma_place_from(s, k, 0);
}

pub proof fn lemma_soonest_from(s: Entries, i: int)
    requires
        0 <= i < s.len(),
    ensures
        i <= soonest_from(s, i) < s.len(),
        forall|j: int| i <= j < s.len() ==> s[soonest_from(s, i)].1.expires <= (#[trigger] s[j]).1.expires,
    decreases s.len() - i,
{
    if i + 1 < s.len() {
        lemma_soonest_from(s, i + 1);
    }
}

pub proof fn lemma_inserted_distinct(s: Entries, k: CacheKeyView, e: EntryView)
    requires
        distinct(s),
        s.len() <= MAX_ENTRIES,
    ensures
        distinct(inserted(s, k, e)),
        inserted(s, k, e).len() <= MAX_ENTRIES,
{
    lemma_place(s, k);
    if s.len() > 0 {
        lemma_soonest_from(s, 0);
    }
}

pub proof fn lemma_flushed(s: Entries, scope: Seq<char>)
    ensures
        flushed(s, scope).len() <= s.len(),
        forall|i: int|
            0 <= i < flushed(s, scope).len() ==> (#[trigger] flushed(s, scope)[i]).0.scope != scope && s.contains(
                flushed(s, scope)[i],
            ),
        forall|i: int|
            0 <= i < s.len() && (#[trigger] s[i]).0.scope != scope ==> flushed(s, scope).contains(s[i]),
        distinct(s) ==> distinct(flushed(s, scope)),
    decreases s.len(),
{
    if s.len() > 0 {
        let rest = s.skip(1);
        let f = flushed(rest, scope);
        let g = flushed(s, scope);
        let d = if s[0].0.scope == scope { 0int } else { 1int };
        lemma_flushed(rest, scope);
        assert forall|i: int| 0 <= i < g.len() implies (#[trigger] g[i]).0.scope != scope && s.contains(g[i]) by {
            if i >= d {
                assert(f[i - d] == g[i]);
                let j = choose|j: int| 0 <= j < rest.len() && rest[j] == f[i - d];
                assert(s[j + 1] == g[i]);
            } else {
                assert(s[0] == g[i]);
            }
        }
        assert forall|i: int| 0 <= i < s.len() && (#[trigger] s[i]).0.scope != scope implies g.contains(s[i]) by {
            if i > 0 {
                assert(rest[i - 1] == s[i]);
                let j = choose|j: int| 0 <= j < f.len() && f[j] == rest[i - 1];
                assert(g[j + d] == s[i]);
            } else {
                assert(g[0] == s[0]);
            }
        }
        if distinct(s) {
            assert(distinct(rest)) by {
                assert forall|i: int, j: int| 0 <= i < j < rest.len() implies (#[trigger] rest[i]).0 != (
                #[trigger] rest[j]).0 by {
                    assert(s[i + 1].0 != s[j + 1].0);
                }
            }
            assert forall|i: int, j: int| 0 <= i < j < g.len() implies (#[trigger] g[i]).0 != (#[trigger] g[j]).0 by {
                if i >= d {
                    assert(f[i - d].0 != f[j - d].0);
                } else {
                    assert(rest.contains(f[j - d]));
                    let at = choose|at: int| 0 <= at < rest.len() && rest[at] == f[j - d];
                    assert(s[0].0 != s[at + 1].0);
                }
            }
        }
    }
}

/// The answer cache.
pub struct Cache {
    entries: Vec<(CacheKey, Entry)>,
}

spec fn entries_view(v: Seq<(CacheKey, Entry)>) -> Entries {
    Seq::new(v.len(), |i: int| (v[i].0@, v[i].1@))
}

impl View for Cache {
    type V = Entries;

    closed spec fn view(&self) -> Entries {
        entries_view(self.entries@)
    }
}

impl Default for Cache {
    fn default() -> (r: Cache)
        ensures
            r@ == Seq::<(CacheKeyView, EntryView)>::empty(),
    {
        Cache::new()
    }
}

impl Cache {
    #[verifier::type_invariant]
    spec fn inv(&self) -> bool {
        distinct(entries_view(self.entries@)) && self.entries@.len() <= MAX_ENTRIES
    }

    pub fn new() -> (r: Cache)
        ensures
            r@ == Seq::<(CacheKeyView, EntryView)>::empty(),
    {
        let r = Cache { entries: Vec::new() };
        assert(r@ =~= Seq::empty());
        r
    }

    /// How many entries there are: never more than the ceiling.
    pub fn len(&self) -> (n: usize)
        ensures
            n == self@.len(),
            n <= MAX_ENTRIES,
    {
        proof {
            use_type_invariant(self);
        }
        self.entries.len()
    }

    /// Every entry is under a key of its own.
    pub fn checked(&self)
        ensures
            distinct(self@),
            self@.len() <= MAX_ENTRIES,
    {
        proof {
            use_type_invariant(self);
        }
    }

    fn place(&self, key: &CacheKey) -> (p: usize)
        ensures
            p == place(self@, key@),
    {
        let mut i: usize = 0;
        while i < self.entries.len()
            invariant
                i <= self.entries@.len(),
                place(self@, key@) == place_from(self@, key@, i as int),
            decreases self.entries@.len() - i,
        {
            assert(self@[i as int] == (self.entries@[i as int].0@, self.entries@[i as int].1@));
            if self.entries[i].0.same(key) {
                return i;
            }
            i += 1;
        }
        i
    }

    /// A live entry, with its records' TTLs reduced by the time in cache.
    pub fn get(&self, key: &CacheKey, now: Instant) -> (r: Option<Entry>)
        ensures
            match cached(self@, key@, now) {
                Some(e) => r matches Some(entry) && entry@ == e,
                None => r is None,
            },
    {
        let p: usize = self.place(key);
        if p >= self.entries.len() {
            return None;
        }
        assert(self@[p as int] == (self.entries@[p as int].0@, self.entries@[p as int].1@));
        let e = &self.entries[p].1;
        if e.expires <= now {
            return None;
        }
        let seconds: u64 = if now <= e.stored {
            0
        } else {
            (now - e.stored) / SECOND
        };
        let mut records: Vec<Record> = Vec::new();
        let ghost all = records_view(e.records@);
        let mut i: usize = 0;
        while i < e.records.len()
            invariant
                i <= e.records@.len(),
                all == records_view(e.records@),
                records@.len() == i,
                forall|j: int| 0 <= j < i ==> #[trigger] records@[j]@ == aged(all, seconds as int)[j],
            decreases e.records@.len() - i,
        {
            let mut record = e.records[i].clone();
            record.ttl = if record.ttl as u64 > seconds {
                record.ttl - seconds as u32
            } else {
                0
            };
            records.push(record);
            i += 1;
        }
        assert(records_view(records@) =~= aged(all, seconds as int));
        Some(
            Entry {
                outcome: e.outcome,
                records,
                rcode: e.rcode,
                server: e.server,
                stored: e.stored,
                expires: e.expires,
            },
        )
    }

    fn soonest(&self) -> (p: usize)
        requires
            self@.len() > 0,
        ensures
            p == soonest(self@),
            p < self@.len(),
    {
        let n: usize = self.entries.len();
        let mut i: usize = n - 1;
        let mut p: usize = i;
        while i > 0
            invariant
                i < n == self.entries@.len(),
                p < n,
                p == soonest_from(self@, i as int),
            decreases i,
        {
            i -= 1;
            assert(self@[i as int].1.expires == self.entries@[i as int].1.expires);
            assert(self@[p as int].1.expires == self.entries@[p as int].1.expires);
            if self.entries[i].1.expires <= self.entries[p].1.expires {
                p = i;
            }
        }
        p
    }

    pub fn insert(&mut self, key: CacheKey, entry: Entry)
        ensures
            final(self)@ == inserted(old(self)@, key@, entry@),
    {
        proof {
            use_type_invariant(&*self);
            lemma_inserted_distinct(self@, key@, entry@);
            lemma_place(self@, key@);
        }
        let ghost before = self@;
        let p: usize = self.place(&key);
        let full: bool = self.entries.len() >= MAX_ENTRIES;
        let victim: usize = if full {
            self.soonest()
        } else {
            0
        };
        let mut entries: Vec<(CacheKey, Entry)> = Vec::new();
        std::mem::swap(&mut entries, &mut self.entries);
        let ghost k = key@;
        let ghost e = entry@;
        if p < entries.len() {
            entries.set(p, (key, entry));
        } else {
            if full {
                entries.remove(victim);
            }
            entries.push((key, entry));
        }
        assert(entries_view(entries@) =~= inserted(before, k, e));
        self.entries = entries;
    }

    /// Drop what a scope answered.
    pub fn flush_scope(&mut self, scope: &str)
        ensures
            final(self)@ == flushed(old(self)@, scope@),
    {
        proof {
            use_type_invariant(&*self);
        }
        let ghost all = self@;
        let mut entries: Vec<(CacheKey, Entry)> = Vec::new();
        std::mem::swap(&mut entries, &mut self.entries);
        // The entries that stay, the last one first.
        let mut stay: Vec<(CacheKey, Entry)> = Vec::new();
        assert(entries_view(entries@) =~= all.take(all.len() as int));
        assert(all.skip(all.len() as int) =~= Seq::empty());
        assert(entries_view(stay@).reverse() =~= Seq::empty());
        while entries.len() > 0
            invariant
                entries@.len() <= all.len(),
                entries_view(entries@) == all.take(entries@.len() as int),
                entries_view(stay@).reverse() == flushed(all.skip(entries@.len() as int), scope@),
            decreases entries@.len(),
        {
            let last = entries.pop().unwrap();
            let ghost n = entries@.len() as int;
            let ghost before = entries_view(stay@);
            let ghost pair = (last.0@, last.1@);
            proof {
                assert(entries_view(entries@) =~= all.take(n));
                assert(all.take(n + 1)[n] == pair);
                assert(all.skip(n).skip(1) =~= all.skip(n + 1));
            }
            if !str_eq(last.0.scope.as_str(), scope) {
                stay.push(last);
                assert(entries_view(stay@) =~= before.push(pair));
                assert(before.push(pair).reverse() =~= seq![pair] + before.reverse());
            }
        }
        assert(all.skip(0) =~= all);
        let ghost backwards = entries_view(stay@);
        let mut kept: Vec<(CacheKey, Entry)> = Vec::new();
        assert(entries_view(kept@) + backwards.reverse() =~= backwards.reverse());
        while stay.len() > 0
            invariant
                entries_view(kept@) + entries_view(stay@).reverse() == backwards.reverse(),
            decreases stay@.len(),
        {
            let next = stay.pop().unwrap();
            let ghost before = entries_view(kept@);
            let ghost left = entries_view(stay@);
            let ghost pair = (next.0@, next.1@);
            kept.push(next);
            assert(entries_view(kept@) =~= before.push(pair));
            assert(left.push(pair).reverse() =~= seq![pair] + left.reverse());
            assert(entries_view(kept@) + left.reverse() =~= before + (seq![pair] + left.reverse()));
        }
        assert(entries_view(kept@) =~= flushed(all, scope@));
        proof {
            lemma_flushed(all, scope@);
        }
        self.entries = kept;
    }

    pub fn clear(&mut self)
        ensures
            final(self)@ == Seq::<(CacheKeyView, EntryView)>::empty(),
    {
        self.entries = Vec::new();
        assert(self@ =~= Seq::empty());
    }
}

// What the cache promises.

proof fn lemma_place_is(s: Entries, k: CacheKeyView, p: int)
    requires
        distinct(s),
        0 <= p < s.len(),
        s[p].0 == k,
    ensures
        place(s, k) == p,
{
    lemma_place(s, k);
    let q = place(s, k);
    assert(q <= p);
    if q < p {
        assert(s[q].0 != s[p].0);
    }
}

/// What was put under a key is what is found there, until it expires.
pub proof fn law_inserted_is_found(s: Entries, k: CacheKeyView, e: EntryView, now: Instant)
    requires
        distinct(s),
        s.len() <= MAX_ENTRIES,
    ensures
        cached(inserted(s, k, e), k, now) == if e.expires <= now {
            None
        } else {
            Some(EntryView { records: aged(e.records, seconds_in(e.stored, now)), ..e })
        },
{
    let t = inserted(s, k, e);
    lemma_inserted_distinct(s, k, e);
    lemma_place(s, k);
    if s.len() > 0 {
        lemma_soonest_from(s, 0);
    }
    let p = if place(s, k) < s.len() {
        place(s, k)
    } else {
        t.len() - 1
    };
    lemma_place_is(t, k, p);
}

/// Putting an entry under a key leaves what is found under every other key,
/// unless the cache was full and the entry displaced it.
pub proof fn law_insert_keeps_others(s: Entries, k: CacheKeyView, e: EntryView, other: CacheKeyView, now: Instant)
    requires
        distinct(s),
        s.len() <= MAX_ENTRIES,
        other != k,
        holds(s, k) || s.len() < MAX_ENTRIES || other != s[soonest(s)].0,
    ensures
        cached(inserted(s, k, e), other, now) == cached(s, other, now),
{
    let t = inserted(s, k, e);
    lemma_inserted_distinct(s, k, e);
    lemma_place(s, k);
    lemma_place(s, other);
    lemma_place(t, other);
    if s.len() > 0 {
        lemma_soonest_from(s, 0);
    }
    let v = soonest(s);
    let evicted = place(s, k) == s.len() && s.len() >= MAX_ENTRIES;
    let p = place(s, other);
    if p < s.len() {
        let q = if evicted && p > v {
            p - 1
        } else {
            p
        };
        assert(t[q] == s[p]);
        lemma_place_is(t, other, q);
    } else {
        let q = place(t, other);
        if q < t.len() {
            if q != t.len() - 1 || place(s, k) < s.len() {
                let r = if evicted && q >= v {
                    q + 1
                } else {
                    q
                };
                assert(t[q].0 == s[r].0);
            }
        }
    }
}

/// What a full cache loses for a new key expires no later than anything else
/// it holds.
pub proof fn law_eviction_takes_the_soonest(s: Entries, k: CacheKeyView, e: EntryView)
    requires
        distinct(s),
        s.len() == MAX_ENTRIES,
        !holds(s, k),
    ensures
        inserted(s, k, e).len() == MAX_ENTRIES,
        0 <= soonest(s) < s.len(),
        inserted(s, k, e) == s.remove(soonest(s)).push((k, e)),
        forall|i: int| 0 <= i < s.len() ==> s[soonest(s)].1.expires <= (#[trigger] s[i]).1.expires,
{
    lemma_place(s, k);
    lemma_soonest_from(s, 0);
}

/// Nothing that a scope answered is found after its entries go, and every
/// other entry is found as before.
pub proof fn law_flush_takes_one_scope(s: Entries, scope: Seq<char>, k: CacheKeyView, now: Instant)
    requires
        distinct(s),
    ensures
        k.scope == scope ==> cached(flushed(s, scope), k, now) is None,
        k.scope != scope ==> cached(flushed(s, scope), k, now) == cached(s, k, now),
{
    let f = flushed(s, scope);
    lemma_flushed(s, scope);
    lemma_place(s, k);
    lemma_place(f, k);
    let p = place(s, k);
    let q = place(f, k);
    if k.scope == scope {
        if q < f.len() {
            assert(f[q].0.scope != scope);
        }
    } else if p < s.len() {
        assert(f.contains(s[p]));
        let r = choose|r: int| 0 <= r < f.len() && f[r] == s[p];
        lemma_place_is(f, k, r);
    } else if q < f.len() {
        assert(s.contains(f[q]));
        let r = choose|r: int| 0 <= r < s.len() && s[r] == f[q];
        assert(s[r].0 == k);
    }
}

/// A record that was put in with a TTL no shorter than its entry's life comes
/// out with that TTL less the time in cache, and with nothing else changed; so
/// does every record whose TTL is not used up, and none comes out with more.
pub proof fn law_cached_ttls_count_down(s: Entries, k: CacheKeyView, e: EntryView, now: Instant)
    requires
        distinct(s),
        s.len() <= MAX_ENTRIES,
        e.stored <= now < e.expires,
    ensures
        cached(inserted(s, k, e), k, now) matches Some(c) && ({
            let seconds = (now - e.stored) / (SECOND as int);
            &&& c == EntryView { records: c.records, ..e }
            &&& c.records.len() == e.records.len()
            &&& forall|i: int|
                0 <= i < e.records.len() ==> (#[trigger] c.records[i]) == (RecordView {
                    ttl: c.records[i].ttl,
                    ..e.records[i]
                }) && c.records[i].ttl <= e.records[i].ttl && (e.records[i].ttl >= seconds ==> c.records[i].ttl
                    == e.records[i].ttl - seconds) && (e.records[i].ttl * SECOND >= e.expires - e.stored
                    ==> e.records[i].ttl >= seconds)
        }),
{
    law_inserted_is_found(s, k, e, now);
    let c = cached(inserted(s, k, e), k, now)->0;
    let seconds = (now - e.stored) / (SECOND as int);
    assert(seconds * SECOND <= now - e.stored);
    assert forall|i: int| 0 <= i < e.records.len() implies (#[trigger] c.records[i]) == (RecordView {
        ttl: c.records[i].ttl,
        ..e.records[i]
    }) && c.records[i].ttl <= e.records[i].ttl && (e.records[i].ttl >= seconds ==> c.records[i].ttl
        == e.records[i].ttl - seconds) && (e.records[i].ttl * SECOND >= e.expires - e.stored ==> e.records[i].ttl
        >= seconds) by {}
}

} // verus!
