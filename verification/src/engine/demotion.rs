//! Servers that are tried last after they failed.
use crate::addr::IpAddr;
use crate::protocol::views;
use crate::time::Instant;
use vstd::prelude::*;

verus! {

/// Servers, and until when each is demoted.
pub struct Demotions {
    rows: Vec<(IpAddr, Instant)>,
}

spec fn place_of(rows: Seq<(IpAddr, Instant)>, a: Seq<u8>) -> int {
    choose|i: int| 0 <= i < rows.len() && (#[trigger] rows[i]).0@ == a
}

spec fn contents(rows: Seq<(IpAddr, Instant)>) -> Map<Seq<u8>, Instant> {
    Map::new(
        |a: Seq<u8>| exists|i: int| 0 <= i < rows.len() && (#[trigger] rows[i]).0@ == a,
        |a: Seq<u8>| rows[place_of(rows, a)].1,
    )
}

spec fn distinct(rows: Seq<(IpAddr, Instant)>) -> bool {
    forall|i: int, j: int| 0 <= i < j < rows.len() ==> (#[trigger] rows[i]).0@ != (#[trigger] rows[j]).0@
}

proof fn lemma_contents(rows: Seq<(IpAddr, Instant)>)
    requires
        distinct(rows),
    ensures
        forall|i: int|
            0 <= i < rows.len() ==> contents(rows).contains_key((#[trigger] rows[i]).0@) && contents(
                rows,
            )[rows[i].0@] == rows[i].1,
{
    assert forall|i: int| 0 <= i < rows.len() implies contents(rows).contains_key((#[trigger] rows[i]).0@)
        && contents(rows)[rows[i].0@] == rows[i].1 by {
        let j = place_of(rows, rows[i].0@);
        assert(rows[j].0@ == rows[i].0@);
        if i < j {
            assert(rows[i].0@ != rows[j].0@);
        } else if j < i {
            assert(rows[j].0@ != rows[i].0@);
        }
    }
}

impl View for Demotions {
    type V = Map<Seq<u8>, Instant>;

    closed spec fn view(&self) -> Map<Seq<u8>, Instant> {
        contents(self.rows@)
    }
}

/// Whether a server is demoted.
pub open spec fn is_demoted(m: Map<Seq<u8>, Instant>, server: Seq<u8>, now: Instant) -> bool {
    m.contains_key(server) && m[server] > now
}

/// The servers that are demoted, or those that are not, in their order.
pub open spec fn sieve(s: Seq<Seq<u8>>, m: Map<Seq<u8>, Instant>, now: Instant, demoted: bool) -> Seq<Seq<u8>>
    decreases s.len(),
{
    if s.len() == 0 {
        Seq::empty()
    } else if is_demoted(m, s.last(), now) == demoted {
        sieve(s.drop_last(), m, now, demoted).push(s.last())
    } else {
        sieve(s.drop_last(), m, now, demoted)
    }
}

/// Servers in the order they are tried: healthy ones first.
pub open spec fn healthy_first(s: Seq<Seq<u8>>, m: Map<Seq<u8>, Instant>, now: Instant) -> Seq<Seq<u8>> {
    sieve(s, m, now, false) + sieve(s, m, now, true)
}

impl Demotions {
    #[verifier::type_invariant]
    spec fn inv(&self) -> bool {
        distinct(self.rows@)
    }

    pub fn new() -> (r: Demotions)
        ensures
            r@ == Map::<Seq<u8>, Instant>::empty(),
    {
        let r = Demotions { rows: Vec::new() };
        assert(r@ =~= Map::<Seq<u8>, Instant>::empty());
        r
    }

    /// The place of a server, or the length where it has none.
    fn place(&self, server: &IpAddr) -> (p: usize)
        ensures
            p <= self.rows@.len(),
            p < self.rows@.len() ==> self.rows@[p as int].0@ == server@,
            self@.contains_key(server@) <==> p < self.rows@.len(),
            p < self.rows@.len() ==> self@[server@] == self.rows@[p as int].1,
    {
        proof {
            use_type_invariant(self);
            lemma_contents(self.rows@);
        }
        let mut i: usize = 0;
        while i < self.rows.len()
            invariant
                i <= self.rows@.len(),
                distinct(self.rows@),
                forall|j: int| 0 <= j < i ==> (#[trigger] self.rows@[j]).0@ != server@,
            decreases self.rows@.len() - i,
        {
            if self.rows[i].0.same(server) {
                proof {
                    lemma_contents(self.rows@);
                    assert(contents(self.rows@).contains_key(self.rows@[i as int].0@));
                }
                return i;
            }
            i += 1;
        }
        i
    }

    pub fn is_demoted(&self, server: &IpAddr, now: Instant) -> (r: bool)
        ensures
            r == is_demoted(self@, server@, now),
    {
        let p: usize = self.place(server);
        p < self.rows.len() && self.rows[p].1 > now
    }

    /// Demote a server until a moment.
    pub fn insert(&mut self, server: IpAddr, until: Instant)
        ensures
            final(self)@ == old(self)@.insert(server@, until),
    {
        self.remove(&server);
        proof {
            use_type_invariant(&*self);
            lemma_contents(self.rows@);
        }
        let ghost before = self.rows@;
        assert forall|i: int| 0 <= i < before.len() implies (#[trigger] before[i]).0@ != server@ by {
            assert(contents(before).contains_key(before[i].0@));
        }
        let mut rows: Vec<(IpAddr, Instant)> = Vec::new();
        std::mem::swap(&mut rows, &mut self.rows);
        rows.push((server, until));
        proof {
            let after = rows@;
            assert(distinct(after)) by {
                assert forall|i: int, j: int| 0 <= i < j < after.len() implies (#[trigger] after[i]).0@ != (
                #[trigger] after[j]).0@ by {
                    assert(before[i].0@ != server@);
                    if j < before.len() {
                        assert(before[i].0@ != before[j].0@);
                    }
                }
            }
            lemma_contents(after);
            assert forall|a: Seq<u8>| contents(after).contains_key(a) <==> contents(before).insert(
                server@,
                until,
            ).contains_key(a) by {
                if contents(after).contains_key(a) && a != server@ {
                    let i = choose|i: int| 0 <= i < after.len() && (#[trigger] after[i]).0@ == a;
                    assert(before[i].0@ == a);
                }
                if contents(before).contains_key(a) {
                    let i = choose|i: int| 0 <= i < before.len() && (#[trigger] before[i]).0@ == a;
                    assert(after[i].0@ == a);
                }
                assert(after[before.len() as int].0@ == server@);
            }
            assert forall|a: Seq<u8>| contents(after).contains_key(a) implies #[trigger] contents(after)[a]
                == contents(before).insert(server@, until)[a] by {
                let i = choose|i: int| 0 <= i < after.len() && (#[trigger] after[i]).0@ == a;
                assert(contents(after)[after[i].0@] == after[i].1);
                if i < before.len() {
                    assert(before[i] == after[i]);
                    assert(contents(before)[before[i].0@] == before[i].1);
                }
            }
            assert(contents(after) =~= contents(before).insert(server@, until));
            assert(contents(before).insert(server@, until) =~= old(self)@.insert(server@, until));
        }
        self.rows = rows;
    }

    /// Forget that a server was demoted.
    pub fn remove(&mut self, server: &IpAddr)
        ensures
            final(self)@ == old(self)@.remove(server@),
    {
        proof {
            use_type_invariant(&*self);
            lemma_contents(self.rows@);
        }
        let p: usize = self.place(server);
        let ghost before = self.rows@;
        if p >= self.rows.len() {
            assert(old(self)@.remove(server@) =~= old(self)@);
            return ;
        }
        let mut rows: Vec<(IpAddr, Instant)> = Vec::new();
        std::mem::swap(&mut rows, &mut self.rows);
        rows.remove(p);
        proof {
            let after = rows@;
            assert(distinct(after)) by {
                assert forall|i: int, j: int| 0 <= i < j < after.len() implies (#[trigger] after[i]).0@ != (
                #[trigger] after[j]).0@ by {
                    let x = if i < p { i } else { i + 1 };
                    let y = if j < p { j } else { j + 1 };
                    assert(before[x].0@ != before[y].0@);
                }
            }
            lemma_contents(after);
            assert forall|a: Seq<u8>| contents(after).contains_key(a) <==> contents(before).remove(
                server@,
            ).contains_key(a) by {
                if contents(after).contains_key(a) {
                    let i = choose|i: int| 0 <= i < after.len() && (#[trigger] after[i]).0@ == a;
                    let x = if i < p { i } else { i + 1 };
                    assert(before[x].0@ == a);
                    if x < p {
                        assert(before[x].0@ != before[p as int].0@);
                    } else {
                        assert(before[p as int].0@ != before[x].0@);
                    }
                }
                if contents(before).contains_key(a) && a != server@ {
                    let i = choose|i: int| 0 <= i < before.len() && (#[trigger] before[i]).0@ == a;
                    let x = if i < p { i } else { i - 1 };
                    assert(after[x].0@ == a);
                }
            }
            assert forall|a: Seq<u8>| contents(after).contains_key(a) implies #[trigger] contents(after)[a]
                == contents(before).remove(server@)[a] by {
                let i = choose|i: int| 0 <= i < after.len() && (#[trigger] after[i]).0@ == a;
                assert(contents(after)[after[i].0@] == after[i].1);
                let x = if i < p { i } else { i + 1 };
                assert(before[x] == after[i]);
                assert(contents(before)[before[x].0@] == before[x].1);
            }
            assert(contents(after) =~= contents(before).remove(server@));
        }
        self.rows = rows;
    }

    /// The servers that are demoted now, each once, in no promised order.
    pub fn active(&self, now: Instant) -> (r: Vec<IpAddr>)
        ensures
            views(r@).no_duplicates(),
            forall|a: Seq<u8>| #[trigger] views(r@).contains(a) <==> is_demoted(self@, a, now),
    {
        proof {
            use_type_invariant(self);
            lemma_contents(self.rows@);
        }
        let mut out: Vec<IpAddr> = Vec::new();
        let mut i: usize = 0;
        while i < self.rows.len()
            invariant
                i <= self.rows@.len(),
                distinct(self.rows@),
                views(out@).no_duplicates(),
                forall|a: Seq<u8>| #[trigger]
                    views(out@).contains(a) <==> exists|j: int|
                        0 <= j < i && (#[trigger] self.rows@[j]).0@ == a && self.rows@[j].1 > now,
            decreases self.rows@.len() - i,
        {
            let (server, until): (IpAddr, Instant) = self.rows[i];
            let ghost before = views(out@);
            if until > now {
                assert(!before.contains(server@)) by {
                    if before.contains(server@) {
                        let j = choose|j: int|
                            0 <= j < i && (#[trigger] self.rows@[j]).0@ == server@ && self.rows@[j].1 > now;
                        assert(self.rows@[j].0@ != self.rows@[i as int].0@);
                    }
                }
                out.push(server);
                assert(views(out@) =~= before.push(server@));
            }
            assert forall|a: Seq<u8>| #[trigger] views(out@).contains(a) <==> exists|j: int|
                0 <= j < i + 1 && (#[trigger] self.rows@[j]).0@ == a && self.rows@[j].1 > now by {
                if views(out@).contains(a) {
                    if before.contains(a) {
                        let j = choose|j: int|
                            0 <= j < i && (#[trigger] self.rows@[j]).0@ == a && self.rows@[j].1 > now;
                        assert(self.rows@[j].0@ == a);
                    } else {
                        assert(self.rows@[i as int].0@ == a);
                    }
                }
                if exists|j: int| 0 <= j < i + 1 && (#[trigger] self.rows@[j]).0@ == a && self.rows@[j].1 > now {
                    let j = choose|j: int|
                        0 <= j < i + 1 && (#[trigger] self.rows@[j]).0@ == a && self.rows@[j].1 > now;
                    if j < i {
                        assert(before.contains(a));
                        let k = choose|k: int| 0 <= k < before.len() && before[k] == a;
                        assert(views(out@)[k] == a);
                    } else {
                        assert(views(out@)[before.len() as int] == a);
                    }
                }
            }
            i += 1;
        }
        assert forall|a: Seq<u8>| #[trigger] views(out@).contains(a) <==> is_demoted(self@, a, now) by {
            if views(out@).contains(a) {
                let j = choose|j: int|
                    0 <= j < i && (#[trigger] self.rows@[j]).0@ == a && self.rows@[j].1 > now;
                assert(contents(self.rows@)[self.rows@[j].0@] == self.rows@[j].1);
            }
            if is_demoted(self@, a, now) {
                let j = choose|j: int| 0 <= j < self.rows@.len() && (#[trigger] self.rows@[j]).0@ == a;
                assert(contents(self.rows@)[self.rows@[j].0@] == self.rows@[j].1);
            }
        }
        out
    }

    fn sieve(&self, servers: &Vec<IpAddr>, now: Instant, demoted: bool, out: &mut Vec<IpAddr>)
        ensures
            views(final(out)@) == views(old(out)@) + sieve(views(servers@), self@, now, demoted),
    {
        let ghost s = views(servers@);
        let ghost start = views(out@);
        let mut i: usize = 0;
        assert(views(out@) =~= start + sieve(s.take(0), self@, now, demoted));
        while i < servers.len()
            invariant
                i <= servers@.len(),
                s == views(servers@),
                views(out@) == start + sieve(s.take(i as int), self@, now, demoted),
            decreases servers@.len() - i,
        {
            assert(s.take(i + 1).drop_last() =~= s.take(i as int));
            assert(s[i as int] == servers@[i as int]@);
            let server = servers[i];
            let ghost before = views(out@);
            if self.is_demoted(&server, now) == demoted {
                out.push(server);
                assert(views(out@) =~= before.push(server@));
            }
            assert(views(out@) =~= start + sieve(s.take(i + 1), self@, now, demoted));
            i += 1;
        }
        assert(s.take(i as int) =~= s);
    }

    /// Servers in the order they are tried: healthy ones first.
    pub fn healthy_first(&self, servers: &Vec<IpAddr>, now: Instant) -> (r: Vec<IpAddr>)
        ensures
            views(r@) == healthy_first(views(servers@), self@, now),
    {
        let mut out: Vec<IpAddr> = Vec::new();
        assert(views(out@) =~= Seq::empty());
        self.sieve(servers, now, false, &mut out);
        self.sieve(servers, now, true, &mut out);
        assert(views(out@) =~= healthy_first(views(servers@), self@, now));
        out
    }
}

} // verus!
