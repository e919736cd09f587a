//! What a program reads in the structures that it is handed.
use crate::nss::buffer::{
    aligned, pointed, tuple_places, tuple_puts, with_bytes, with_pointers, with_string, with_tuples, PackerView,
    PutView, Puts, Shape,
};
use crate::nss::{
    address_start, address_ttls, addresses_of, any_start, empty_buffer, failure_of, hostent_of, is_timeout, least,
    localhost_text, lookup_got, lowered, named_hostent, named_layout, names_localhost, octets_of, one_start,
    pointer_names, record_ttls, reverse_got, tuples_of, undotted, with_addresses, with_aliases, Af, Errno, Failure, Got,
    NssStatus, StartView, ADDRESS_ALIGN,
};
use crate::protocol::{
    AddressOutView, AddressesView, AnswerView, Ask, Family, Fault, IoKind, Outcome, RecordOutView, ReplyView,
};
use crate::text::lower;
use vstd::arithmetic::div_mod::lemma_mod_multiples_basic;
use vstd::prelude::*;
use vstd::utf8::*;

verus! {

// Room.

proof fn lemma_next_multiple(n: nat, align: nat)
    requires
        align > 0,
    ensures
        n <= aligned(n, align) < n + align,
        aligned(n, align) % align == 0,
{
    let q = n / align;
    assert(n == align * q + n % align && n % align < align) by (nonlinear_arith)
        requires
            align > 0,
            q == n / align,
    ;
    if n % align != 0 {
        assert(aligned(n, align) == (q + 1) * align) by (nonlinear_arith)
            requires
                aligned(n, align) == n - n % align + align,
                n == align * q + n % align,
        ;
        lemma_mod_multiples_basic(q as int + 1, align as int);
    }
}

/// Whether a place is a multiple of an alignment.
pub open spec fn stands_on(at: nat, align: nat) -> bool {
    at % align == 0
}

/// A string is written as it is with a zero behind it, at the next free place; so
/// it is where it holds no zero and there is room.
pub proof fn law_strings_end_in_zero(p: PackerView, s: Seq<u8>)
    ensures
        with_string(p, s) is Some <==> (forall|i: int| 0 <= i < s.len() ==> s[i] != 0) && p.used + s.len() + 1 <= p.len,
        with_string(p, s) matches Some((q, at)) ==> {
            &&& at == p.used
            &&& q.used == p.used + s.len() + 1
            &&& q.len == p.len
            &&& q.puts == p.puts.push(PutView::Bytes { at, bytes: s + seq![0u8] })
        },
{
    assert(p.used % 1 == 0);
    assert(s.push(0u8) =~= s + seq![0u8]);
    if s.contains(0u8) {
        let i = choose|i: int| 0 <= i < s.len() && s[i] == 0u8;
        assert(s[i] == 0);
    }
}

// Hosts.

/// Whether the things written from one on are some byte strings, each followed by
/// a pointer to it, the pointers being one behind the other.
pub open spec fn listed(puts: Puts, from: int, list: nat, pointer: nat, align: nat, items: Seq<Seq<u8>>) -> bool {
    &&& from + 2 * items.len() <= puts.len()
    &&& forall|k: int| 0 <= k < items.len() ==> #[trigger] is_listed(puts, from, list, pointer, align, items, k)
}

/// Whether one of the byte strings is written, and the pointer to it.
pub open spec fn is_listed(
    puts: Puts,
    from: int,
    list: nat,
    pointer: nat,
    align: nat,
    items: Seq<Seq<u8>>,
    k: int,
) -> bool {
    exists|at: nat|
        {
            &&& #[trigger] stands_on(at, align)
            &&& puts[from + 2 * k] == (PutView::Bytes { at, bytes: items[k] })
            &&& puts[from + 2 * k + 1] == (PutView::Pointer { at: (list + k * pointer) as nat, to: at })
        }
}

proof fn lemma_is_listed(
    puts: Puts,
    from: int,
    list: nat,
    pointer: nat,
    align: nat,
    items: Seq<Seq<u8>>,
    k: int,
    at: nat,
)
    requires
        stands_on(at, align),
        puts[from + 2 * k] == (PutView::Bytes { at, bytes: items[k] }),
        puts[from + 2 * k + 1] == (PutView::Pointer { at: (list + k * pointer) as nat, to: at }),
    ensures
        is_listed(puts, from, list, pointer, align, items, k),
{
}

/// What is listed stays listed when more is written, for more items.
proof fn lemma_listed_further(
    puts: Puts,
    more: Puts,
    from: int,
    list: nat,
    pointer: nat,
    align: nat,
    items: Seq<Seq<u8>>,
    others: Seq<Seq<u8>>,
    k: int,
)
    requires
        listed(puts, from, list, pointer, align, items),
        0 <= k < items.len(),
        0 <= from,
        puts.len() <= more.len(),
        more.take(puts.len() as int) == puts,
        items[k] == others[k],
    ensures
        is_listed(more, from, list, pointer, align, others, k),
{
    assert(is_listed(puts, from, list, pointer, align, items, k));
    let at = choose|at: nat|
        {
            &&& #[trigger] stands_on(at, align)
            &&& puts[from + 2 * k] == (PutView::Bytes { at, bytes: items[k] })
            &&& puts[from + 2 * k + 1] == (PutView::Pointer { at: (list + k * pointer) as nat, to: at })
        };
    assert(more.take(puts.len() as int)[from + 2 * k] == more[from + 2 * k]);
    assert(more.take(puts.len() as int)[from + 2 * k + 1] == more[from + 2 * k + 1]);
    lemma_is_listed(more, from, list, pointer, align, others, k, at);
}

proof fn lemma_addresses_listed(p: PackerView, list: nat, a: Seq<Seq<u8>>, pointer: nat)
    ensures
        with_addresses(p, list, a, pointer) matches Some(q) ==> {
            &&& q.puts.len() == p.puts.len() + 2 * a.len()
            &&& q.puts.take(p.puts.len() as int) == p.puts
            &&& listed(q.puts, p.puts.len() as int, list, pointer, 4, a)
        },
    decreases a.len(),
{
    if with_addresses(p, list, a, pointer) is Some {
        let from = p.puts.len() as int;
        if a.len() == 0 {
            assert(p.puts.take(from) =~= p.puts);
        } else {
            lemma_addresses_listed(p, list, a.drop_last(), pointer);
            let q = with_addresses(p, list, a.drop_last(), pointer)->0;
            let (r, at) = with_bytes(q, a.last(), ADDRESS_ALIGN as nat)->0;
            let n = a.len() - 1;
            lemma_next_multiple(q.used, 4);
            let s = pointed(r, list + n as nat * pointer, at);
            assert(s.puts.take(from) =~= q.puts.take(from));
            assert(s.puts.take(q.puts.len() as int) =~= q.puts);
            assert forall|k: int| 0 <= k < a.len() implies #[trigger] is_listed(s.puts, from, list, pointer, 4, a, k) by {
                if k < n {
                    lemma_listed_further(q.puts, s.puts, from, list, pointer, 4, a.drop_last(), a, k);
                } else {
                    assert(list + n as nat * pointer == (list + k * pointer) as nat);
                    lemma_is_listed(s.puts, from, list, pointer, 4, a, k, at);
                }
            }
        }
    }
}

proof fn lemma_aliases_listed(p: PackerView, list: nat, names: Seq<Seq<u8>>, pointer: nat)
    ensures
        with_aliases(p, list, names, pointer) matches Some(q) ==> {
            &&& q.puts.len() == p.puts.len() + 2 * names.len()
            &&& q.puts.take(p.puts.len() as int) == p.puts
            &&& listed(q.puts, p.puts.len() as int, list, pointer, 1, ended(names))
        },
    decreases names.len(),
{
    if with_aliases(p, list, names, pointer) is Some {
        let from = p.puts.len() as int;
        if names.len() == 0 {
            assert(p.puts.take(from) =~= p.puts);
        } else {
            lemma_aliases_listed(p, list, names.drop_last(), pointer);
            let q = with_aliases(p, list, names.drop_last(), pointer)->0;
            law_strings_end_in_zero(q, names.last());
            let (r, at) = with_string(q, names.last())->0;
            let n = names.len() - 1;
            let s = pointed(r, list + n as nat * pointer, at);
            assert(s.puts.take(from) =~= q.puts.take(from));
            assert(s.puts.take(q.puts.len() as int) =~= q.puts);
            assert forall|k: int| 0 <= k < names.len() implies #[trigger] is_listed(
                s.puts,
                from,
                list,
                pointer,
                1,
                ended(names),
                k,
            ) by {
                if k < n {
                    lemma_listed_further(
                        q.puts,
                        s.puts,
                        from,
                        list,
                        pointer,
                        1,
                        ended(names.drop_last()),
                        ended(names),
                        k,
                    );
                } else {
                    assert(list + n as nat * pointer == (list + k * pointer) as nat);
                    assert(at % 1 == 0);
                    lemma_is_listed(s.puts, from, list, pointer, 1, ended(names), k, at);
                }
            }
        }
    }
}

/// Strings with a zero behind each.
pub open spec fn ended(names: Seq<Seq<u8>>) -> Seq<Seq<u8>> {
    Seq::new(names.len(), |i: int| names[i] + seq![0u8])
}

/// A program reads in the structure of a host the host's name, no alias, and every
/// address in order, each by a pointer of a list that ends in one to nothing.
pub proof fn law_hosts_are_read(a: AddressesView, len: usize, pointer: usize)
    requires
        pointer > 0,
    ensures
        hostent_of(a, len, pointer) matches Some(h) ==> {
            let n = a.addresses.len();
            &&& h.puts.len() == 3 + 2 * n
            &&& h.puts[0] == (PutView::Bytes { at: h.name, bytes: encode_utf8(a.canonical) + seq![0u8] })
            &&& h.puts[1] == (PutView::Nulls { at: h.aliases, count: 2 })
            &&& h.puts[2] == (PutView::Nulls { at: h.addr_list, count: n + 2 })
            &&& listed(
                h.puts,
                3,
                h.addr_list,
                pointer as nat,
                4,
                a.addresses.map_values(|x: AddressOutView| x.address),
            )
            &&& stands_on(h.aliases, pointer as nat)
            &&& stands_on(h.addr_list, pointer as nat)
        },
{
    if hostent_of(a, len, pointer) is Some {
        let p = empty_buffer(len);
        let w = pointer as nat;
        law_strings_end_in_zero(p, encode_utf8(a.canonical));
        let (p, _) = with_string(p, encode_utf8(a.canonical))->0;
        lemma_next_multiple(p.used, w);
        let (p, _) = with_pointers(p, 1, w)->0;
        lemma_next_multiple(p.used, w);
        let (p, list) = with_pointers(p, a.addresses.len() + 1, w)->0;
        let octets = octets_of(a.addresses);
        lemma_addresses_listed(p, list, octets, w);
        let q = with_addresses(p, list, octets, w)->0;
        assert(octets =~= a.addresses.map_values(|x: AddressOutView| x.address));
        assert(q.puts[0] == q.puts.take(3)[0]);
        assert(q.puts[1] == q.puts.take(3)[1]);
        assert(q.puts[2] == q.puts.take(3)[2]);
    }
}

/// A program reads in the structure of the host that an address is the first of
/// its names, the others as aliases in order, and the address.
pub proof fn law_named_hosts_are_read(a: AnswerView, address: Seq<u8>, len: usize, pointer: usize)
    requires
        pointer > 0,
    ensures
        named_hostent(a, address, len, pointer) matches Ok(h) ==> {
            let names = pointer_names(a.records);
            let n = names.len() - 1;
            &&& n >= 0
            &&& h.puts.len() == 5 + 2 * n
            &&& h.puts[0] == (PutView::Bytes { at: h.name, bytes: names[0] + seq![0u8] })
            &&& h.puts[1] == (PutView::Nulls { at: h.aliases, count: (n + 2) as nat })
            &&& listed(h.puts, 2, h.aliases, pointer as nat, 1, ended(names.skip(1)))
            &&& h.puts[2 + 2 * n] == (PutView::Nulls { at: h.addr_list, count: 3 })
            &&& listed(h.puts, 3 + 2 * n, h.addr_list, pointer as nat, 4, seq![address])
            &&& stands_on(h.aliases, pointer as nat)
            &&& stands_on(h.addr_list, pointer as nat)
        },
        pointer_names(a.records).len() == 0 <==> (named_hostent(a, address, len, pointer) matches Err(f) && f.status
            == NssStatus::NotFound),
{
    let names = pointer_names(a.records);
    if named_hostent(a, address, len, pointer) is Ok {
        let n = names.len() - 1;
        let p = empty_buffer(len);
        let w = pointer as nat;
        law_strings_end_in_zero(p, names[0]);
        let (p, name) = with_string(p, names[0])->0;
        lemma_next_multiple(p.used, w);
        let (p, aliases) = with_pointers(p, names.len(), w)->0;
        lemma_aliases_listed(p, aliases, names.skip(1), w);
        let q = with_aliases(p, aliases, names.skip(1), w)->0;
        assert(q.puts[0] == q.puts.take(2)[0]);
        assert(q.puts[1] == q.puts.take(2)[1]);
        lemma_next_multiple(q.used, w);
        let (r, addr_list) = with_pointers(q, 2, w)->0;
        lemma_next_multiple(r.used, 4);
        let (s, at) = with_bytes(r, address, ADDRESS_ALIGN as nat)->0;
        let t = pointed(s, addr_list, at);
        assert(t.puts.take(q.puts.len() as int) =~= q.puts);
        assert forall|k: int| 0 <= k < n implies #[trigger] is_listed(
            t.puts,
            2,
            aliases,
            w,
            1,
            ended(names.skip(1)),
            k,
        ) by {
            lemma_listed_further(
                q.puts,
                t.puts,
                2,
                aliases,
                w,
                1,
                ended(names.skip(1)),
                ended(names.skip(1)),
                k,
            );
        }
        assert(0 * w == 0);
        assert forall|k: int| 0 <= k < 1 implies #[trigger] is_listed(
            t.puts,
            3 + 2 * n,
            addr_list,
            w,
            4,
            seq![address],
            k,
        ) by {
            lemma_is_listed(t.puts, 3 + 2 * n, addr_list, w, 4, seq![address], k, at);
        }
        assert(named_layout(names, address, len, pointer) == Some((name, aliases, addr_list, t.puts)));
    }
}

// Lists.

/// A program that follows a list from its first address reads every address in
/// order, each with its family and with the host's name.
pub proof fn law_lists_are_read(a: AddressesView, len: usize, shape: Shape)
    ensures
        tuples_of(a, len, shape) matches Some(t) ==> {
            let n = a.addresses.len();
            &&& t.puts.len() == 1 + n
            &&& n == 0 ==> t.first is None
            &&& n > 0 ==> (t.first matches Some(at) && (t.puts[1] matches PutView::Tuple { at: first, .. } && first
                == at))
            &&& t.puts[0] == (PutView::Bytes { at: 0, bytes: encode_utf8(a.canonical) + seq![0u8] })
            &&& forall|k: int|
                0 <= k < n ==> (#[trigger] t.puts[1 + k] matches PutView::Tuple { at: _, next, name, v6, octets } && {
                    &&& name == 0
                    &&& octets == a.addresses[k].address
                    &&& v6 <==> octets.len() != 4
                    &&& k + 1 == n ==> next is None
                    &&& k + 1 < n ==> (next matches Some(at) && (t.puts[1 + (k + 1)] matches PutView::Tuple {
                        at: following,
                        ..
                    } && following == at))
                })
        },
{
    if tuples_of(a, len, shape) is Some {
        let p = empty_buffer(len);
        law_strings_end_in_zero(p, encode_utf8(a.canonical));
        let (p, name) = with_string(p, encode_utf8(a.canonical))->0;
        let addresses = octets_of(a.addresses);
        crate::nss::buffer::lemma_tuple_places(p.used, p.len, addresses.len(), shape);
        let (places, used) = tuple_places(p.used, p.len, addresses.len(), shape)->0;
        let (q, first) = with_tuples(p, name, addresses, shape)->0;
        let new = tuple_puts(places, name, addresses);
        let n = a.addresses.len();
        assert(places.len() == n);
        assert forall|k: int| 0 <= k < n implies #[trigger] q.puts[1 + k] == new[k] by {
            assert(p.puts.len() == 1);
        }
        if n > 0 {
            assert(q.puts[1 + 0int] == new[0]);
        }
        assert forall|k: int| 0 <= k < n implies (#[trigger] q.puts[1 + k] matches PutView::Tuple {
            at: _,
            next,
            name,
            v6,
            octets,
        } && {
            &&& name == 0
            &&& octets == a.addresses[k].address
            &&& v6 <==> octets.len() != 4
            &&& k + 1 == n ==> next is None
            &&& k + 1 < n ==> (next matches Some(at) && (q.puts[1 + (k + 1)] matches PutView::Tuple {
                at: following,
                ..
            } && following == at))
        }) by {
            assert(q.puts[1 + k] == new[k]);
            if k + 1 < n {
                assert(q.puts[1 + (k + 1)] == new[k + 1]);
            }
        }
    }
}

// Success.

proof fn lemma_addresses_fit(p: PackerView, list: nat, a: Seq<Seq<u8>>, pointer: nat)
    requires
        forall|i: int| 0 <= i < a.len() ==> (#[trigger] a[i]).len() <= 16,
        p.used + 20 * a.len() <= p.len,
    ensures
        with_addresses(p, list, a, pointer) matches Some(q) && q.len == p.len && q.used <= p.used + 20 * a.len(),
    decreases a.len(),
{
    if a.len() > 0 {
        assert forall|i: int| 0 <= i < a.drop_last().len() implies (#[trigger] a.drop_last()[i]).len() <= 16 by {
            assert(a.drop_last()[i] == a[i]);
        }
        lemma_addresses_fit(p, list, a.drop_last(), pointer);
        let q = with_addresses(p, list, a.drop_last(), pointer)->0;
        lemma_next_multiple(q.used, 4);
        assert(a.last() == a[a.len() - 1]);
    }
}

/// A host with a name that is a string is told whenever the buffer has room for
/// its name, the pointers and the addresses, whatever the places have to be
/// multiples of.
pub proof fn law_hosts_fit(a: AddressesView, len: usize, pointer: usize)
    requires
        pointer > 0,
        forall|i: int| 0 <= i < encode_utf8(a.canonical).len() ==> #[trigger] encode_utf8(a.canonical)[i] != 0,
        forall|i: int| 0 <= i < a.addresses.len() ==> (#[trigger] a.addresses[i]).address.len() <= 16,
        encode_utf8(a.canonical).len() + 1 + (a.addresses.len() + 6) * pointer + 20 * a.addresses.len() <= len,
    ensures
        hostent_of(a, len, pointer) is Some,
{
    let p = empty_buffer(len);
    let w = pointer as nat;
    let n = a.addresses.len();
    let name = encode_utf8(a.canonical);
    assert((n + 6) * w == (n + 2) * w + 4 * w) by (nonlinear_arith);
    assert(0 <= (n + 2) * w) by (nonlinear_arith);
    law_strings_end_in_zero(p, name);
    let (p, _) = with_string(p, name)->0;
    lemma_next_multiple(p.used, w);
    assert((1nat + 1) * w == 2 * w);
    let (p, _) = with_pointers(p, 1, w)->0;
    lemma_next_multiple(p.used, w);
    assert((n + 1 + 1) * w == (n + 2) * w);
    let (p, list) = with_pointers(p, n + 1, w)->0;
    let octets = octets_of(a.addresses);
    assert forall|i: int| 0 <= i < octets.len() implies (#[trigger] octets[i]).len() <= 16 by {
        assert(a.addresses[i].address.len() <= 16);
    }
    lemma_addresses_fit(p, list, octets, w);
}

proof fn lemma_places_fit(used: nat, len: nat, n: nat, shape: Shape)
    requires
        shape.tuple_align > 0,
        used + n * (shape.tuple + shape.tuple_align) <= len,
    ensures
        tuple_places(used, len, n, shape) matches Some((_, u)) && u <= used + n * (shape.tuple + shape.tuple_align),
    decreases n,
{
    if n > 0 {
        let w = shape.tuple + shape.tuple_align;
        assert(n * w == (n - 1) * w + w) by (nonlinear_arith);
        lemma_places_fit(used, len, (n - 1) as nat, shape);
        let (_, u) = tuple_places(used, len, (n - 1) as nat, shape)->0;
        lemma_next_multiple(u, shape.tuple_align as nat);
    }
}

/// A list of addresses is told whenever the buffer has room for the name and for
/// every address with its alignment.
pub proof fn law_lists_fit(a: AddressesView, len: usize, shape: Shape)
    requires
        shape.tuple_align > 0,
        forall|i: int| 0 <= i < encode_utf8(a.canonical).len() ==> #[trigger] encode_utf8(a.canonical)[i] != 0,
        encode_utf8(a.canonical).len() + 1 + a.addresses.len() * (shape.tuple + shape.tuple_align) <= len,
    ensures
        tuples_of(a, len, shape) is Some,
{
    let n = a.addresses.len();
    let w = shape.tuple + shape.tuple_align;
    assert(0 <= n * w) by (nonlinear_arith)
        requires
            w >= 0,
    ;
    law_strings_end_in_zero(empty_buffer(len), encode_utf8(a.canonical));
    lemma_places_fit(encode_utf8(a.canonical).len() + 1, len as nat, n, shape);
}

// Times.

proof fn lemma_least(t: Seq<u32>)
    ensures
        forall|i: int| 0 <= i < t.len() ==> least(t) <= #[trigger] t[i],
        t.len() > 0 ==> t.contains(least(t)),
        t.len() == 0 ==> least(t) == 0,
    decreases t.len(),
{
    if t.len() == 1 {
        assert(t[0] == least(t));
    } else if t.len() > 1 {
        let s = t.drop_last();
        lemma_least(s);
        assert forall|i: int| 0 <= i < t.len() implies least(t) <= #[trigger] t[i] by {
            if i < s.len() {
                assert(s[i] == t[i]);
            }
        }
        let k = choose|k: int| 0 <= k < s.len() && s[k] == least(s);
        assert(t[k] == least(s));
        assert(t[t.len() - 1] == t.last());
    }
}

/// What is told may be kept as long as the shortest of its times: no longer than
/// any part of it, and as long as some part of it.
pub proof fn law_the_shortest_time_counts(a: AddressesView, r: AnswerView, len: usize, shape: Shape)
    ensures
        hostent_of(a, len, shape.pointer) matches Some(h) ==> is_shortest(
            h.ttl,
            a.addresses.map_values(|x: AddressOutView| x.ttl),
        ),
        tuples_of(a, len, shape) matches Some(t) ==> is_shortest(
            t.ttl,
            a.addresses.map_values(|x: AddressOutView| x.ttl),
        ),
        forall|address: Seq<u8>|
            (#[trigger] named_hostent(r, address, len, shape.pointer)) matches Ok(h) ==> is_shortest(
                h.ttl,
                r.records.map_values(|x: RecordOutView| x.ttl),
            ),
{
    lemma_least(address_ttls(a.addresses));
    lemma_least(record_ttls(r.records));
    assert(address_ttls(a.addresses) =~= a.addresses.map_values(|x: AddressOutView| x.ttl));
    assert(record_ttls(r.records) =~= r.records.map_values(|x: RecordOutView| x.ttl));
}

/// Whether a time is the shortest of some, or 0 where there is none.
pub open spec fn is_shortest(ttl: u32, all: Seq<u32>) -> bool {
    &&& forall|i: int| 0 <= i < all.len() ==> ttl <= #[trigger] all[i]
    &&& all.len() > 0 ==> all.contains(ttl)
    &&& all.len() == 0 ==> ttl == 0
}

// Names.

/// A name without the dots at its end.
pub proof fn law_dots_at_the_end(b: Seq<u8>)
    ensures
        undotted(b).len() <= b.len(),
        forall|i: int| 0 <= i < undotted(b).len() ==> undotted(b)[i] == #[trigger] b[i],
        forall|i: int| undotted(b).len() <= i < b.len() ==> #[trigger] b[i] == 0x2e,
        undotted(b).len() > 0 ==> undotted(b)[undotted(b).len() - 1] != 0x2e,
    decreases b.len(),
{
    if b.len() > 0 && b.last() == 0x2e {
        law_dots_at_the_end(b.drop_last());
        assert forall|i: int| undotted(b).len() <= i < b.len() implies #[trigger] b[i] == 0x2e by {
            if i < b.len() - 1 {
                assert(b.drop_last()[i] == b[i]);
            }
        }
        assert forall|i: int| 0 <= i < undotted(b).len() implies undotted(b)[i] == #[trigger] b[i] by {
            assert(b.drop_last()[i] == b[i]);
        }
    }
}

/// The names of an address are the texts of the records of type 12, all of them in
/// order, without the dots at their ends.
pub proof fn law_names_of_an_address(r: Seq<RecordOutView>)
    ensures
        pointer_names(r) == r.filter_map(
            |x: RecordOutView|
                if x.rtype == 12 {
                    Some(undotted(encode_utf8(x.text)))
                } else {
                    None
                },
        ),
    decreases r.len(),
{
    let f = |x: RecordOutView|
        if x.rtype == 12 {
            Some(undotted(encode_utf8(x.text)))
        } else {
            None
        };
    if r.len() > 0 {
        law_names_of_an_address(r.drop_last());
        assert(pointer_names(r) =~= r.filter_map(f));
    }
}

/// Whether a byte is a letter, in either case.
pub open spec fn is_letter(b: u8, c: char) -> bool {
    b as int == c as int || b as int == c as int - 32
}

/// Whether a text ends in `localhost`, in any case, and that is all of it or a dot
/// stands before it.
pub open spec fn under_localhost(b: Seq<u8>) -> bool {
    let n = b.len() - 9;
    &&& n >= 0
    &&& is_letter(b[n], 'l') && is_letter(b[n + 1], 'o') && is_letter(b[n + 2], 'c')
    &&& is_letter(b[n + 3], 'a') && is_letter(b[n + 4], 'l') && is_letter(b[n + 5], 'h')
    &&& is_letter(b[n + 6], 'o') && is_letter(b[n + 7], 's') && is_letter(b[n + 8], 't')
    &&& n == 0 || b[n - 1] == 0x2e
}

/// A name is that of the machine itself exactly where it is `localhost` or under
/// it, dots at its end aside.
pub proof fn law_names_of_the_machine(b: Seq<u8>)
    ensures
        names_localhost(b) <==> under_localhost(undotted(b)),
{
    let u = undotted(b);
    let n = lowered(u);
    let w = localhost_text();
    if n == w {
        assert(forall|i: int| 0 <= i < 9 ==> lower(#[trigger] u[i]) == w[i]) by {
            assert(forall|i: int| 0 <= i < 9 ==> #[trigger] u[i] == u[i] && n[i] == w[i]);
        }
    }
    if n.len() >= 10 && n.skip(n.len() - 10) == seq![0x2eu8] + w {
        let m = n.skip(n.len() - 10);
        let k = n.len() - 10;
        assert(m[0] == 0x2e);
        assert(forall|i: int| 0 <= i < 9 ==> m[1 + i] == #[trigger] w[i]);
        assert(forall|i: int| 0 <= i < 10 ==> #[trigger] m[i] == lower(u[k + i]));
        assert(m[1] == w[0] && m[2] == w[1] && m[3] == w[2] && m[4] == w[3] && m[5] == w[4] && m[6] == w[5] && m[7]
            == w[6] && m[8] == w[7] && m[9] == w[8]);
    }
    if under_localhost(u) {
        let k = u.len() - 9;
        if k == 0 {
            assert(n =~= w);
        } else {
            assert(n.skip(n.len() - 10) =~= seq![0x2eu8] + w);
        }
    }
}

// Calls.

/// A call for a name that is the machine's own is answered at once with the
/// loopback addresses of the family; one for another name is asked of the resolver,
/// with the name and the family as they are.
pub proof fn law_calls_by_name(name: Seq<char>)
    ensures
        names_localhost(encode_utf8(name)) ==> {
            &&& any_start(Some(name)) matches StartView::Local(a) && is_local(a, seq![v4(), v6()])
            &&& one_start(Some(name), Af::Inet) matches StartView::Local(a) && is_local(a, seq![v4()])
            &&& one_start(Some(name), Af::Inet6) matches StartView::Local(a) && is_local(a, seq![v6()])
        },
        !names_localhost(encode_utf8(name)) ==> {
            &&& any_start(Some(name)) == StartView::<AddressesView>::Ask(Ask::Lookup { name, family: Family::Any })
            &&& one_start(Some(name), Af::Inet) == StartView::<AddressesView>::Ask(
                Ask::Lookup { name, family: Family::V4 },
            )
            &&& one_start(Some(name), Af::Inet6) == StartView::<AddressesView>::Ask(
                Ask::Lookup { name, family: Family::V6 },
            )
        },
        one_start(Some(name), Af::Unspec) matches StartView::Fail(f) && f.status == NssStatus::Unavail && f.errno
            == Errno::FamilyNotSupported && f.h_errno == 4,
        one_start(Some(name), Af::Other) == one_start(Some(name), Af::Unspec),
        any_start(None) matches StartView::Fail(f) && is_absent(f),
        forall|af: Af| (#[trigger] one_start(None, af)) matches StartView::Fail(f) && is_absent(f),
{
    assert(crate::addr::localhost_v4() =~= v4());
    assert(crate::addr::localhost_v6() =~= v6());
}

/// 127.0.0.1
pub open spec fn v4() -> Seq<u8> {
    seq![127u8, 0, 0, 1]
}

/// `::1`
pub open spec fn v6() -> Seq<u8> {
    seq![0u8, 0, 0, 0, 0, 0, 0, 0, 0, 0, 0, 0, 0, 0, 0, 1]
}

/// Whether addresses are found under `localhost`.
pub open spec fn is_local(a: AddressesView, all: Seq<Seq<u8>>) -> bool {
    &&& a.outcome == Outcome::Found
    &&& a.canonical == "localhost"@
    &&& a.addresses.len() == all.len()
    &&& forall|i: int| 0 <= i < all.len() ==> (#[trigger] a.addresses[i]).address == all[i] && a.addresses[i].ttl == 0
}

/// Whether a failure says that there is no such host.
pub open spec fn is_absent(f: Failure) -> bool {
    f.status == NssStatus::NotFound && f.errno == Errno::NoEntry && f.h_errno == 1
}

/// A call for an address of its family is answered at once with `localhost` where
/// the address is a loopback one, 127 and anything or `::1`, and asked of the
/// resolver otherwise; one with an address of another length fails.
pub proof fn law_calls_by_address(a: Seq<u8>, af: Af)
    ensures
        (af == Af::Inet && a.len() == 4 && a[0] == 127) || (af == Af::Inet6 && a == v6()) ==> (address_start(
            Some(a),
            af,
        ) matches StartView::Local(r) && r.outcome == Outcome::Found && r.records.len() == 1 && r.records[0].rtype == 12
            && r.records[0].text == "localhost"@),
        (af == Af::Inet && a.len() == 4 && a[0] != 127) || (af == Af::Inet6 && a.len() == 16 && a != v6())
            ==> address_start(Some(a), af) == StartView::<AnswerView>::Ask(Ask::Reverse { address: a }),
        !(af == Af::Inet && a.len() == 4) && !(af == Af::Inet6 && a.len() == 16) ==> (address_start(
            Some(a),
            af,
        ) matches StartView::Fail(f) && f.status == NssStatus::Unavail && f.errno == Errno::FamilyNotSupported
            && f.h_errno == 3),
        address_start(None, af) matches StartView::Fail(f) && is_absent(f),
{
    assert(crate::addr::localhost_v6() =~= v6());
}

/// The addresses that are kept are those of the family, in order.
pub proof fn law_families_are_kept(a: Seq<AddressOutView>)
    ensures
        addresses_of(a, Family::Any) == a,
        addresses_of(a, Family::V4) == a.filter(|x: AddressOutView| x.address.len() == 4),
        addresses_of(a, Family::V6) == a.filter(|x: AddressOutView| x.address.len() == 16),
    decreases a.len(),
{
    reveal(Seq::filter);
    if a.len() > 0 {
        law_families_are_kept(a.drop_last());
        assert(a =~= a.drop_last().push(a.last()));
    }
}

/// What each way of having no value is told as, and what each reply comes to.
pub proof fn law_failures_are_told(a: AddressesView, r: AnswerView, e: Fault)
    ensures
        failure_of(Got::Value(a)) is None,
        failure_of(Got::<AddressesView>::NoData) matches Some(f) && f.status == NssStatus::NotFound && f.errno
            == Errno::NoEntry && f.h_errno == 4,
        failure_of(Got::<AddressesView>::NotFound) matches Some(f) && is_absent(f),
        failure_of(Got::<AddressesView>::TryAgain) matches Some(f) && f.status == NssStatus::TryAgain && f.errno
            == Errno::Again && f.h_errno == 2,
        failure_of(Got::<AddressesView>::Unavailable) matches Some(f) && f.status == NssStatus::Unavail && f.errno
            == Errno::NoEntry && f.h_errno == 3,
        a.outcome == Outcome::Found ==> lookup_got(Some(Ok(ReplyView::Addresses(a)))) == Got::Value(a),
        a.outcome == Outcome::NotFound ==> lookup_got(Some(Ok(ReplyView::Addresses(a)))) is NotFound,
        a.outcome == Outcome::Unavailable ==> lookup_got(Some(Ok(ReplyView::Addresses(a)))) is TryAgain,
        lookup_got(Some(Ok(ReplyView::Answer(r)))) is Unavailable,
        lookup_got(None) is Unavailable,
        r.outcome == Outcome::Found && r.records.len() > 0 ==> reverse_got(Some(Ok(ReplyView::Answer(r)))) == Got::Value(
            r,
        ),
        r.outcome == Outcome::NotFound || (r.outcome == Outcome::Found && r.records.len() == 0) ==> reverse_got(
            Some(Ok(ReplyView::Answer(r))),
        ) is NotFound,
        r.outcome == Outcome::Unavailable ==> reverse_got(Some(Ok(ReplyView::Answer(r)))) is TryAgain,
        reverse_got(Some(Ok(ReplyView::Addresses(a)))) is Unavailable,
        reverse_got(None) is Unavailable,
        lookup_got(Some(Err(e))) is TryAgain <==> (e matches Fault::Io(kind, _) && (kind == IoKind::WouldBlock || kind
            == IoKind::TimedOut)),
        lookup_got(Some(Err(e))) is TryAgain || lookup_got(Some(Err(e))) is Unavailable,
        reverse_got(Some(Err(e))) is TryAgain <==> is_timeout(e),
        reverse_got(Some(Err(e))) is TryAgain || reverse_got(Some(Err(e))) is Unavailable,
{
}

} // verus!
