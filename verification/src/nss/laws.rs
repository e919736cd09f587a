//! What holds of what the C library is handed.
use crate::nss::buffer::{
    lemma_aligned, lemma_tuple_places, pointed, room, took, tuple_places, tuple_puts, with_bytes, with_pointers,
    with_string, with_tuples, PackerView, PutView, Puts, Shape,
};
use crate::nss::{
    addresses_got, addresses_of, empty_buffer, failure_of, host_not_found, host_without_data, hostent_of, lookup_got, named_hostent, octets_of, of_family, pointer_names,
    reverse_got, tuples_of, with_addresses, with_aliases, NssStatus, ADDRESS_ALIGN,
};
use crate::protocol::{AddressOutView, AddressesView, AnswerView, Family, Fault, Outcome, ReplyView};
use vstd::prelude::*;
use vstd::utf8::*;

verus! {

/// Where something that takes room of its own starts and ends.
pub open spec fn region(put: PutView, shape: Shape) -> Option<(nat, nat)> {
    match put {
        PutView::Bytes { at, bytes } => Some((at, at + bytes.len())),
        PutView::Nulls { at, count } => Some((at, at + count * shape.pointer as nat)),
        PutView::Tuple { at, next: _, name: _, v6: _, octets: _ } => Some((at, at + shape.tuple as nat)),
        PutView::Pointer { at: _, to: _ } => None,
    }
}

/// Whether something is written inside what is used, and points inside it.
pub open spec fn inside(put: PutView, used: nat, shape: Shape) -> bool {
    &&& region(put, shape) matches Some((_, end)) ==> end <= used
    &&& put matches PutView::Pointer { at, to } ==> at + shape.pointer <= used && to <= used
    &&& put matches PutView::Tuple { at: _, next, name, v6: _, octets: _ } ==> name <= used && (next matches Some(n)
        ==> n <= used)
}

/// Whether nothing is written outside the buffer, or over what takes room of
/// its own.
pub open spec fn tidy(p: PackerView, shape: Shape) -> bool {
    &&& p.used <= p.len
    &&& forall|i: int| 0 <= i < p.puts.len() ==> inside(#[trigger] p.puts[i], p.used, shape)
    &&& forall|i: int, j: int|
        0 <= i < j < p.puts.len() ==> apart(#[trigger] p.puts[i], #[trigger] p.puts[j], shape)
}

/// Whether one thing ends before the other starts, where both take room.
pub open spec fn apart(a: PutView, b: PutView, shape: Shape) -> bool {
    match (region(a, shape), region(b, shape)) {
        (Some((_, end)), Some((start, _))) => end <= start,
        _ => true,
    }
}

/// Something that takes the next room keeps a buffer tidy.
proof fn lemma_took(p: PackerView, size: nat, align: nat, put: PutView, shape: Shape)
    requires
        tidy(p, shape),
        room(p, size, align) matches Some(at) && region(put, shape) == Some((at, at + size)),
        !(put is Tuple),
    ensures
        tidy(took(p, room(p, size, align)->0, size, put), shape),
        took(p, room(p, size, align)->0, size, put).len == p.len,
        room(p, size, align)->0 + size == took(p, room(p, size, align)->0, size, put).used,
{
    let at = room(p, size, align)->0;
    let q = took(p, at, size, put);
    lemma_aligned(p.used, align);
    assert forall|i: int| 0 <= i < q.puts.len() implies inside(#[trigger] q.puts[i], q.used, shape) by {
        if i < p.puts.len() {
            assert(inside(p.puts[i], p.used, shape));
        }
    }
    assert forall|i: int, j: int| 0 <= i < j < q.puts.len() implies apart(
        #[trigger] q.puts[i],
        #[trigger] q.puts[j],
        shape,
    ) by {
        assert(q.puts[i] == p.puts[i]);
        assert(inside(p.puts[i], p.used, shape));
        if j < p.puts.len() {
            assert(q.puts[j] == p.puts[j]);
        }
    }
}

proof fn lemma_string(p: PackerView, s: Seq<u8>, shape: Shape)
    requires
        tidy(p, shape),
    ensures
        with_string(p, s) matches Some((q, at)) ==> tidy(q, shape) && at <= q.used && p.used <= q.used,
{
    if let Some(at) = room(p, s.len() + 1, 1) {
        lemma_aligned(p.used, 1);
        lemma_took(p, s.len() + 1, 1, PutView::Bytes { at, bytes: s.push(0u8) }, shape);
    }
}

proof fn lemma_bytes(p: PackerView, b: Seq<u8>, align: nat, shape: Shape)
    requires
        tidy(p, shape),
    ensures
        with_bytes(p, b, align) matches Some((q, at)) ==> tidy(q, shape) && at <= q.used && p.used <= q.used,
{
    if let Some(at) = room(p, b.len(), align) {
        lemma_aligned(p.used, align);
        lemma_took(p, b.len(), align, PutView::Bytes { at, bytes: b }, shape);
    }
}

proof fn lemma_pointers(p: PackerView, count: nat, shape: Shape)
    requires
        tidy(p, shape),
    ensures
        with_pointers(p, count, shape.pointer as nat) matches Some((q, at)) ==> tidy(q, shape) && at + (count + 1)
            * shape.pointer <= q.used && p.used <= q.used,
{
    let size = (count + 1) * shape.pointer as nat;
    if let Some(at) = room(p, size, shape.pointer as nat) {
        lemma_aligned(p.used, shape.pointer as nat);
        lemma_took(p, size, shape.pointer as nat, PutView::Nulls { at, count: count + 1 }, shape);
    }
}

proof fn lemma_pointed(p: PackerView, at: nat, to: nat, shape: Shape)
    requires
        tidy(p, shape),
        at + shape.pointer <= p.used,
        to <= p.used,
    ensures
        tidy(pointed(p, at, to), shape),
{
    let q = pointed(p, at, to);
    assert forall|i: int| 0 <= i < q.puts.len() implies inside(#[trigger] q.puts[i], q.used, shape) by {
        if i < p.puts.len() {
            assert(inside(p.puts[i], p.used, shape));
        }
    }
    assert forall|i: int, j: int| 0 <= i < j < q.puts.len() implies apart(
        #[trigger] q.puts[i],
        #[trigger] q.puts[j],
        shape,
    ) by {
        assert(q.puts[i] == p.puts[i]);
        if j < p.puts.len() {
            assert(q.puts[j] == p.puts[j]);
        }
    }
}

proof fn lemma_slot(i: nat, n: nat, pointer: nat)
    requires
        i < n,
    ensures
        i * pointer + pointer <= n * pointer,
{
    assert(i * pointer + pointer <= n * pointer) by (nonlinear_arith)
        requires
            i < n,
    ;
}

proof fn lemma_addresses(p: PackerView, list: nat, a: Seq<Seq<u8>>, shape: Shape)
    requires
        tidy(p, shape),
        list + a.len() * shape.pointer <= p.used,
    ensures
        with_addresses(p, list, a, shape.pointer as nat) matches Some(q) ==> tidy(q, shape) && p.used <= q.used,
    decreases a.len(),
{
    if a.len() > 0 {
        lemma_slot((a.len() - 1) as nat, a.len(), shape.pointer as nat);
        lemma_addresses(p, list, a.drop_last(), shape);
        if let Some(q) = with_addresses(p, list, a.drop_last(), shape.pointer as nat) {
            lemma_bytes(q, a.last(), ADDRESS_ALIGN as nat, shape);
            if let Some((r, at)) = with_bytes(q, a.last(), ADDRESS_ALIGN as nat) {
                lemma_pointed(r, list + (a.len() - 1) as nat * shape.pointer as nat, at, shape);
            }
        }
    }
}

proof fn lemma_aliases(p: PackerView, list: nat, a: Seq<Seq<u8>>, shape: Shape)
    requires
        tidy(p, shape),
        list + a.len() * shape.pointer <= p.used,
    ensures
        with_aliases(p, list, a, shape.pointer as nat) matches Some(q) ==> tidy(q, shape) && p.used <= q.used,
    decreases a.len(),
{
    if a.len() > 0 {
        lemma_slot((a.len() - 1) as nat, a.len(), shape.pointer as nat);
        lemma_aliases(p, list, a.drop_last(), shape);
        if let Some(q) = with_aliases(p, list, a.drop_last(), shape.pointer as nat) {
            lemma_string(q, a.last(), shape);
            if let Some((r, at)) = with_string(q, a.last()) {
                lemma_pointed(r, list + (a.len() - 1) as nat * shape.pointer as nat, at, shape);
            }
        }
    }
}

/// Whether what is written fits a buffer.
pub open spec fn written_inside(puts: Puts, len: usize, shape: Shape) -> bool {
    &&& forall|i: int| 0 <= i < puts.len() ==> inside(#[trigger] puts[i], len as nat, shape)
    &&& forall|i: int, j: int| 0 <= i < j < puts.len() ==> apart(#[trigger] puts[i], #[trigger] puts[j], shape)
}

proof fn lemma_written(p: PackerView, len: usize, shape: Shape)
    requires
        tidy(p, shape),
        p.len == len,
    ensures
        written_inside(p.puts, len, shape),
{
    assert forall|i: int| 0 <= i < p.puts.len() implies inside(#[trigger] p.puts[i], len as nat, shape) by {
        assert(inside(p.puts[i], p.used, shape));
    }
}

proof fn lemma_same_len(p: PackerView, list: nat, a: Seq<Seq<u8>>, pointer: nat)
    ensures
        with_addresses(p, list, a, pointer) matches Some(q) ==> q.len == p.len,
        with_aliases(p, list, a, pointer) matches Some(q) ==> q.len == p.len,
    decreases a.len(),
{
    if a.len() > 0 {
        lemma_same_len(p, list, a.drop_last(), pointer);
    }
}

/// The structure of a host is written inside the caller's buffer, no part
/// over another.
pub proof fn law_hostent_stays_inside(a: AddressesView, len: usize, shape: Shape)
    ensures
        hostent_of(a, len, shape.pointer) matches Some(h) ==> written_inside(h.puts, len, shape),
{
    let p = empty_buffer(len);
    let pointer = shape.pointer as nat;
    if hostent_of(a, len, shape.pointer) is Some {
        lemma_string(p, encode_utf8(a.canonical), shape);
        let (p, _) = with_string(p, encode_utf8(a.canonical))->0;
        lemma_pointers(p, 1, shape);
        let (p, _) = with_pointers(p, 1, pointer)->0;
        lemma_pointers(p, a.addresses.len() + 1, shape);
        let (p, list) = with_pointers(p, a.addresses.len() + 1, pointer)->0;
        let n = a.addresses.len();
        assert(n * pointer <= (n + 1 + 1) * pointer) by (nonlinear_arith);
        lemma_addresses(p, list, octets_of(a.addresses), shape);
        lemma_same_len(p, list, octets_of(a.addresses), pointer);
        let q = with_addresses(p, list, octets_of(a.addresses), pointer)->0;
        lemma_written(q, len, shape);
    }
}

/// The structure of the host that an address is, likewise.
pub proof fn law_named_hostent_stays_inside(a: AnswerView, address: Seq<u8>, len: usize, shape: Shape)
    ensures
        named_hostent(a, address, len, shape.pointer) matches Ok(h) ==> written_inside(h.puts, len, shape),
{
    let p = empty_buffer(len);
    let pointer = shape.pointer as nat;
    let names = pointer_names(a.records);
    if named_hostent(a, address, len, shape.pointer) is Ok {
        lemma_string(p, names[0], shape);
        let (p, _) = with_string(p, names[0])->0;
        lemma_pointers(p, names.len(), shape);
        let (p, list) = with_pointers(p, names.len(), pointer)->0;
        let n = names.len();
        assert((n - 1) * pointer <= (n + 1) * pointer) by (nonlinear_arith);
        lemma_aliases(p, list, names.skip(1), shape);
        lemma_same_len(p, list, names.skip(1), pointer);
        let p = with_aliases(p, list, names.skip(1), pointer)->0;
        lemma_pointers(p, 2, shape);
        let (p, list) = with_pointers(p, 2, pointer)->0;
        lemma_bytes(p, address, ADDRESS_ALIGN as nat, shape);
        let (q, at) = with_bytes(p, address, ADDRESS_ALIGN as nat)->0;
        assert(pointer <= (2nat + 1) * pointer) by (nonlinear_arith);
        lemma_pointed(q, list, at, shape);
        lemma_written(pointed(q, list, at), len, shape);
    }
}

/// A list of addresses, likewise.
pub proof fn law_tuples_stay_inside(a: AddressesView, len: usize, shape: Shape)
    ensures
        tuples_of(a, len, shape) matches Some(t) ==> written_inside(t.puts, len, shape),
{
    let p = empty_buffer(len);
    if tuples_of(a, len, shape) is Some {
        lemma_string(p, encode_utf8(a.canonical), shape);
        let (p, name) = with_string(p, encode_utf8(a.canonical))->0;
        let addresses = octets_of(a.addresses);
        lemma_tuple_places(p.used, p.len, addresses.len(), shape);
        let (places, used) = tuple_places(p.used, p.len, addresses.len(), shape)->0;
        let (q, _) = with_tuples(p, name, addresses, shape)->0;
        let new = tuple_puts(places, name, addresses);
        assert forall|i: int| 0 <= i < q.puts.len() implies inside(#[trigger] q.puts[i], q.used, shape) by {
            if i < p.puts.len() {
                assert(q.puts[i] == p.puts[i]);
                assert(inside(p.puts[i], p.used, shape));
            } else {
                let k = i - p.puts.len();
                assert(q.puts[i] == new[k]);
                assert(places[k] + shape.tuple <= used);
                if k + 1 < places.len() {
                    assert(places[k + 1] + shape.tuple <= used);
                }
            }
        }
        assert forall|i: int, j: int| 0 <= i < j < q.puts.len() implies apart(
            #[trigger] q.puts[i],
            #[trigger] q.puts[j],
            shape,
        ) by {
            if i < p.puts.len() {
                assert(q.puts[i] == p.puts[i]);
                assert(inside(p.puts[i], p.used, shape));
                if j < p.puts.len() {
                    assert(q.puts[j] == p.puts[j]);
                } else {
                    assert(q.puts[j] == new[j - p.puts.len()]);
                    assert(p.used <= places[j - p.puts.len()]);
                }
            } else {
                assert(q.puts[i] == new[i - p.puts.len()]);
                assert(q.puts[j] == new[j - p.puts.len()]);
                assert(places[i - p.puts.len()] + shape.tuple <= places[j - p.puts.len()]);
            }
        }
        lemma_written(q, len, shape);
    }
}

// Failing the right way.

/// What nothing could answer is never told as absence: the caller is to try
/// again.
pub proof fn law_unavailable_is_tried_again(a: AddressesView, b: AnswerView, family: Family)
    requires
        a.outcome == Outcome::Unavailable,
        b.outcome == Outcome::Unavailable,
    ensures
        (failure_of(addresses_got(lookup_got(Some(Ok(ReplyView::Addresses(a)))), family)) matches Some(f) && f.status
            == NssStatus::TryAgain),
        (failure_of(reverse_got(Some(Ok(ReplyView::Answer(b))))) matches Some(f) && f.status == NssStatus::TryAgain),
{
}

proof fn lemma_none_of_family(a: Seq<AddressOutView>, family: Family)
    ensures
        addresses_of(a, family).len() == 0 <==> forall|i: int|
            0 <= i < a.len() ==> !of_family((#[trigger] a[i]).address, family),
    decreases a.len(),
{
    if a.len() > 0 {
        lemma_none_of_family(a.drop_last(), family);
        if addresses_of(a, family).len() == 0 {
            assert forall|i: int| 0 <= i < a.len() implies !of_family((#[trigger] a[i]).address, family) by {
                if i < a.len() - 1 {
                    assert(a.drop_last()[i] == a[i]);
                }
            }
        } else if forall|i: int| 0 <= i < a.len() ==> !of_family((#[trigger] a[i]).address, family) {
            assert(!of_family(a[a.len() - 1].address, family));
            assert forall|i: int| 0 <= i < a.drop_last().len() implies !of_family(
                (#[trigger] a.drop_last()[i]).address,
                family,
            ) by {
                assert(a.drop_last()[i] == a[i]);
            }
        }
    }
}

/// A name is told absent exactly where the resolver said so, and to be without
/// data exactly where the resolver found it with no address of the family;
/// neither where the resolver failed or is not there.
pub proof fn law_absence_is_only_what_was_said(called: Option<Result<ReplyView, Fault>>, family: Family)
    ensures
        failure_of(addresses_got(lookup_got(called), family)) == Some(host_not_found()) <==> (called matches Some(
            Ok(ReplyView::Addresses(a)),
        ) && a.outcome == Outcome::NotFound),
        failure_of(addresses_got(lookup_got(called), family)) == Some(host_without_data()) <==> (called matches Some(
            Ok(ReplyView::Addresses(a)),
        ) && a.outcome == Outcome::Found && forall|i: int|
            0 <= i < a.addresses.len() ==> !of_family((#[trigger] a.addresses[i]).address, family)),
        (failure_of(addresses_got(lookup_got(called), family)) matches Some(f) && f.status == NssStatus::NotFound)
            ==> failure_of(addresses_got(lookup_got(called), family)) == Some(host_not_found()) || failure_of(
            addresses_got(lookup_got(called), family),
        ) == Some(host_without_data()),
        called is None ==> (failure_of(addresses_got(lookup_got(called), family)) matches Some(f) && f.status
            == NssStatus::Unavail),
{
    if let Some(Ok(ReplyView::Addresses(a))) = called {
        lemma_none_of_family(a.addresses, family);
    }
}

} // verus!
