//! Packing an answer into the caller's buffer.
//!
//! Every entry point is handed a buffer and a length, and the structure it
//! fills points into that buffer. Running out of room is told to the caller,
//! who comes again with a larger buffer; a packer that overflowed silently
//! would corrupt the caller instead.
//!
//! What goes where is decided here, as places relative to the buffer; whoever
//! holds the buffer writes it.
use crate::octets;
use vstd::prelude::*;

verus! {

/// Something that is written at a place of the buffer.
#[derive(Debug)]
pub enum Put {
    Bytes { at: usize, bytes: Vec<u8> },
    /// Pointers to nothing, one behind the other.
    Nulls { at: usize, count: usize },
    /// A pointer to another place of the buffer.
    Pointer { at: usize, to: usize },
    /// One address of a list, and where the next one is.
    Tuple { at: usize, next: Option<usize>, name: usize, v6: bool, octets: Vec<u8> },
}

pub enum PutView {
    Bytes { at: nat, bytes: Seq<u8> },
    Nulls { at: nat, count: nat },
    Pointer { at: nat, to: nat },
    Tuple { at: nat, next: Option<nat>, name: nat, v6: bool, octets: Seq<u8> },
}

pub open spec fn opt_place(p: Option<usize>) -> Option<nat> {
    match p {
        Some(p) => Some(p as nat),
        None => None,
    }
}

impl View for Put {
    type V = PutView;

    open spec fn view(&self) -> PutView {
        match self {
            Put::Bytes { at, bytes } => PutView::Bytes { at: *at as nat, bytes: bytes@ },
            Put::Nulls { at, count } => PutView::Nulls { at: *at as nat, count: *count as nat },
            Put::Pointer { at, to } => PutView::Pointer { at: *at as nat, to: *to as nat },
            Put::Tuple { at, next, name, v6, octets } => PutView::Tuple {
                at: *at as nat,
                next: opt_place(*next),
                name: *name as nat,
                v6: *v6,
                octets: octets@,
            },
        }
    }
}

pub type Puts = Seq<PutView>;

pub open spec fn puts_view(p: Seq<Put>) -> Puts {
    Seq::new(p.len(), |i: int| p[i]@)
}

/// The sizes of things in the caller's memory.
#[derive(Debug, Clone, Copy)]
pub struct Shape {
    /// Of a pointer, which is as aligned as it is large.
    pub pointer: usize,
    pub tuple: usize,
    pub tuple_align: usize,
}

/// What is packed into a buffer of a length.
#[derive(Debug)]
pub struct Packer {
    len: usize,
    used: usize,
    puts: Vec<Put>,
}

#[verifier::ext_equal]
pub struct PackerView {
    pub len: nat,
    pub used: nat,
    pub puts: Puts,
}

impl View for Packer {
    type V = PackerView;

    closed spec fn view(&self) -> PackerView {
        PackerView { len: self.len as nat, used: self.used as nat, puts: puts_view(self.puts@) }
    }
}

/// The next multiple of an alignment.
pub open spec fn aligned(n: nat, align: nat) -> nat {
    if align == 0 || n % align == 0 {
        n
    } else {
        (n - n % align + align) as nat
    }
}

/// Room for `size` bytes at an alignment, where it is there.
pub open spec fn room(p: PackerView, size: nat, align: nat) -> Option<nat> {
    if aligned(p.used, align) + size > p.len {
        None
    } else {
        Some(aligned(p.used, align))
    }
}

pub open spec fn took(p: PackerView, at: nat, size: nat, put: PutView) -> PackerView {
    PackerView { used: at + size, puts: p.puts.push(put), ..p }
}

/// A string, a zero behind it; it holds none itself.
pub open spec fn with_string(p: PackerView, s: Seq<u8>) -> Option<(PackerView, nat)> {
    if s.contains(0u8) {
        None
    } else {
        match room(p, s.len() + 1, 1) {
            None => None,
            Some(at) => Some((took(p, at, s.len() + 1, PutView::Bytes { at, bytes: s.push(0u8) }), at)),
        }
    }
}

pub open spec fn with_bytes(p: PackerView, b: Seq<u8>, align: nat) -> Option<(PackerView, nat)> {
    match room(p, b.len(), align) {
        None => None,
        Some(at) => Some((took(p, at, b.len(), PutView::Bytes { at, bytes: b }), at)),
    }
}

/// Room for pointers and the one to nothing behind them.
pub open spec fn with_pointers(p: PackerView, count: nat, pointer: nat) -> Option<(PackerView, nat)> {
    match room(p, (count + 1) * pointer, pointer) {
        None => None,
        Some(at) => Some((took(p, at, (count + 1) * pointer, PutView::Nulls { at, count: count + 1 }), at)),
    }
}

pub open spec fn pointed(p: PackerView, at: nat, to: nat) -> PackerView {
    PackerView { puts: p.puts.push(PutView::Pointer { at, to }), ..p }
}

fn holds_zero(s: &[u8]) -> (r: bool)
    ensures
        r == s@.contains(0u8),
{
    let mut i: usize = 0;
    while i < s.len()
        invariant
            i <= s@.len(),
            forall|j: int| 0 <= j < i ==> s@[j] != 0u8,
        decreases s@.len() - i,
    {
        if s[i] == 0 {
            return true;
        }
        i += 1;
    }
    false
}

impl Packer {
    #[verifier::type_invariant]
    spec fn inv(&self) -> bool {
        self.used <= self.len <= isize::MAX
    }

    /// A packer for a buffer of a length; no buffer is longer than the
    /// largest signed size.
    pub fn new(len: usize) -> (r: Packer)
        requires
            len <= isize::MAX,
        ensures
            r@ == (PackerView { len: len as nat, used: 0, puts: Seq::empty() }),
    {
        let r = Packer { len, used: 0, puts: Vec::new() };
        assert(r@ =~= PackerView { len: len as nat, used: 0, puts: Seq::empty() });
        r
    }

    /// The place of `size` bytes at `align`, or nothing when full.
    fn offset(&self, size: usize, align: usize) -> (r: Option<usize>)
        requires
            0 < align <= isize::MAX,
        ensures
            opt_place(r) == room(self@, size as nat, align as nat),
            r matches Some(at) ==> at + size <= isize::MAX,
    {
        proof {
            use_type_invariant(self);
        }
        let over: usize = self.used % align;
        let ghost used = self.used;
        assert(over <= used && over < align) by (nonlinear_arith)
            requires
                over == used % align,
                align > 0,
        ;
        let start: usize = if over == 0 {
            self.used
        } else {
            self.used - over + align
        };
        if start > self.len || size > self.len - start {
            None
        } else {
            Some(start)
        }
    }

    fn take(&mut self, at: usize, size: usize, put: Put)
        requires
            at + size <= old(self)@.len,
        ensures
            final(self)@ == took(old(self)@, at as nat, size as nat, put@),
    {
        proof {
            use_type_invariant(&*self);
        }
        let mut puts: Vec<Put> = Vec::new();
        std::mem::swap(&mut puts, &mut self.puts);
        let ghost before = puts_view(puts@);
        let ghost one = put@;
        puts.push(put);
        assert(puts_view(puts@) =~= before.push(one));
        self.puts = puts;
        self.used = at + size;
    }

    fn put(&mut self, put: Put)
        ensures
            final(self)@ == (PackerView { puts: old(self)@.puts.push(put@), ..old(self)@ }),
    {
        proof {
            use_type_invariant(&*self);
        }
        let mut puts: Vec<Put> = Vec::new();
        std::mem::swap(&mut puts, &mut self.puts);
        let ghost before = puts_view(puts@);
        let ghost one = put@;
        puts.push(put);
        assert(puts_view(puts@) =~= before.push(one));
        self.puts = puts;
    }

    /// Put a string in, a zero behind it.
    pub fn str(&mut self, s: &[u8]) -> (r: Option<usize>)
        ensures
            match with_string(old(self)@, s@) {
                Some((p, at)) => r matches Some(a) && a == at && final(self)@ == p,
                None => r is None && final(self)@ == old(self)@,
            },
    {
        let len: usize = s.len();
        if holds_zero(s) {
            return None;
        }
        proof {
            use_type_invariant(&*self);
        }
        if len >= self.len {
            return None;
        }
        match self.offset(len + 1, 1) {
            None => None,
            Some(at) => {
                let mut bytes = octets::copy(s);
                bytes.push(0);
                self.take(at, len + 1, Put::Bytes { at, bytes });
                Some(at)
            },
        }
    }

    /// Put bytes in, aligned.
    pub fn bytes(&mut self, b: &[u8], align: usize) -> (r: Option<usize>)
        requires
            0 < align <= isize::MAX,
        ensures
            match with_bytes(old(self)@, b@, align as nat) {
                Some((p, at)) => r matches Some(a) && a == at && final(self)@ == p,
                None => r is None && final(self)@ == old(self)@,
            },
    {
        match self.offset(b.len(), align) {
            None => None,
            Some(at) => {
                self.take(at, b.len(), Put::Bytes { at, bytes: octets::copy(b) });
                Some(at)
            },
        }
    }

    /// Room for `count` pointers and the one to nothing behind them.
    pub fn pointers(&mut self, count: usize, pointer: usize) -> (r: Option<usize>)
        requires
            0 < pointer <= isize::MAX,
        ensures
            match with_pointers(old(self)@, count as nat, pointer as nat) {
                Some((p, at)) => r matches Some(a) && a == at && final(self)@ == p,
                None => r is None && final(self)@ == old(self)@,
            },
            r matches Some(a) ==> a + (count + 1) * pointer <= isize::MAX,
    {
        proof {
            use_type_invariant(&*self);
        }
        let most: usize = self.len / pointer;
        if count >= most {
            assert((count + 1) * pointer > self.len) by (nonlinear_arith)
                requires
                    count >= most,
                    most == self.len / pointer,
                    pointer > 0,
            ;
            return None;
        }
        assert((count + 1) * pointer <= self.len) by (nonlinear_arith)
            requires
                count < most,
                most == self.len / pointer,
                pointer > 0,
        ;
        let size: usize = (count + 1) * pointer;
        match self.offset(size, pointer) {
            None => None,
            Some(at) => {
                self.take(at, size, Put::Nulls { at, count: count + 1 });
                Some(at)
            },
        }
    }

    /// Let a pointer at `at` point to `to`.
    pub fn point(&mut self, at: usize, to: usize)
        ensures
            final(self)@ == pointed(old(self)@, at as nat, to as nat),
    {
        self.put(Put::Pointer { at, to });
    }

    /// What is to be written.
    pub fn into_puts(self) -> (r: Vec<Put>)
        ensures
            puts_view(r@) == self@.puts,
    {
        self.puts
    }
}

// Lists of addresses.

/// The places of `n` tuples one behind the other, and how much is used then.
pub open spec fn tuple_places(used: nat, len: nat, n: nat, shape: Shape) -> Option<(Seq<nat>, nat)>
    decreases n,
{
    if n == 0 {
        Some((Seq::empty(), used))
    } else {
        match tuple_places(used, len, (n - 1) as nat, shape) {
            None => None,
            Some((places, u)) => {
                let at = aligned(u, shape.tuple_align as nat);
                if at + shape.tuple > len {
                    None
                } else {
                    Some((places.push(at), at + shape.tuple as nat))
                }
            },
        }
    }
}

/// Each address in its place, with where the next one is.
pub open spec fn tuple_puts(places: Seq<nat>, name: nat, addresses: Seq<Seq<u8>>) -> Puts {
    Seq::new(
        places.len(),
        |i: int|
            PutView::Tuple {
                at: places[i],
                next: if i + 1 < places.len() {
                    Some(places[i + 1])
                } else {
                    None
                },
                name,
                v6: addresses[i].len() != 4,
                octets: addresses[i],
            },
    )
}

/// A list of addresses that share a name.
pub open spec fn with_tuples(p: PackerView, name: nat, addresses: Seq<Seq<u8>>, shape: Shape) -> Option<
    (PackerView, Option<nat>),
> {
    match tuple_places(p.used, p.len, addresses.len(), shape) {
        None => None,
        Some((places, used)) => Some(
            (
                PackerView { used, puts: p.puts + tuple_puts(places, name, addresses), ..p },
                if places.len() > 0 {
                    Some(places[0])
                } else {
                    None
                },
            ),
        ),
    }
}

pub proof fn lemma_tuple_places(used: nat, len: nat, n: nat, shape: Shape)
    requires
        used <= len,
    ensures
        tuple_places(used, len, n, shape) matches Some((places, u)) ==> {
            &&& places.len() == n
            &&& u <= len
            &&& forall|i: int| 0 <= i < n ==> used <= #[trigger] places[i] && places[i] + shape.tuple <= u
            &&& forall|i: int, j: int|
                0 <= i < j < n ==> (#[trigger] places[i]) + shape.tuple <= #[trigger] places[j]
            &&& used <= u
        },
    decreases n,
{
    if n > 0 {
        lemma_tuple_places(used, len, (n - 1) as nat, shape);
        if let Some((places, u)) = tuple_places(used, len, (n - 1) as nat, shape) {
            lemma_aligned(u, shape.tuple_align as nat);
        }
    }
}

pub proof fn lemma_aligned(n: nat, align: nat)
    ensures
        n <= aligned(n, align),
{
    if align > 0 {
        assert(n % align < align) by (nonlinear_arith)
            requires
                align > 0,
        ;
    }
}

pub open spec fn places_view(p: Seq<usize>) -> Seq<nat> {
    Seq::new(p.len(), |i: int| p[i] as nat)
}

/// A failed prefix of a list fails the list.
proof fn lemma_places_grow(used: nat, len: nat, k: nat, n: nat, shape: Shape)
    requires
        k <= n,
        tuple_places(used, len, k, shape) is None,
    ensures
        tuple_places(used, len, n, shape) is None,
    decreases n,
{
    if k < n {
        lemma_places_grow(used, len, k, (n - 1) as nat, shape);
    }
}

impl Packer {
    /// Put a list of addresses in; where the first is.
    pub fn tuples(&mut self, name: usize, addresses: &Vec<Vec<u8>>, shape: Shape) -> (r: Option<Option<usize>>)
        requires
            0 < shape.tuple_align <= isize::MAX,
        ensures
            match with_tuples(old(self)@, name as nat, octets::strings(addresses@), shape) {
                Some((p, first)) => r matches Some(f) && opt_place(f) == first && final(self)@ == p,
                None => r is None,
            },
    {
        let ghost all = octets::strings(addresses@);
        let ghost start = self@;
        proof {
            use_type_invariant(&*self);
        }
        let mut places: Vec<usize> = Vec::new();
        let mut i: usize = 0;
        assert(places_view(places@) =~= Seq::<nat>::empty());
        while i < addresses.len()
            invariant
                i <= addresses@.len(),
                0 < shape.tuple_align <= isize::MAX,
                all == octets::strings(addresses@),
                start == old(self)@,
                self@.puts == start.puts,
                self@.len == start.len,
                tuple_places(start.used, start.len, i as nat, shape) == Some((places_view(places@), self@.used)),
            decreases addresses@.len() - i,
        {
            match self.offset(shape.tuple, shape.tuple_align) {
                None => {
                    proof {
                        lemma_places_grow(start.used, start.len, (i + 1) as nat, all.len(), shape);
                    }
                    return None;
                },
                Some(at) => {
                    let ghost before = places_view(places@);
                    proof {
                        use_type_invariant(&*self);
                    }
                    self.used = at + shape.tuple;
                    places.push(at);
                    assert(places_view(places@) =~= before.push(at as nat));
                },
            }
            i += 1;
        }
        proof {
            use_type_invariant(&*self);
            lemma_tuple_places(start.used, start.len, all.len(), shape);
        }
        let ghost ready = self@;
        let ghost wanted = tuple_puts(places_view(places@), name as nat, all);
        let mut k: usize = 0;
        assert(wanted.take(0) =~= Seq::empty());
        assert(start.puts + wanted.take(0) =~= start.puts);
        while k < addresses.len()
            invariant
                k <= addresses@.len() == places@.len(),
                all == octets::strings(addresses@),
                wanted == tuple_puts(places_view(places@), name as nat, all),
                self@ == (PackerView { puts: start.puts + wanted.take(k as int), ..ready }),
            decreases addresses@.len() - k,
        {
            let next: Option<usize> = if k + 1 < places.len() {
                Some(places[k + 1])
            } else {
                None
            };
            assert(all[k as int] == addresses@[k as int]@);
            let put = Put::Tuple {
                at: places[k],
                next,
                name,
                v6: addresses[k].len() != 4,
                octets: octets::copy(addresses[k].as_slice()),
            };
            assert(put@ == wanted[k as int]);
            self.put(put);
            assert((start.puts + wanted.take(k as int)).push(wanted[k as int]) =~= start.puts + wanted.take(k + 1));
            k += 1;
        }
        assert(wanted.take(k as int) =~= wanted);
        if places.len() > 0 {
            Some(Some(places[0]))
        } else {
            Some(None)
        }
    }
}

} // verus!
