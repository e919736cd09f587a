//! A table of rows under numbers.
use vstd::prelude::*;

verus! {

/// Rows under numbers, in the order of the numbers.
#[derive(Debug)]
pub struct Table<T> {
    rows: Vec<(u64, T)>,
}

/// The numbers of rows.
spec fn row_numbers<T>(rows: Seq<(u64, T)>) -> Seq<u64> {
    Seq::new(rows.len(), |i: int| rows[i].0)
}

/// Where the row under a number is.
spec fn position<T>(rows: Seq<(u64, T)>, id: u64) -> int {
    choose|i: int| 0 <= i < rows.len() && rows[i].0 == id
}

spec fn contents<T: View>(rows: Seq<(u64, T)>) -> Map<u64, T::V> {
    Map::new(
        |k: u64| exists|i: int| 0 <= i < rows.len() && (#[trigger] rows[i]).0 == k,
        |k: u64| rows[position(rows, k)].1@,
    )
}

impl<T: View> View for Table<T> {
    type V = Map<u64, T::V>;

    closed spec fn view(&self) -> Map<u64, T::V> {
        contents(self.rows@)
    }
}

/// The numbers in use below `n`, in order.
pub open spec fn numbers_below<V>(m: Map<u64, V>, n: nat) -> Seq<u64>
    decreases n,
{
    if n == 0 {
        Seq::empty()
    } else if m.contains_key((n - 1) as u64) {
        numbers_below(m, (n - 1) as nat).push((n - 1) as u64)
    } else {
        numbers_below(m, (n - 1) as nat)
    }
}

/// The numbers in use, in order.
pub open spec fn numbers<V>(m: Map<u64, V>) -> Seq<u64> {
    numbers_below(m, 0x1_0000_0000_0000_0000)
}

pub open spec fn increasing(s: Seq<u64>) -> bool {
    forall|i: int, j: int| 0 <= i < j < s.len() ==> #[trigger] s[i] < #[trigger] s[j]
}

proof fn lemma_numbers_below<V>(m: Map<u64, V>, n: nat)
    requires
        n <= 0x1_0000_0000_0000_0000,
    ensures
        increasing(numbers_below(m, n)),
        forall|i: int|
            0 <= i < numbers_below(m, n).len() ==> (#[trigger] numbers_below(m, n)[i]) < n && m.contains_key(
                numbers_below(m, n)[i],
            ),
        forall|k: u64| k < n && #[trigger] m.contains_key(k) ==> numbers_below(m, n).contains(k),
    decreases n,
{
    if n > 0 {
        let before = numbers_below(m, (n - 1) as nat);
        lemma_numbers_below(m, (n - 1) as nat);
        assert forall|k: u64| k < n && #[trigger] m.contains_key(k) implies numbers_below(m, n).contains(k) by {
            if k == n - 1 {
                assert(numbers_below(m, n)[before.len() as int] == k);
            } else {
                let i = choose|i: int| 0 <= i < before.len() && before[i] == k;
                assert(numbers_below(m, n)[i] == k);
            }
        }
    }
}

/// The numbers in use come in order, each once, and all of them.
pub proof fn lemma_numbers<V>(m: Map<u64, V>)
    ensures
        increasing(numbers(m)),
        forall|i: int| 0 <= i < numbers(m).len() ==> m.contains_key(#[trigger] numbers(m)[i]),
        forall|k: u64| #[trigger] m.contains_key(k) ==> numbers(m).contains(k),
{
    lemma_numbers_below(m, 0x1_0000_0000_0000_0000);
}

/// As many numbers are in use as there are rows.
pub proof fn lemma_numbers_len<V>(m: Map<u64, V>)
    ensures
        m.dom().finite(),
        numbers(m).len() == m.len(),
{
    let a = numbers(m);
    lemma_numbers(m);
    assert(a.no_duplicates()) by {
        assert forall|i: int, j: int| 0 <= i < a.len() && 0 <= j < a.len() && i != j implies a[i] != a[j] by {
            if i < j {
                assert(a[i] < a[j]);
            } else {
                assert(a[j] < a[i]);
            }
        }
    }
    a.unique_seq_to_set();
    assert(a.to_set() =~= m.dom()) by {
        assert forall|k: u64| a.to_set().contains(k) <==> m.dom().contains(k) by {
            if m.contains_key(k) {
                assert(a.contains(k));
            }
        }
    }
}

proof fn lemma_increasing_unique(a: Seq<u64>, b: Seq<u64>)
    requires
        increasing(a),
        increasing(b),
        forall|i: int| 0 <= i < a.len() ==> b.contains(#[trigger] a[i]),
        forall|i: int| 0 <= i < b.len() ==> a.contains(#[trigger] b[i]),
    ensures
        a == b,
    decreases a.len(),
{
    if a.len() == 0 {
        if b.len() > 0 {
            assert(a.contains(b[0]));
        }
        assert(a =~= b);
    } else {
        assert(b.contains(a[0]));
        let x = a[a.len() - 1];
        let y = b[b.len() - 1];
        assert(x == y) by {
            assert(b.contains(x));
            assert(a.contains(y));
            let i = choose|i: int| 0 <= i < b.len() && b[i] == x;
            let j = choose|j: int| 0 <= j < a.len() && a[j] == y;
            assert(i < b.len() - 1 ==> b[i] < b[b.len() - 1]);
            assert(j < a.len() - 1 ==> a[j] < a[a.len() - 1]);
        }
        let p = a.drop_last();
        let q = b.drop_last();
        assert forall|i: int| 0 <= i < p.len() implies q.contains(#[trigger] p[i]) by {
            assert(b.contains(a[i]));
            let k = choose|k: int| 0 <= k < b.len() && b[k] == a[i];
            assert(a[i] < a[a.len() - 1]);
            assert(q[k] == p[i]);
        }
        assert forall|i: int| 0 <= i < q.len() implies p.contains(#[trigger] q[i]) by {
            assert(a.contains(b[i]));
            let k = choose|k: int| 0 <= k < a.len() && a[k] == b[i];
            assert(b[i] < b[b.len() - 1]);
            assert(p[k] == q[i]);
        }
        lemma_increasing_unique(p, q);
        assert(a =~= p.push(x));
        assert(b =~= q.push(y));
    }
}

proof fn lemma_position<T>(rows: Seq<(u64, T)>, i: int)
    requires
        increasing(row_numbers(rows)),
        0 <= i < rows.len(),
    ensures
        position(rows, rows[i].0) == i,
{
    let j = position(rows, rows[i].0);
    assert(rows[i].0 == rows[i].0);
    assert(row_numbers(rows)[i] == row_numbers(rows)[j]);
    if i < j {
        assert(row_numbers(rows)[i] < row_numbers(rows)[j]);
    } else if j < i {
        assert(row_numbers(rows)[j] < row_numbers(rows)[i]);
    }
}

proof fn lemma_contents<T: View>(rows: Seq<(u64, T)>)
    requires
        increasing(row_numbers(rows)),
    ensures
        forall|i: int|
            0 <= i < rows.len() ==> contents(rows).contains_key((#[trigger] rows[i]).0) && contents(rows)[rows[i].0]
                == rows[i].1@,
        row_numbers(rows) == numbers(contents(rows)),
        contents(rows).dom().finite(),
        contents(rows).len() == rows.len(),
{
    assert forall|i: int| 0 <= i < rows.len() implies contents(rows).contains_key((#[trigger] rows[i]).0)
        && contents(rows)[rows[i].0] == rows[i].1@ by {
        lemma_position(rows, i);
    }
    let a = row_numbers(rows);
    let m = contents(rows);
    lemma_numbers(m);
    assert forall|i: int| 0 <= i < a.len() implies numbers(m).contains(#[trigger] a[i]) by {
        assert(m.contains_key(rows[i].0));
    }
    assert forall|i: int| 0 <= i < numbers(m).len() implies a.contains(#[trigger] numbers(m)[i]) by {
        let k = numbers(m)[i];
        assert(m.contains_key(k));
        let j = choose|j: int| 0 <= j < rows.len() && (#[trigger] rows[j]).0 == k;
        assert(a[j] == k);
    }
    lemma_increasing_unique(a, numbers(m));
    assert(a.no_duplicates()) by {
        assert forall|i: int, j: int| 0 <= i < a.len() && 0 <= j < a.len() && i != j implies a[i] != a[j] by {
            if i < j {
                assert(a[i] < a[j]);
            } else {
                assert(a[j] < a[i]);
            }
        }
    }
    a.unique_seq_to_set();
    assert(a.to_set() =~= m.dom()) by {
        assert forall|k: u64| a.to_set().contains(k) <==> m.dom().contains(k) by {
            if m.contains_key(k) {
                let j = choose|j: int| 0 <= j < rows.len() && (#[trigger] rows[j]).0 == k;
                assert(a[j] == k);
            }
            if a.contains(k) {
                let j = choose|j: int| 0 <= j < a.len() && a[j] == k;
                assert(rows[j].0 == k);
            }
        }
    }
}

proof fn lemma_ordered<T>(rows: Seq<(u64, T)>)
    requires
        increasing(row_numbers(rows)),
    ensures
        forall|i: int, j: int| 0 <= i < j < rows.len() ==> (#[trigger] rows[i]).0 < (#[trigger] rows[j]).0,
{
    assert forall|i: int, j: int| 0 <= i < j < rows.len() implies (#[trigger] rows[i]).0 < (#[trigger] rows[j]).0 by {
        assert(row_numbers(rows)[i] < row_numbers(rows)[j]);
    }
}

proof fn lemma_replace<T: View>(before: Seq<(u64, T)>, p: int, id: u64, row: T)
    requires
        increasing(row_numbers(before)),
        0 <= p < before.len(),
        before[p].0 == id,
    ensures
        increasing(row_numbers(before.update(p, (id, row)))),
        contents(before.update(p, (id, row))) == contents(before).insert(id, row@),
{
    let after = before.update(p, (id, row));
    assert(row_numbers(after) =~= row_numbers(before));
    lemma_contents(before);
    lemma_contents(after);
    assert forall|k: u64| contents(after).contains_key(k) <==> contents(before).contains_key(k) by {
        if contents(after).contains_key(k) {
            let i = choose|i: int| 0 <= i < after.len() && (#[trigger] after[i]).0 == k;
            assert(before[i].0 == k);
        }
        if contents(before).contains_key(k) {
            let i = choose|i: int| 0 <= i < before.len() && (#[trigger] before[i]).0 == k;
            assert(after[i].0 == k);
        }
    }
    assert(contents(before).contains_key(before[p].0));
    assert forall|k: u64| contents(after).contains_key(k) implies #[trigger] contents(after)[k] == contents(
        before,
    ).insert(id, row@)[k] by {
        let i = choose|i: int| 0 <= i < after.len() && (#[trigger] after[i]).0 == k;
        assert(contents(after)[after[i].0] == after[i].1@);
        if i == p {
            assert(after[p].0 == id);
        } else {
            assert(contents(before)[before[i].0] == before[i].1@);
            lemma_ordered(before);
        }
    }
    assert(contents(after) =~= contents(before).insert(id, row@));
}

proof fn lemma_insert<T: View>(before: Seq<(u64, T)>, p: int, id: u64, row: T)
    requires
        increasing(row_numbers(before)),
        0 <= p <= before.len(),
        forall|i: int| 0 <= i < p ==> (#[trigger] before[i]).0 < id,
        forall|i: int| p <= i < before.len() ==> (#[trigger] before[i]).0 > id,
    ensures
        increasing(row_numbers(before.insert(p, (id, row)))),
        contents(before.insert(p, (id, row))) == contents(before).insert(id, row@),
{
    let after = before.insert(p, (id, row));
    let b = row_numbers(after);
    lemma_ordered(before);
    assert forall|i: int, j: int| 0 <= i < j < b.len() implies #[trigger] b[i] < #[trigger] b[j] by {
        assert(b[i] == after[i].0 && b[j] == after[j].0);
        let x = if i < p { i } else { i - 1 };
        let y = if j < p { j } else { j - 1 };
        if i != p && j != p {
            assert(before[x].0 < before[y].0);
        } else if i == p {
            assert(before[y].0 > id);
        } else {
            assert(before[x].0 < id);
        }
    }
    lemma_contents(before);
    lemma_contents(after);
    assert(after[p].0 == id);
    assert forall|k: u64| contents(after).contains_key(k) <==> contents(before).insert(id, row@).contains_key(k) by {
        if contents(after).contains_key(k) && k != id {
            let i = choose|i: int| 0 <= i < after.len() && (#[trigger] after[i]).0 == k;
            let j = if i < p { i } else { i - 1 };
            assert(before[j].0 == k);
        }
        if contents(before).contains_key(k) && k != id {
            let i = choose|i: int| 0 <= i < before.len() && (#[trigger] before[i]).0 == k;
            let j = if i < p { i } else { i + 1 };
            assert(after[j].0 == k);
        }
    }
    assert forall|k: u64| contents(after).contains_key(k) implies #[trigger] contents(after)[k] == contents(
        before,
    ).insert(id, row@)[k] by {
        let i = choose|i: int| 0 <= i < after.len() && (#[trigger] after[i]).0 == k;
        assert(contents(after)[after[i].0] == after[i].1@);
        if i != p {
            let j = if i < p { i } else { i - 1 };
            assert(before[j] == after[i]);
            assert(contents(before)[before[j].0] == before[j].1@);
        }
    }
    assert(contents(after) =~= contents(before).insert(id, row@));
}

proof fn lemma_remove<T: View>(before: Seq<(u64, T)>, p: int)
    requires
        increasing(row_numbers(before)),
        0 <= p < before.len(),
    ensures
        increasing(row_numbers(before.remove(p))),
        contents(before.remove(p)) == contents(before).remove(before[p].0),
{
    let after = before.remove(p);
    let id = before[p].0;
    let b = row_numbers(after);
    lemma_ordered(before);
    assert forall|i: int, j: int| 0 <= i < j < b.len() implies #[trigger] b[i] < #[trigger] b[j] by {
        assert(b[i] == after[i].0 && b[j] == after[j].0);
        let x = if i < p { i } else { i + 1 };
        let y = if j < p { j } else { j + 1 };
        assert(before[x].0 < before[y].0);
    }
    lemma_contents(before);
    lemma_contents(after);
    assert forall|k: u64| contents(after).contains_key(k) <==> contents(before).remove(id).contains_key(k) by {
        if contents(after).contains_key(k) {
            let i = choose|i: int| 0 <= i < after.len() && (#[trigger] after[i]).0 == k;
            let j = if i < p { i } else { i + 1 };
            assert(before[j].0 == k);
            assert(j < p ==> before[j].0 < before[p].0);
            assert(p < j ==> before[p].0 < before[j].0);
        }
        if contents(before).contains_key(k) && k != id {
            let i = choose|i: int| 0 <= i < before.len() && (#[trigger] before[i]).0 == k;
            let j = if i < p { i } else { i - 1 };
            assert(after[j].0 == k);
        }
    }
    assert forall|k: u64| contents(after).contains_key(k) implies #[trigger] contents(after)[k] == contents(
        before,
    ).remove(id)[k] by {
        let i = choose|i: int| 0 <= i < after.len() && (#[trigger] after[i]).0 == k;
        assert(contents(after)[after[i].0] == after[i].1@);
        let j = if i < p { i } else { i + 1 };
        assert(before[j] == after[i]);
        assert(contents(before)[before[j].0] == before[j].1@);
    }
    assert(contents(after) =~= contents(before).remove(id));
}

impl<T> Table<T> {
    #[verifier::type_invariant]
    spec fn inv(&self) -> bool {
        increasing(row_numbers(self.rows@))
    }
}

impl<T: View> Table<T> {
    pub fn new() -> (r: Table<T>)
        ensures
            r@ == Map::<u64, T::V>::empty(),
    {
        let rows: Vec<(u64, T)> = Vec::new();
        let r = Table { rows };
        assert(r@ =~= Map::<u64, T::V>::empty());
        r
    }

    pub fn len(&self) -> (n: usize)
        ensures
            n == self@.len(),
            self@.dom().finite(),
    {
        proof {
            use_type_invariant(self);
            lemma_contents(self.rows@);
        }
        self.rows.len()
    }

    /// The first place whose number is not below `id`.
    fn place(&self, id: u64) -> (p: usize)
        ensures
            p <= self.rows@.len(),
            forall|i: int| 0 <= i < p ==> (#[trigger] self.rows@[i]).0 < id,
            forall|i: int| p <= i < self.rows@.len() ==> (#[trigger] self.rows@[i]).0 >= id,
    {
        proof {
            use_type_invariant(self);
        }
        let ghost a = row_numbers(self.rows@);
        let mut low: usize = 0;
        let mut high: usize = self.rows.len();
        while low < high
            invariant
                low <= high <= self.rows@.len(),
                a == row_numbers(self.rows@),
                increasing(a),
                forall|i: int| 0 <= i < low ==> (#[trigger] self.rows@[i]).0 < id,
                forall|i: int| high <= i < self.rows@.len() ==> (#[trigger] self.rows@[i]).0 >= id,
            decreases high - low,
        {
            let middle: usize = low + (high - low) / 2;
            let number: u64 = self.rows[middle].0;
            assert(a[middle as int] == number);
            if number < id {
                assert forall|i: int| 0 <= i < middle + 1 implies (#[trigger] self.rows@[i]).0 < id by {
                    assert(a[i] == self.rows@[i].0);
                    assert(i < middle ==> a[i] < a[middle as int]);
                }
                low = middle + 1;
            } else {
                assert forall|i: int| middle <= i < self.rows@.len() implies (#[trigger] self.rows@[i]).0 >= id by {
                    assert(a[i] == self.rows@[i].0);
                    assert(middle < i ==> a[middle as int] < a[i]);
                }
                high = middle;
            }
        }
        low
    }

    pub fn get(&self, id: u64) -> (r: Option<&T>)
        ensures
            match r {
                Some(t) => self@.contains_key(id) && self@[id] == t@,
                None => !self@.contains_key(id),
            },
    {
        proof {
            use_type_invariant(self);
            lemma_contents(self.rows@);
        }
        let p: usize = self.place(id);
        if p < self.rows.len() && self.rows[p].0 == id {
            let row = &self.rows[p];
            assert(contents(self.rows@).contains_key(self.rows@[p as int].0));
            assert(*row == self.rows@[p as int]);
            Some(&row.1)
        } else {
            assert forall|i: int| 0 <= i < self.rows@.len() implies (#[trigger] self.rows@[i]).0 != id by {
                lemma_ordered(self.rows@);
                assert(i > p ==> self.rows@[p as int].0 < self.rows@[i].0);
            }
            None
        }
    }

    pub fn insert(&mut self, id: u64, row: T)
        ensures
            final(self)@ == old(self)@.insert(id, row@),
    {
        proof {
            use_type_invariant(&*self);
        }
        let p: usize = self.place(id);
        let ghost before = self.rows@;
        let mut rows: Vec<(u64, T)> = Vec::new();
        std::mem::swap(&mut rows, &mut self.rows);
        if p < rows.len() && rows[p].0 == id {
            proof {
                lemma_replace(before, p as int, id, row);
            }
            rows.set(p, (id, row));
        } else {
            proof {
                lemma_ordered(before);
                assert forall|i: int| p <= i < before.len() implies (#[trigger] before[i]).0 > id by {
                    assert(i > p ==> before[p as int].0 < before[i].0);
                }
                lemma_insert(before, p as int, id, row);
            }
            rows.insert(p, (id, row));
        }
        self.rows = rows;
    }

    pub fn remove(&mut self, id: u64) -> (r: Option<T>)
        ensures
            final(self)@ == old(self)@.remove(id),
            match r {
                Some(t) => old(self)@.contains_key(id) && old(self)@[id] == t@,
                None => !old(self)@.contains_key(id),
            },
    {
        proof {
            use_type_invariant(&*self);
            lemma_contents(self.rows@);
            lemma_ordered(self.rows@);
        }
        let p: usize = self.place(id);
        let ghost before = self.rows@;
        if p >= self.rows.len() || self.rows[p].0 != id {
            assert forall|i: int| 0 <= i < before.len() implies (#[trigger] before[i]).0 != id by {
                assert(i > p ==> before[p as int].0 < before[i].0);
            }
            assert(contents(before).remove(id) =~= contents(before));
            return None;
        }
        proof {
            assert(contents(before).contains_key(before[p as int].0));
            lemma_remove(before, p as int);
        }
        let mut rows: Vec<(u64, T)> = Vec::new();
        std::mem::swap(&mut rows, &mut self.rows);
        let (_, row): (u64, T) = rows.remove(p);
        self.rows = rows;
        Some(row)
    }

    /// The numbers in use, in order.
    pub fn numbers(&self) -> (r: Vec<u64>)
        ensures
            r@ == numbers(self@),
    {
        proof {
            use_type_invariant(self);
            lemma_contents(self.rows@);
        }
        let mut out: Vec<u64> = Vec::new();
        let mut i: usize = 0;
        while i < self.rows.len()
            invariant
                i <= self.rows@.len(),
                out@.len() == i,
                forall|j: int| 0 <= j < i ==> #[trigger] out@[j] == row_numbers(self.rows@)[j],
            decreases self.rows@.len() - i,
        {
            out.push(self.rows[i].0);
            i += 1;
        }
        assert(out@ =~= row_numbers(self.rows@));
        out
    }
}

} // verus!
