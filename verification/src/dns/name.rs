//! Domain names.
//!
//! A name is modelled by its labels, as byte strings, without the root label.
use crate::addr::{IpAddr, Ipv4Addr, Ipv6Addr};
use crate::dns::error::{Error, MAX_LABEL_LEN, MAX_NAME_LEN};
use crate::octets;
use crate::text;
use crate::text::{dec, lower};
use vstd::prelude::*;
use vstd::utf8::*;

verus! {

/// The labels of a name.
pub type Labels = Seq<Seq<u8>>;

/// What the labels take on the wire, each behind its length.
pub open spec fn labels_len(n: Labels) -> nat
    decreases n.len(),
{
    if n.len() == 0 {
        0
    } else {
        labels_len(n.drop_last()) + n.last().len() + 1
    }
}

/// Bytes on the wire, uncompressed, the root label with them.
pub open spec fn wire_len(n: Labels) -> nat {
    labels_len(n) + 1
}

pub open spec fn valid_label(l: Seq<u8>) -> bool {
    1 <= l.len() <= MAX_LABEL_LEN
}

/// Whether labels make a name.
pub open spec fn valid_name(n: Labels) -> bool {
    &&& forall|i: int| 0 <= i < n.len() ==> valid_label(#[trigger] n[i])
    &&& wire_len(n) <= MAX_NAME_LEN
}

/// A byte string with ASCII letters in lower case.
pub open spec fn fold_label(l: Seq<u8>) -> Seq<u8> {
    Seq::new(l.len(), |i: int| lower(l[i]))
}

/// A name with its letters in lower case.
pub open spec fn fold(n: Labels) -> Labels {
    Seq::new(n.len(), |i: int| fold_label(n[i]))
}

/// Whether two names are the same name: letters compare without case.
pub open spec fn same_name(a: Labels, b: Labels) -> bool {
    fold(a) == fold(b)
}

/// Whether a name is `suffix` or ends with it.
pub open spec fn ends_with(n: Labels, suffix: Labels) -> bool {
    n.len() >= suffix.len() && same_name(n.skip(n.len() - suffix.len()), suffix)
}

pub open spec fn labels_view(v: Seq<Vec<u8>>) -> Labels {
    Seq::new(v.len(), |i: int| v[i]@)
}

/// A domain name: a sequence of labels, without the trailing root label.
///
/// The labels are kept as bytes, so a label with a dot or a NUL in it is
/// representable and compared correctly.
#[derive(Debug, PartialOrd, Ord)]
pub struct Name {
    labels: Vec<Vec<u8>>,
}

impl View for Name {
    type V = Labels;

    closed spec fn view(&self) -> Labels {
        labels_view(self.labels@)
    }
}

impl DeepView for Name {
    type V = Labels;

    open spec fn deep_view(&self) -> Labels {
        self@
    }
}

fn copy_labels(v: &[Vec<u8>]) -> (r: Vec<Vec<u8>>)
    ensures
        labels_view(r@) == labels_view(v@),
{
    let mut out: Vec<Vec<u8>> = Vec::new();
    let mut i: usize = 0;
    while i < v.len()
        invariant
            i <= v@.len(),
            out@.len() == i,
            forall|j: int| 0 <= j < i ==> #[trigger] out@[j]@ == v@[j]@,
        decreases v@.len() - i,
    {
        out.push(octets::copy(v[i].as_slice()));
        i += 1;
    }
    assert(labels_view(out@) =~= labels_view(v@));
    out
}

fn same_label(a: &[u8], b: &[u8]) -> (r: bool)
    ensures
        r == (fold_label(a@) == fold_label(b@)),
{
    if a.len() != b.len() {
        assert(fold_label(a@).len() != fold_label(b@).len());
        return false;
    }
    let mut i: usize = 0;
    while i < a.len()
        invariant
            i <= a@.len() == b@.len(),
            forall|j: int| 0 <= j < i ==> lower(#[trigger] a@[j]) == lower(b@[j]),
        decreases a@.len() - i,
    {
        if text::to_lower(a[i]) != text::to_lower(b[i]) {
            assert(fold_label(a@)[i as int] != fold_label(b@)[i as int]);
            return false;
        }
        i += 1;
    }
    assert(fold_label(a@) =~= fold_label(b@));
    true
}

/// Whether labels from `from` on are those of `b`.
fn same_labels(a: &Vec<Vec<u8>>, from: usize, b: &Vec<Vec<u8>>) -> (r: bool)
    requires
        from + b@.len() == a@.len(),
    ensures
        r == same_name(labels_view(a@).skip(from as int), labels_view(b@)),
{
    let mut i: usize = 0;
    let len: usize = a.len();
    let ghost x = labels_view(a@).skip(from as int);
    let ghost y = labels_view(b@);
    while i < b.len()
        invariant
            i <= b@.len(),
            from + b@.len() == a@.len() == len,
            x == labels_view(a@).skip(from as int),
            y == labels_view(b@),
            forall|j: int| 0 <= j < i ==> fold_label(#[trigger] x[j]) == fold_label(y[j]),
        decreases b@.len() - i,
    {
        if !same_label(a[from + i].as_slice(), b[i].as_slice()) {
            assert(fold(x)[i as int] != fold(y)[i as int]);
            return false;
        }
        i += 1;
    }
    assert(fold(x) =~= fold(y));
    true
}

fn wire_len_of(labels: &Vec<Vec<u8>>) -> (r: Option<usize>)
    ensures
        r matches Some(n) ==> n == wire_len(labels_view(labels@)),
        r is None ==> wire_len(labels_view(labels@)) > MAX_NAME_LEN,
{
    let ghost all = labels_view(labels@);
    let mut n: usize = 1;
    let mut i: usize = 0;
    while i < labels.len()
        invariant
            i <= labels@.len(),
            all == labels_view(labels@),
            n == wire_len(all.take(i as int)),
        decreases labels@.len() - i,
    {
        assert(all.take(i + 1).drop_last() =~= all.take(i as int));
        let len: usize = labels[i].len();
        if len > usize::MAX - n || len + n == usize::MAX {
            proof {
                lemma_labels_len_split(all, i + 1);
            }
            return None;
        }
        n = n + len + 1;
        i += 1;
    }
    assert(all.take(i as int) =~= all);
    Some(n)
}

pub proof fn lemma_labels_len_split(n: Labels, k: int)
    requires
        0 <= k <= n.len(),
    ensures
        labels_len(n) == labels_len(n.take(k)) + labels_len(n.skip(k)),
    decreases n.len() - k,
{
    if k == n.len() {
        assert(n.take(k) =~= n);
        assert(n.skip(k) =~= Seq::empty());
    } else {
        lemma_labels_len_split(n.drop_last(), k);
        assert(n.drop_last().take(k) =~= n.take(k));
        assert(n.skip(k).drop_last() =~= n.drop_last().skip(k));
    }
}

proof fn lemma_fold_len(n: Labels)
    ensures
        labels_len(fold(n)) == labels_len(n),
        valid_name(n) ==> valid_name(fold(n)),
    decreases n.len(),
{
    if n.len() > 0 {
        lemma_fold_len(n.drop_last());
        assert(fold(n).drop_last() =~= fold(n.drop_last()));
    }
}

impl Name {
    #[verifier::type_invariant]
    spec fn inv(&self) -> bool {
        valid_name(labels_view(self.labels@))
    }

    /// Every name is valid.
    pub fn checked(&self)
        ensures
            valid_name(self@),
    {
        proof {
            use_type_invariant(self);
        }
    }

    pub fn root() -> (r: Name)
        ensures
            r@ == Seq::<Seq<u8>>::empty(),
    {
        let labels: Vec<Vec<u8>> = Vec::new();
        assert(labels_view(labels@) =~= Seq::empty());
        Name { labels }
    }

    /// A name of one label.
    pub fn single(label: &[u8]) -> (r: Name)
        requires
            valid_label(label@),
        ensures
            r@ == seq![label@],
    {
        let mut labels: Vec<Vec<u8>> = Vec::new();
        labels.push(octets::copy(label));
        proof {
            let n = labels_view(labels@);
            assert(n =~= seq![label@]);
            assert(n.drop_last() =~= Seq::empty());
            reveal_with_fuel(labels_len, 2);
        }
        Name { labels }
    }

    pub fn from_labels(labels: Vec<Vec<u8>>) -> (r: Result<Name, Error>)
        ensures
            ({
                let n = labels_view(labels@);
                match r {
                    Ok(name) => valid_name(n) && name@ == n,
                    Err(Error::BadName) => exists|i: int| 0 <= i < n.len() && !valid_label(#[trigger] n[i]),
                    Err(e) => e == Error::NameTooLong && wire_len(n) > MAX_NAME_LEN && forall|i: int|
                        0 <= i < n.len() ==> valid_label(#[trigger] n[i]),
                }
            }),
    {
        let ghost n = labels_view(labels@);
        let mut i: usize = 0;
        while i < labels.len()
            invariant
                i <= labels@.len(),
                n == labels_view(labels@),
                forall|j: int| 0 <= j < i ==> valid_label(#[trigger] n[j]),
            decreases labels@.len() - i,
        {
            let len: usize = labels[i].len();
            if len == 0 || len > MAX_LABEL_LEN {
                assert(!valid_label(n[i as int]));
                return Err(Error::BadName);
            }
            i += 1;
        }
        match wire_len_of(&labels) {
            Some(len) => {
                if len > MAX_NAME_LEN {
                    Err(Error::NameTooLong)
                } else {
                    Ok(Name { labels })
                }
            },
            None => Err(Error::NameTooLong),
        }
    }

    pub fn labels(&self) -> (r: &[Vec<u8>])
        ensures
            labels_view(r@) == self@,
            valid_name(self@),
    {
        proof {
            use_type_invariant(self);
        }
        self.labels.as_slice()
    }

    pub fn is_root(&self) -> (r: bool)
        ensures
            r == (self@.len() == 0),
    {
        self.labels.len() == 0
    }

    pub fn label_count(&self) -> (r: usize)
        ensures
            r == self@.len(),
    {
        self.labels.len()
    }

    /// Bytes on the wire, uncompressed, including the root label.
    pub fn wire_len(&self) -> (r: usize)
        ensures
            r == wire_len(self@),
            r <= MAX_NAME_LEN,
    {
        proof {
            use_type_invariant(self);
        }
        match wire_len_of(&self.labels) {
            Some(n) => n,
            None => 0,
        }
    }

    /// Whether two names agree in case too.
    pub fn same_case(&self, other: &Name) -> (r: bool)
        ensures
            r == (self@ == other@),
    {
        if self.labels.len() != other.labels.len() {
            assert(self@.len() != other@.len());
            return false;
        }
        let mut i: usize = 0;
        while i < self.labels.len()
            invariant
                i <= self.labels@.len() == other.labels@.len(),
                forall|j: int| 0 <= j < i ==> #[trigger] self@[j] == other@[j],
            decreases self.labels@.len() - i,
        {
            if !octets::equal(self.labels[i].as_slice(), other.labels[i].as_slice()) {
                assert(self@[i as int] != other@[i as int]);
                return false;
            }
            i += 1;
        }
        assert(self@ =~= other@);
        true
    }

    /// `self` is `suffix` or ends with it (case-insensitively).
    pub fn ends_with(&self, suffix: &Name) -> (r: bool)
        ensures
            r == ends_with(self@, suffix@),
    {
        if suffix.labels.len() > self.labels.len() {
            return false;
        }
        same_labels(&self.labels, self.labels.len() - suffix.labels.len(), &suffix.labels)
    }

    /// `self` with `suffix` appended: `host` and `example.com` make
    /// `host.example.com`.
    pub fn join(&self, suffix: &Name) -> (r: Result<Name, Error>)
        ensures
            match r {
                Ok(name) => name@ == self@ + suffix@,
                Err(e) => e == Error::NameTooLong && wire_len(self@ + suffix@) > MAX_NAME_LEN,
            },
    {
        proof {
            use_type_invariant(self);
            use_type_invariant(suffix);
        }
        let mut labels = copy_labels(self.labels.as_slice());
        let mut more = copy_labels(suffix.labels.as_slice());
        let ghost a = labels@;
        let ghost b = more@;
        labels.append(&mut more);
        assert(labels_view(labels@) =~= labels_view(a) + labels_view(b));
        Name::from_labels(labels)
    }

    /// The name with every label lowercased.
    pub fn to_lowercase(&self) -> (r: Name)
        ensures
            r@ == fold(self@),
    {
        let mut out: Vec<Vec<u8>> = Vec::new();
        let mut i: usize = 0;
        while i < self.labels.len()
            invariant
                i <= self.labels@.len(),
                out@.len() == i,
                forall|j: int| 0 <= j < i ==> #[trigger] out@[j]@ == fold_label(self.labels@[j]@),
            decreases self.labels@.len() - i,
        {
            let l = &self.labels[i];
            let mut low: Vec<u8> = Vec::new();
            let mut k: usize = 0;
            while k < l.len()
                invariant
                    k <= l@.len(),
                    low@.len() == k,
                    forall|j: int| 0 <= j < k ==> #[trigger] low@[j] == lower(l@[j]),
                decreases l@.len() - k,
            {
                low.push(text::to_lower(l[k]));
                k += 1;
            }
            assert(low@ =~= fold_label(l@));
            out.push(low);
            i += 1;
        }
        assert(labels_view(out@) =~= fold(self@));
        proof {
            use_type_invariant(self);
            lemma_fold_len(self@);
        }
        Name { labels: out }
    }
}

impl Clone for Name {
    fn clone(&self) -> (r: Name)
        ensures
            r@ == self@,
    {
        proof {
            use_type_invariant(self);
        }
        Name { labels: copy_labels(self.labels.as_slice()) }
    }
}

impl Default for Name {
    fn default() -> (r: Name)
        ensures
            r@ == Seq::<Seq<u8>>::empty(),
    {
        Name::root()
    }
}

impl PartialEq for Name {
    fn eq(&self, other: &Name) -> (r: bool) {
        if self.labels.len() != other.labels.len() {
            assert(fold(self@).len() != fold(other@).len());
            return false;
        }
        assert(self@.skip(0) =~= self@);
        same_labels(&self.labels, 0, &other.labels)
    }
}

impl vstd::std_specs::cmp::PartialEqSpecImpl for Name {
    open spec fn obeys_eq_spec() -> bool {
        true
    }

    open spec fn eq_spec(&self, other: &Name) -> bool {
        same_name(self@, other@)
    }
}

impl Eq for Name {

}

// Names on the wire.

/// The labels, each behind its length, and the root label.
pub open spec fn name_bytes(n: Labels) -> Seq<u8>
    decreases n.len(),
{
    if n.len() == 0 {
        seq![0u8]
    } else {
        seq![n[0].len() as u8] + n[0] + name_bytes(n.skip(1))
    }
}

pub proof fn lemma_name_bytes_len(n: Labels)
    ensures
        name_bytes(n).len() == wire_len(n),
    decreases n.len(),
{
    if n.len() > 0 {
        lemma_name_bytes_len(n.skip(1));
        lemma_labels_len_split(n, 1);
        assert(n.take(1).drop_last() =~= Seq::empty());
        reveal_with_fuel(labels_len, 2);
    }
}

/// The labels that stand at `p` of a message, `total` bytes of labels and
/// `hops` pointers into a name; and the position after them, which is after
/// the first pointer where there is one.
pub open spec fn read_labels(msg: Seq<u8>, p: int, total: nat, hops: nat) -> Result<(Labels, int), Error>
    decreases 65 - hops, msg.len() - p,
{
    if p < 0 || p >= msg.len() {
        Err(Error::Truncated)
    } else {
        let len = msg[p] as int;
        if len == 0 {
            Ok((Seq::empty(), p + 1))
        } else if len < 0x40 {
            if p + 1 + len > msg.len() {
                Err(Error::Truncated)
            } else if total + len + 2 > MAX_NAME_LEN {
                Err(Error::NameTooLong)
            } else {
                match read_labels(msg, p + 1 + len, (total + len + 1) as nat, hops) {
                    Ok((more, end)) => Ok((seq![msg.subrange(p + 1, p + 1 + len)] + more, end)),
                    Err(e) => Err(e),
                }
            }
        } else if len >= 0xc0 {
            if p + 1 >= msg.len() {
                Err(Error::Truncated)
            } else {
                let target = (len - 0xc0) * 0x100 + msg[p + 1];
                if target >= p || hops >= 64 {
                    Err(Error::BadPointer)
                } else {
                    match read_labels(msg, target, total, hops + 1) {
                        Ok((labels, _)) => Ok((labels, p + 2)),
                        Err(e) => Err(e),
                    }
                }
            }
        } else {
            Err(Error::BadLabel)
        }
    }
}

/// The name at `p` of a message, and the position after it.
pub open spec fn read_name(msg: Seq<u8>, p: int) -> Result<(Labels, int), Error> {
    read_labels(msg, p, 0, 0)
}

/// What reading gives when `prefix` has been read and a first pointer ended at
/// `end`.
spec fn continued(prefix: Labels, end: Option<usize>, r: Result<(Labels, int), Error>) -> Result<
    (Labels, int),
    Error,
> {
    match r {
        Ok((labels, e)) => Ok(
            (
                prefix + labels,
                match end {
                    Some(end) => end as int,
                    None => e,
                },
            ),
        ),
        Err(e) => Err(e),
    }
}

impl Name {
    pub(crate) fn write(&self, out: &mut Vec<u8>)
        ensures
            final(out)@ == old(out)@ + name_bytes(self@),
    {
        proof {
            use_type_invariant(self);
        }
        let mut i: usize = 0;
        let ghost n = self@;
        assert(n.skip(0) =~= n);
        while i < self.labels.len()
            invariant
                i <= self.labels@.len(),
                n == labels_view(self.labels@),
                valid_name(n),
                out@ + name_bytes(n.skip(i as int)) == old(out)@ + name_bytes(n),
            decreases self.labels@.len() - i,
        {
            let l = self.labels[i].as_slice();
            assert(valid_label(n[i as int]));
            assert(n.skip(i as int).skip(1) =~= n.skip(i + 1));
            let ghost before = out@;
            out.push(l.len() as u8);
            octets::push_all(out, l);
            assert(out@ + name_bytes(n.skip(i + 1)) =~= before + name_bytes(n.skip(i as int)));
            i += 1;
        }
        assert(n.skip(i as int) =~= Seq::empty());
        out.push(0);
        assert(out@ =~= old(out)@ + name_bytes(n));
    }

    /// Read a possibly-compressed name at `pos` in `msg`. Returns the name and
    /// the position after it in the *uncompressed* stream (i.e. after the
    /// first pointer, if any).
    pub(crate) fn read(msg: &[u8], pos: usize) -> (r: Result<(Name, usize), Error>)
        ensures
            match read_name(msg@, pos as int) {
                Ok((n, end)) => r matches Ok((name, next)) && name@ == n && next == end && next <= msg@.len(),
                Err(e) => r matches Err(err) && err == e,
            },
    {
        let mut labels: Vec<Vec<u8>> = Vec::new();
        let mut total: usize = 0;
        let mut p: usize = pos;
        let mut end: Option<usize> = None;
        let mut hops: usize = 0;
        let ghost whole = read_name(msg@, pos as int);
        assert(labels_view(labels@) =~= Seq::empty());
        assert(whole == continued(labels_view(labels@), end, read_labels(msg@, p as int, 0, 0))) by {
            if let Ok((n, _)) = whole {
                assert(Seq::<Seq<u8>>::empty() + n =~= n);
            }
        }
        loop
            invariant_except_break
                whole == continued(
                    labels_view(labels@),
                    end,
                    read_labels(msg@, p as int, total as nat, hops as nat),
                ),
            invariant
                whole == read_name(msg@, pos as int),
                hops <= 64,
                total == labels_len(labels_view(labels@)),
                total + 1 <= MAX_NAME_LEN,
                end matches Some(e) ==> e <= msg@.len(),
                forall|j: int| 0 <= j < labels@.len() ==> valid_label(#[trigger] labels_view(labels@)[j]),
            ensures
                ({
                    let at = match end {
                        Some(e) => e,
                        None => p,
                    };
                    &&& whole == Ok::<(Labels, int), Error>((labels_view(labels@), at as int))
                    &&& at <= msg@.len()
                }),
                valid_name(labels_view(labels@)),
                whole == read_name(msg@, pos as int),
            decreases 65 - hops, msg@.len() - p,
        {
            if p >= msg.len() {
                return Err(Error::Truncated);
            }
            let len: usize = msg[p] as usize;
            if len < 0x40 {
                p += 1;
                if len == 0 {
                    assert(labels_view(labels@) + Seq::<Seq<u8>>::empty() =~= labels_view(labels@));
                    break;
                }
                if len > msg.len() - p {
                    return Err(Error::Truncated);
                }
                total += len + 1;
                if total + 1 > MAX_NAME_LEN {
                    return Err(Error::NameTooLong);
                }
                let ghost before = labels_view(labels@);
                let label = octets::copy_range(msg, p, p + len);
                let ghost l = label@;
                labels.push(label);
                p += len;
                proof {
                    assert(labels_view(labels@) =~= before.push(l));
                    assert(labels_view(labels@).drop_last() =~= before);
                    let r = read_labels(msg@, p as int, total as nat, hops as nat);
                    if let Ok((more, _)) = r {
                        assert(before + (seq![l] + more) =~= labels_view(labels@) + more);
                    }
                }
            } else if len >= 0xc0 {
                if msg.len() - p < 2 {
                    return Err(Error::Truncated);
                }
                let target: usize = (len - 0xc0) * 0x100 + msg[p + 1] as usize;
                if end.is_none() {
                    end = Some(p + 2);
                }
                if target >= p {
                    return Err(Error::BadPointer);
                }
                hops += 1;
                if hops > 64 {
                    return Err(Error::BadPointer);
                }
                p = target;
            } else {
                return Err(Error::BadLabel);
            }
        }
        let next = match end {
            Some(e) => e,
            None => p,
        };
        Ok((Name { labels }, next))
    }
}

/// What is read is a name.
pub proof fn lemma_read_valid(msg: Seq<u8>, p: int, total: nat, hops: nat)
    requires
        total + 1 <= MAX_NAME_LEN,
    ensures
        read_labels(msg, p, total, hops) matches Ok((n, end)) ==> {
            &&& forall|i: int| 0 <= i < n.len() ==> valid_label(#[trigger] n[i])
            &&& total + labels_len(n) + 1 <= MAX_NAME_LEN
            &&& p < end <= msg.len()
        },
    decreases 65 - hops, msg.len() - p,
{
    if 0 <= p < msg.len() {
        let len = msg[p] as int;
        if 0 < len < 0x40 && p + 1 + len <= msg.len() && total + len + 2 <= MAX_NAME_LEN {
            lemma_read_valid(msg, p + 1 + len, (total + len + 1) as nat, hops);
            if let Ok((more, _)) = read_labels(msg, p + 1 + len, (total + len + 1) as nat, hops) {
                let l = msg.subrange(p + 1, p + 1 + len);
                let n = seq![l] + more;
                lemma_labels_len_split(n, 1);
                assert(n.skip(1) =~= more);
                assert(n.take(1) =~= seq![l]);
                assert(seq![l].drop_last() =~= Seq::<Seq<u8>>::empty());
                reveal_with_fuel(labels_len, 2);
                assert forall|i: int| 0 <= i < n.len() implies valid_label(#[trigger] n[i]) by {
                    if i > 0 {
                        assert(n[i] == more[i - 1]);
                    }
                }
            }
        } else if len >= 0xc0 && p + 1 < msg.len() && hops < 64 {
            let target = (len - 0xc0) * 0x100 + msg[p + 1];
            if target < p {
                lemma_read_valid(msg, target, total, hops + 1);
            }
        } else if len == 0 {
            assert(labels_len(Seq::<Seq<u8>>::empty()) == 0);
        }
    }
}

/// A name that stands in a message uncompressed is what is read there.
pub proof fn lemma_read_written(msg: Seq<u8>, p: int, n: Labels, total: nat, hops: nat)
    requires
        0 <= p,
        p + name_bytes(n).len() <= msg.len(),
        msg.subrange(p, p + name_bytes(n).len()) == name_bytes(n),
        forall|i: int| 0 <= i < n.len() ==> valid_label(#[trigger] n[i]),
        total + labels_len(n) + 1 <= MAX_NAME_LEN,
    ensures
        read_labels(msg, p, total, hops) == Ok::<(Labels, int), Error>((n, p + name_bytes(n).len())),
    decreases n.len(),
{
    let b = name_bytes(n);
    let s = msg.subrange(p, p + b.len());
    assert(s[0] == msg[p]);
    if n.len() > 0 {
        let l = n[0];
        let rest = n.skip(1);
        assert(valid_label(l));
        assert(b[0] == l.len());
        assert(msg.subrange(p + 1, p + 1 + l.len()) =~= l) by {
            assert forall|k: int| 0 <= k < l.len() implies msg[p + 1 + k] == #[trigger] l[k] by {
                assert(b[1 + k] == l[k]);
                assert(s[1 + k] == msg[p + 1 + k]);
            }
        }
        let at = p + 1 + l.len();
        assert(msg.subrange(at, at + name_bytes(rest).len()) =~= name_bytes(rest)) by {
            assert forall|k: int| 0 <= k < name_bytes(rest).len() implies msg[at + k] == #[trigger] name_bytes(rest)[k] by {
                assert(b[1 + l.len() + k] == name_bytes(rest)[k]);
                assert(s[1 + l.len() + k] == msg[at + k]);
            }
        }
        lemma_labels_len_split(n, 1);
        assert(n.take(1) =~= seq![l]);
        assert(seq![l].drop_last() =~= Seq::<Seq<u8>>::empty());
        reveal_with_fuel(labels_len, 2);
        assert forall|i: int| 0 <= i < rest.len() implies valid_label(#[trigger] rest[i]) by {
            assert(rest[i] == n[i + 1]);
        }
        lemma_read_written(msg, at, rest, (total + l.len() + 1) as nat, hops);
        assert(seq![l] + rest =~= n);
    } else {
        assert(n =~= Seq::empty());
    }
}

// Names as text.

/// A byte of a label as text: printable characters stand for themselves, dots
/// and backslashes behind a backslash, the rest as three decimal digits behind
/// one.
pub open spec fn byte_text(b: u8) -> Seq<u8> {
    if b == 0x2e || b == 0x5c {
        seq![0x5cu8, b]
    } else if 0x21 <= b <= 0x7e {
        seq![b]
    } else {
        seq![0x5cu8, (0x30 + b / 100) as u8, (0x30 + b / 10 % 10) as u8, (0x30 + b % 10) as u8]
    }
}

pub open spec fn label_text(l: Seq<u8>) -> Seq<u8>
    decreases l.len(),
{
    if l.len() == 0 {
        Seq::empty()
    } else {
        label_text(l.drop_last()) + byte_text(l.last())
    }
}

/// Labels with dots between them.
pub open spec fn dotted(n: Labels) -> Seq<u8>
    decreases n.len(),
{
    if n.len() == 0 {
        Seq::empty()
    } else if n.len() == 1 {
        label_text(n[0])
    } else {
        dotted(n.drop_last()) + seq![0x2eu8] + label_text(n.last())
    }
}

/// A name as text; the root is a dot.
pub open spec fn name_text(n: Labels) -> Seq<u8> {
    if n.len() == 0 {
        seq![0x2eu8]
    } else {
        dotted(n)
    }
}

proof fn lemma_label_text_ascii(l: Seq<u8>)
    ensures
        text::is_ascii(label_text(l)),
    decreases l.len(),
{
    if l.len() > 0 {
        lemma_label_text_ascii(l.drop_last());
    }
}

proof fn lemma_dotted_ascii(n: Labels)
    ensures
        text::is_ascii(dotted(n)),
    decreases n.len(),
{
    if n.len() == 1 {
        lemma_label_text_ascii(n[0]);
    } else if n.len() > 1 {
        lemma_dotted_ascii(n.drop_last());
        lemma_label_text_ascii(n.last());
    }
}

pub proof fn lemma_name_text_ascii(n: Labels)
    ensures
        text::is_ascii(name_text(n)),
{
    lemma_dotted_ascii(n);
}

fn push_label_text(out: &mut Vec<u8>, l: &[u8])
    ensures
        final(out)@ == old(out)@ + label_text(l@),
{
    let mut i: usize = 0;
    assert(label_text(l@.take(0)) =~= Seq::empty());
    assert(old(out)@ + Seq::<u8>::empty() =~= old(out)@);
    while i < l.len()
        invariant
            i <= l@.len(),
            out@ == old(out)@ + label_text(l@.take(i as int)),
        decreases l@.len() - i,
    {
        let b: u8 = l[i];
        let ghost before = out@;
        assert(l@.take(i + 1).drop_last() =~= l@.take(i as int));
        if b == 0x2e || b == 0x5c {
            out.push(0x5c);
            out.push(b);
        } else if b >= 0x21 && b <= 0x7e {
            out.push(b);
        } else {
            out.push(0x5c);
            out.push(0x30 + b / 100);
            out.push(0x30 + b / 10 % 10);
            out.push(0x30 + b % 10);
        }
        assert(out@ =~= before + byte_text(b));
        proof {
            octets::lemma_join(old(out)@, label_text(l@.take(i as int)), byte_text(b));
        }
        i += 1;
    }
    assert(l@.take(i as int) =~= l@);
}

impl Name {
    /// Appends the name as text.
    pub fn push_text(&self, out: &mut Vec<u8>)
        ensures
            final(out)@ == old(out)@ + name_text(self@),
    {
        let ghost n = self@;
        if self.labels.len() == 0 {
            out.push(0x2e);
            assert(out@ =~= old(out)@ + name_text(n));
            return ;
        }
        push_label_text(out, self.labels[0].as_slice());
        let mut i: usize = 1;
        assert(n.take(1)[0] == n[0]);
        while i < self.labels.len()
            invariant
                1 <= i <= self.labels@.len(),
                n == labels_view(self.labels@),
                out@ == old(out)@ + dotted(n.take(i as int)),
            decreases self.labels@.len() - i,
        {
            assert(n.take(i + 1).drop_last() =~= n.take(i as int));
            out.push(0x2e);
            push_label_text(out, self.labels[i].as_slice());
            assert(out@ =~= old(out)@ + dotted(n.take(i + 1)));
            i += 1;
        }
        assert(n.take(i as int) =~= n);
    }

    /// The name as text.
    pub fn to_text(&self) -> (r: String)
        ensures
            r@ == text::chars(name_text(self@)),
            encode_utf8(r@) == name_text(self@),
    {
        let mut out: Vec<u8> = Vec::new();
        self.push_text(&mut out);
        assert(out@ =~= name_text(self@));
        proof {
            lemma_name_text_ascii(self@);
        }
        text::ascii_string(out.as_slice())
    }
}

/// The pieces of a text between its dots.
pub open spec fn split(b: Seq<u8>) -> Labels
    decreases b.len(),
{
    if b.len() == 0 {
        seq![Seq::empty()]
    } else {
        let before = split(b.drop_last());
        if b.last() == 0x2e {
            before.push(Seq::empty())
        } else {
            before.drop_last().push(before.last().push(b.last()))
        }
    }
}

/// A text without a dot at its end.
pub open spec fn undotted(b: Seq<u8>) -> Seq<u8> {
    if b.len() > 0 && b.last() == 0x2e {
        b.drop_last()
    } else {
        b
    }
}

/// The name that a text writes.
pub open spec fn name_of_text(b: Seq<u8>) -> Result<Labels, Error> {
    let b = undotted(b);
    let n = split(b);
    if b.len() == 0 {
        Ok(Seq::empty())
    } else if exists|i: int| 0 <= i < n.len() && !valid_label(#[trigger] n[i]) {
        Err(Error::BadName)
    } else if wire_len(n) > MAX_NAME_LEN {
        Err(Error::NameTooLong)
    } else {
        Ok(n)
    }
}

impl Name {
    /// Parse presentation form: `www.example.com` or `www.example.com.`.
    /// Escapes are not supported (nothing here produces them).
    pub fn parse(s: &str) -> (r: Result<Name, Error>)
        ensures
            match name_of_text(encode_utf8(s@)) {
                Ok(n) => r matches Ok(name) && name@ == n,
                Err(e) => r matches Err(err) && err == e,
            },
    {
        Name::parse_bytes(s.as_bytes())
    }

    fn parse_bytes(b: &[u8]) -> (r: Result<Name, Error>)
        ensures
            match name_of_text(b@) {
                Ok(n) => r matches Ok(name) && name@ == n,
                Err(e) => r matches Err(err) && err == e,
            },
    {
        let mut len: usize = b.len();
        if len > 0 && b[len - 1] == 0x2e {
            len -= 1;
        }
        let ghost t = undotted(b@);
        assert(b@.take(len as int) =~= t);
        if len == 0 {
            return Ok(Name::root());
        }
        let mut labels: Vec<Vec<u8>> = Vec::new();
        let mut current: Vec<u8> = Vec::new();
        let mut i: usize = 0;
        assert(labels_view(labels@).push(current@) =~= split(t.take(0)));
        while i < len
            invariant
                i <= len <= b@.len(),
                len == t.len(),
                b@.take(len as int) == t,
                labels_view(labels@).push(current@) == split(t.take(i as int)),
            decreases len - i,
        {
            assert(t.take(i + 1).drop_last() =~= t.take(i as int));
            let ghost before = labels_view(labels@);
            let ghost word = current@;
            assert(before.push(word).drop_last() =~= before);
            assert(t[i as int] == b@[i as int]);
            if b[i] == 0x2e {
                labels.push(current);
                current = Vec::new();
                assert(labels_view(labels@) =~= before.push(word));
                assert(current@ =~= Seq::empty());
            } else {
                current.push(b[i]);
            }
            assert(labels_view(labels@).push(current@) =~= split(t.take(i + 1)));
            i += 1;
        }
        assert(t.take(i as int) =~= t);
        let ghost before = labels_view(labels@);
        let ghost word = current@;
        labels.push(current);
        assert(labels_view(labels@) =~= before.push(word));
        Name::from_labels(labels)
    }
}

/// Whether every byte of a label is printable and none is a dot or a
/// backslash.
pub open spec fn plain_label(l: Seq<u8>) -> bool {
    forall|i: int| 0 <= i < l.len() ==> 0x21 <= #[trigger] l[i] <= 0x7e && l[i] != 0x2e && l[i] != 0x5c
}

proof fn lemma_plain_text(l: Seq<u8>)
    requires
        plain_label(l),
    ensures
        label_text(l) == l,
    decreases l.len(),
{
    if l.len() > 0 {
        let front = l.drop_last();
        assert forall|i: int| 0 <= i < front.len() implies 0x21 <= #[trigger] front[i] <= 0x7e && front[i] != 0x2e
            && front[i] != 0x5c by {
            assert(front[i] == l[i]);
        }
        lemma_plain_text(front);
        assert(l[l.len() - 1] == l.last());
        assert(front + seq![l.last()] =~= l);
    } else {
        assert(l =~= Seq::empty());
    }
}

proof fn lemma_split_nonempty(b: Seq<u8>)
    ensures
        split(b).len() >= 1,
    decreases b.len(),
{
    if b.len() > 0 {
        lemma_split_nonempty(b.drop_last());
    }
}

proof fn lemma_split_after_dot(a: Seq<u8>, l: Seq<u8>)
    requires
        plain_label(l),
    ensures
        split(a + seq![0x2eu8] + l) == split(a).push(l),
    decreases l.len(),
{
    let s = a + seq![0x2eu8] + l;
    if l.len() == 0 {
        assert(s.drop_last() =~= a);
        assert(l =~= Seq::empty());
    } else {
        let front = l.drop_last();
        assert forall|i: int| 0 <= i < front.len() implies 0x21 <= #[trigger] front[i] <= 0x7e && front[i] != 0x2e
            && front[i] != 0x5c by {
            assert(front[i] == l[i]);
        }
        lemma_split_after_dot(a, front);
        assert(s.drop_last() =~= a + seq![0x2eu8] + front);
        assert(l[l.len() - 1] == l.last());
        assert(split(a).push(front).drop_last() =~= split(a));
        assert(front.push(l.last()) =~= l);
    }
}

proof fn lemma_split_word(l: Seq<u8>)
    requires
        plain_label(l),
    ensures
        split(l) == seq![l],
    decreases l.len(),
{
    if l.len() == 0 {
        assert(l =~= Seq::empty());
    } else {
        let front = l.drop_last();
        assert forall|i: int| 0 <= i < front.len() implies 0x21 <= #[trigger] front[i] <= 0x7e && front[i] != 0x2e
            && front[i] != 0x5c by {
            assert(front[i] == l[i]);
        }
        lemma_split_word(front);
        assert(l[l.len() - 1] == l.last());
        assert(front.push(l.last()) =~= l);
        assert(seq![front].drop_last().push(l) =~= seq![l]);
    }
}

proof fn lemma_split_dotted(n: Labels)
    requires
        n.len() > 0,
        forall|i: int| 0 <= i < n.len() ==> valid_label(#[trigger] n[i]) && plain_label(n[i]),
    ensures
        split(dotted(n)) == n,
        dotted(n).len() > 0,
        dotted(n).last() != 0x2e,
    decreases n.len(),
{
    assert(valid_label(n[n.len() - 1]) && plain_label(n[n.len() - 1]));
    let l = n.last();
    lemma_plain_text(l);
    assert(l[l.len() - 1] == l.last());
    if n.len() == 1 {
        lemma_split_word(l);
        assert(seq![l] =~= n);
    } else {
        lemma_split_dotted(n.drop_last());
        lemma_split_after_dot(dotted(n.drop_last()), l);
        assert(n.drop_last().push(l) =~= n);
    }
}

/// A name of printable labels without dots and backslashes reads back from its
/// text.
pub proof fn law_name_text_round_trip(n: Labels)
    requires
        valid_name(n),
        forall|i: int| 0 <= i < n.len() ==> plain_label(#[trigger] n[i]),
    ensures
        name_of_text(name_text(n)) == Ok::<Labels, Error>(n),
{
    if n.len() == 0 {
        assert(undotted(name_text(n)) =~= Seq::empty());
        assert(n =~= Seq::empty());
    } else {
        assert forall|i: int| 0 <= i < n.len() implies valid_label(#[trigger] n[i]) && plain_label(n[i]) by {
        }
        lemma_split_dotted(n);
    }
}

/// Whatever parses is a name.
pub proof fn law_parsed_name_is_valid(b: Seq<u8>)
    ensures
        name_of_text(b) matches Ok(n) ==> valid_name(n),
{
    assert(labels_len(Seq::<Seq<u8>>::empty()) == 0);
}

// Hashing.

/// `<[u8] as std::hash::Hash>::hash`: feeds the bytes to a hasher. Nothing is
/// claimed of the hasher's state.
#[verifier::external_body]
fn hash_bytes<H: std::hash::Hasher>(b: &[u8], state: &mut H) {
    std::hash::Hash::hash(b, state)
}

impl Name {
    /// What stands for the name where names are hashed: its wire form in lower
    /// case.
    pub fn hash_key(&self) -> (r: Vec<u8>)
        ensures
            r@ == name_bytes(fold(self@)),
    {
        let mut key: Vec<u8> = Vec::new();
        self.to_lowercase().write(&mut key);
        assert(key@ =~= name_bytes(fold(self@)));
        key
    }
}

impl std::hash::Hash for Name {
    fn hash<H: std::hash::Hasher>(&self, state: &mut H) {
        let key = self.hash_key();
        hash_bytes(key.as_slice(), state);
    }
}

/// Names that compare equal are hashed alike, and only those.
pub proof fn law_hash_key(a: Labels, b: Labels)
    requires
        valid_name(a),
        valid_name(b),
    ensures
        same_name(a, b) <==> name_bytes(fold(a)) == name_bytes(fold(b)),
{
    lemma_fold_len(a);
    lemma_fold_len(b);
    if name_bytes(fold(a)) == name_bytes(fold(b)) {
        let msg = name_bytes(fold(a));
        assert(msg.subrange(0, msg.len() as int) =~= msg);
        lemma_read_written(msg, 0, fold(a), 0, 0);
        lemma_read_written(msg, 0, fold(b), 0, 0);
    }
}

// Case randomisation.

pub open spec fn is_letter(b: u8) -> bool {
    0x41 <= b <= 0x5a || 0x61 <= b <= 0x7a
}

/// A letter in the other case.
pub open spec fn swap_case(b: u8) -> u8 {
    if b <= 0x5a {
        (b + 32) as u8
    } else {
        (b - 32) as u8
    }
}

/// How many letters a label has.
pub open spec fn label_letters(l: Seq<u8>) -> nat
    decreases l.len(),
{
    if l.len() == 0 {
        0
    } else {
        label_letters(l.drop_last()) + if is_letter(l.last()) {
            1nat
        } else {
            0nat
        }
    }
}

/// How many letters a name has.
pub open spec fn letters(n: Labels) -> nat
    decreases n.len(),
{
    if n.len() == 0 {
        0
    } else {
        letters(n.drop_last()) + label_letters(n.last())
    }
}

/// A label in which letter `k` is in the other case where choice `at + k` says
/// so.
pub open spec fn flipped_label(l: Seq<u8>, choices: Seq<bool>, at: nat) -> Seq<u8> {
    Seq::new(
        l.len(),
        |i: int|
            if is_letter(l[i]) && choices[(at + label_letters(l.take(i))) as int] {
                swap_case(l[i])
            } else {
                l[i]
            },
    )
}

/// A name in which the letters for which a choice says so are in the other
/// case, the first letter taking the first choice.
pub open spec fn flipped(n: Labels, choices: Seq<bool>) -> Labels {
    Seq::new(n.len(), |i: int| flipped_label(n[i], choices, letters(n.take(i))))
}

proof fn lemma_flipped_fold(n: Labels, choices: Seq<bool>)
    ensures
        fold(flipped(n, choices)) == fold(n),
{
    assert forall|i: int| 0 <= i < n.len() implies fold_label(#[trigger] flipped(n, choices)[i]) == fold_label(n[i]) by {
        assert(fold_label(flipped(n, choices)[i]) =~= fold_label(n[i]));
    }
    assert(fold(flipped(n, choices)) =~= fold(n));
}

proof fn lemma_same_fold_len(a: Labels, b: Labels)
    requires
        fold(a) == fold(b),
    ensures
        labels_len(a) == labels_len(b),
        valid_name(a) ==> valid_name(b),
{
    lemma_fold_len(a);
    lemma_fold_len(b);
    assert(fold(a).len() == fold(b).len());
    assert forall|i: int| 0 <= i < a.len() && valid_name(a) implies valid_label(#[trigger] b[i]) by {
        assert(fold(a)[i] == fold_label(a[i]));
        assert(fold(b)[i] == fold_label(b[i]));
        assert(fold_label(a[i]).len() == fold_label(b[i]).len());
        assert(valid_label(a[i]));
    }
}

/// Whatever the choices, the name stays one.
pub proof fn lemma_flipped_valid(n: Labels, choices: Seq<bool>)
    requires
        valid_name(n),
    ensures
        valid_name(flipped(n, choices)),
{
    lemma_flipped_fold(n, choices);
    lemma_same_fold_len(n, flipped(n, choices));
}

/// Whatever the choices, the name stays the same name.
pub proof fn law_case_randomisation_keeps_equality(n: Labels, choices: Seq<bool>)
    ensures
        same_name(flipped(n, choices), n),
{
    lemma_flipped_fold(n, choices);
}

proof fn lemma_label_letters_grow(l: Seq<u8>, i: int)
    requires
        0 <= i < l.len(),
    ensures
        label_letters(l.take(i)) + if is_letter(l[i]) {
            1nat
        } else {
            0nat
        } <= label_letters(l),
    decreases l.len() - i,
{
    assert(l.take(i + 1).drop_last() =~= l.take(i));
    if i + 1 == l.len() {
        assert(l.take(i + 1) =~= l);
    } else {
        lemma_label_letters_grow(l.drop_last(), i);
        assert(l.drop_last().take(i) =~= l.take(i));
    }
}

proof fn lemma_letters_grow(n: Labels, i: int)
    requires
        0 <= i < n.len(),
    ensures
        letters(n.take(i)) + label_letters(n[i]) <= letters(n),
    decreases n.len() - i,
{
    assert(n.take(i + 1).drop_last() =~= n.take(i));
    if i + 1 == n.len() {
        assert(n.take(i + 1) =~= n);
    } else {
        lemma_letters_grow(n.drop_last(), i);
        assert(n.drop_last().take(i) =~= n.take(i));
    }
}

proof fn lemma_label_letters_bound(l: Seq<u8>)
    ensures
        label_letters(l) <= l.len(),
    decreases l.len(),
{
    if l.len() > 0 {
        lemma_label_letters_bound(l.drop_last());
    }
}

proof fn lemma_letters_bound(n: Labels)
    ensures
        letters(n) <= labels_len(n),
    decreases n.len(),
{
    if n.len() > 0 {
        lemma_letters_bound(n.drop_last());
        lemma_label_letters_bound(n.last());
    }
}

fn count_letters(l: &[u8]) -> (r: usize)
    ensures
        r == label_letters(l@),
{
    let mut k: usize = 0;
    let mut i: usize = 0;
    while i < l.len()
        invariant
            i <= l@.len(),
            k <= i,
            k == label_letters(l@.take(i as int)),
        decreases l@.len() - i,
    {
        assert(l@.take(i + 1).drop_last() =~= l@.take(i as int));
        let b: u8 = l[i];
        if (b >= 0x41 && b <= 0x5a) || (b >= 0x61 && b <= 0x7a) {
            k += 1;
        }
        i += 1;
    }
    assert(l@.take(i as int) =~= l@);
    k
}

fn flip_label(l: &[u8], choices: &[bool], at: usize) -> (r: Vec<u8>)
    requires
        at + label_letters(l@) <= choices@.len(),
    ensures
        r@ == flipped_label(l@, choices@, at as nat),
{
    let mut out: Vec<u8> = Vec::new();
    let mut k: usize = at;
    let mut i: usize = 0;
    while i < l.len()
        invariant
            i <= l@.len(),
            k == at + label_letters(l@.take(i as int)),
            at + label_letters(l@) <= choices@.len(),
            out@.len() == i,
            forall|j: int| 0 <= j < i ==> #[trigger] out@[j] == flipped_label(l@, choices@, at as nat)[j],
        decreases l@.len() - i,
    {
        proof {
            lemma_label_letters_grow(l@, i as int);
            assert(l@.take(i + 1).drop_last() =~= l@.take(i as int));
        }
        let b: u8 = l[i];
        let mut c: u8 = b;
        if b >= 0x41 && b <= 0x5a {
            if choices[k] {
                c = b + 32;
            }
            k += 1;
        } else if b >= 0x61 && b <= 0x7a {
            if choices[k] {
                c = b - 32;
            }
            k += 1;
        }
        out.push(c);
        i += 1;
    }
    assert(out@ =~= flipped_label(l@, choices@, at as nat));
    out
}

impl Name {
    /// How many letters the name has.
    pub fn letter_count(&self) -> (r: usize)
        ensures
            r == letters(self@),
            r < MAX_NAME_LEN,
    {
        let ghost n = self@;
        proof {
            use_type_invariant(self);
            lemma_letters_bound(n);
        }
        let mut k: usize = 0;
        let mut i: usize = 0;
        while i < self.labels.len()
            invariant
                i <= self.labels@.len(),
                n == labels_view(self.labels@),
                letters(n) < MAX_NAME_LEN,
                k == letters(n.take(i as int)),
            decreases self.labels@.len() - i,
        {
            proof {
                lemma_letters_grow(n, i as int);
                assert(n.take(i + 1).drop_last() =~= n.take(i as int));
            }
            k += count_letters(self.labels[i].as_slice());
            i += 1;
        }
        assert(n.take(i as int) =~= n);
        k
    }

    /// The name with the case of its letters as chosen.
    pub fn with_case(&self, choices: &[bool]) -> (r: Name)
        requires
            choices@.len() == letters(self@),
        ensures
            r@ == flipped(self@, choices@),
    {
        let ghost n = self@;
        let total: usize = choices.len();
        let mut out: Vec<Vec<u8>> = Vec::new();
        let mut k: usize = 0;
        let mut i: usize = 0;
        while i < self.labels.len()
            invariant
                i <= self.labels@.len(),
                n == labels_view(self.labels@),
                choices@.len() == letters(n) == total,
                k == letters(n.take(i as int)),
                out@.len() == i,
                forall|j: int| 0 <= j < i ==> #[trigger] out@[j]@ == flipped(n, choices@)[j],
            decreases self.labels@.len() - i,
        {
            let l = self.labels[i].as_slice();
            proof {
                lemma_letters_grow(n, i as int);
                assert(n.take(i + 1).drop_last() =~= n.take(i as int));
            }
            out.push(flip_label(l, choices, k));
            k += count_letters(l);
            i += 1;
        }
        assert(labels_view(out@) =~= flipped(n, choices@));
        proof {
            use_type_invariant(self);
            lemma_flipped_valid(n, choices@);
        }
        Name { labels: out }
    }

    /// Apply 0x20 case randomisation from a bit source: one bit for each
    /// letter, which is in the other case where the bit is set.
    pub fn randomise_case(&self, mut bits: impl FnMut() -> bool) -> (r: Name)
        requires
            bits.requires(()),
        ensures
            same_name(r@, self@),
            exists|choices: Seq<bool>|
                {
                    &&& r@ == #[trigger] flipped(self@, choices)
                    &&& choices.len() == letters(self@)
                    &&& forall|i: int| 0 <= i < choices.len() ==> bits.ensures((), #[trigger] choices[i])
                },
    {
        let n: usize = self.letter_count();
        let mut choices: Vec<bool> = Vec::new();
        let ghost source = bits;
        while choices.len() < n
            invariant
                choices@.len() <= n,
                bits == source,
                bits.requires(()),
                forall|i: int| 0 <= i < choices@.len() ==> source.ensures((), #[trigger] choices@[i]),
            decreases n - choices@.len(),
        {
            let b: bool = bits();
            choices.push(b);
        }
        proof {
            law_case_randomisation_keeps_equality(self@, choices@);
        }
        self.with_case(choices.as_slice())
    }
}

// Reverse-mapping names.

/// `in-addr.arpa`
pub open spec fn in_addr_arpa() -> Labels {
    seq![seq![0x69u8, 0x6e, 0x2d, 0x61, 0x64, 0x64, 0x72], seq![0x61u8, 0x72, 0x70, 0x61]]
}

/// `ip6.arpa`
pub open spec fn ip6_arpa() -> Labels {
    seq![seq![0x69u8, 0x70, 0x36], seq![0x61u8, 0x72, 0x70, 0x61]]
}

/// `4.3.2.1.in-addr.arpa` for 1.2.3.4.
pub open spec fn reverse_v4(a: Seq<u8>) -> Labels {
    seq![dec(a[3] as nat), dec(a[2] as nat), dec(a[1] as nat), dec(a[0] as nat)] + in_addr_arpa()
}

/// The nibbles of an address, the last one first.
pub open spec fn nibbles(a: Seq<u8>) -> Labels {
    Seq::new(
        32,
        |i: int|
            seq![
                text::digit(
                    (if i % 2 == 0 {
                        a[15 - i / 2] % 16
                    } else {
                        a[15 - i / 2] / 16
                    }) as nat,
                ),
            ],
    )
}

/// `...ip6.arpa`, a label for each nibble.
pub open spec fn reverse_v6(a: Seq<u8>) -> Labels {
    nibbles(a) + ip6_arpa()
}

pub open spec fn reverse_name(a: Seq<u8>) -> Labels {
    if a.len() == 4 {
        reverse_v4(a)
    } else {
        reverse_v6(a)
    }
}

pub open spec fn nibble(n: Labels, i: int) -> Option<nat> {
    if n[i].len() == 1 {
        text::digit_value(n[i][0], 16)
    } else {
        None
    }
}

/// The octet that a label is, written as [`reverse_v4`] writes it.
pub open spec fn octet_of(l: Seq<u8>) -> Option<u8> {
    match text::uint_of(l, 255) {
        Some(v) => if l == dec(v) {
            Some(v as u8)
        } else {
            None
        },
        None => None,
    }
}

/// The address a reverse-mapping name denotes, if it is one.
pub open spec fn reverse_address(n: Labels) -> Option<Seq<u8>> {
    if n.len() == 6 && ends_with(n, in_addr_arpa()) {
        if forall|i: int| 0 <= i < 4 ==> octet_of(#[trigger] n[i]) is Some {
            Some(Seq::new(4, |i: int| octet_of(n[3 - i])->0))
        } else {
            None
        }
    } else if n.len() == 34 && ends_with(n, ip6_arpa()) {
        if forall|i: int| 0 <= i < 32 ==> #[trigger] nibble(n, i) is Some {
            Some(Seq::new(16, |i: int| (nibble(n, 31 - 2 * i)->0 * 16 + nibble(n, 30 - 2 * i)->0) as u8))
        } else {
            None
        }
    } else {
        None
    }
}

/// Octet `j` of an address from its two nibbles.
spec fn octet_at(n: Labels, j: int, b: u8) -> bool {
    match (nibble(n, 31 - 2 * j), nibble(n, 30 - 2 * j)) {
        (Some(h), Some(l)) => b == h * 16 + l,
        _ => false,
    }
}

proof fn lemma_labels_len_push(n: Labels, l: Seq<u8>)
    ensures
        labels_len(n.push(l)) == labels_len(n) + l.len() + 1,
{
    assert(n.push(l).drop_last() =~= n);
}

proof fn lemma_ones_len(n: Labels, k: int)
    requires
        0 <= k <= n.len(),
        forall|i: int| 0 <= i < k ==> #[trigger] n[i].len() == 1,
    ensures
        labels_len(n.take(k)) == 2 * k,
    decreases k,
{
    if k > 0 {
        lemma_ones_len(n, k - 1);
        assert(n.take(k).drop_last() =~= n.take(k - 1));
    }
}

proof fn lemma_reverse_valid(a: Seq<u8>)
    requires
        a.len() == 4 || a.len() == 16,
    ensures
        valid_name(reverse_name(a)),
{
    let n = reverse_name(a);
    let empty = Seq::<Seq<u8>>::empty();
    if a.len() == 4 {
        text::lemma_dec_digits(a[0] as nat);
        text::lemma_dec_digits(a[1] as nat);
        text::lemma_dec_digits(a[2] as nat);
        text::lemma_dec_digits(a[3] as nat);
        let n1 = empty.push(dec(a[3] as nat));
        let n2 = n1.push(dec(a[2] as nat));
        let n3 = n2.push(dec(a[1] as nat));
        let n4 = n3.push(dec(a[0] as nat));
        let n5 = n4.push(in_addr_arpa()[0]);
        lemma_labels_len_push(empty, dec(a[3] as nat));
        lemma_labels_len_push(n1, dec(a[2] as nat));
        lemma_labels_len_push(n2, dec(a[1] as nat));
        lemma_labels_len_push(n3, dec(a[0] as nat));
        lemma_labels_len_push(n4, in_addr_arpa()[0]);
        lemma_labels_len_push(n5, in_addr_arpa()[1]);
        assert(n =~= n5.push(in_addr_arpa()[1]));
    } else {
        let n32 = nibbles(a);
        lemma_ones_len(n32, 32);
        assert(n32.take(32) =~= n32);
        lemma_labels_len_push(n32, ip6_arpa()[0]);
        lemma_labels_len_push(n32.push(ip6_arpa()[0]), ip6_arpa()[1]);
        assert(n =~= n32.push(ip6_arpa()[0]).push(ip6_arpa()[1]));
    }
}

fn in_addr_arpa_labels() -> (r: Vec<Vec<u8>>)
    ensures
        labels_view(r@) == in_addr_arpa(),
{
    let mut v: Vec<Vec<u8>> = Vec::new();
    v.push(octets::copy(&[0x69, 0x6e, 0x2d, 0x61, 0x64, 0x64, 0x72]));
    v.push(octets::copy(&[0x61, 0x72, 0x70, 0x61]));
    assert(labels_view(v@) =~= in_addr_arpa()) by {
        assert(labels_view(v@)[0] =~= in_addr_arpa()[0]);
        assert(labels_view(v@)[1] =~= in_addr_arpa()[1]);
    }
    v
}

fn ip6_arpa_labels() -> (r: Vec<Vec<u8>>)
    ensures
        labels_view(r@) == ip6_arpa(),
{
    let mut v: Vec<Vec<u8>> = Vec::new();
    v.push(octets::copy(&[0x69, 0x70, 0x36]));
    v.push(octets::copy(&[0x61, 0x72, 0x70, 0x61]));
    assert(labels_view(v@) =~= ip6_arpa()) by {
        assert(labels_view(v@)[0] =~= ip6_arpa()[0]);
        assert(labels_view(v@)[1] =~= ip6_arpa()[1]);
    }
    v
}

fn dec_label(n: u8) -> (r: Vec<u8>)
    ensures
        r@ == dec(n as nat),
{
    let mut v: Vec<u8> = Vec::new();
    text::push_dec(&mut v, n as u64);
    assert(v@ =~= dec(n as nat));
    v
}

/// The octet that a label is.
fn label_octet(l: &[u8]) -> (r: Option<u8>)
    ensures
        r == octet_of(l@),
{
    match text::parse_uint(l, 255) {
        Some(v) => if octets::equal(l, dec_label(v as u8).as_slice()) {
            Some(v as u8)
        } else {
            None
        },
        None => None,
    }
}

fn nibble_label(d: u8) -> (r: Vec<u8>)
    requires
        d < 16,
    ensures
        r@ == seq![text::digit(d as nat)],
{
    let mut v: Vec<u8> = Vec::new();
    v.push(if d < 10 { 0x30 + d } else { 0x57 + d });
    assert(v@ =~= seq![text::digit(d as nat)]);
    v
}

impl Name {
    /// The reverse-mapping name for an address: `4.3.2.1.in-addr.arpa`.
    pub fn reverse_v4(addr: Ipv4Addr) -> (r: Name)
        ensures
            r@ == reverse_v4(addr@),
    {
        let o = addr.octets();
        let mut labels: Vec<Vec<u8>> = Vec::new();
        labels.push(dec_label(o[3]));
        labels.push(dec_label(o[2]));
        labels.push(dec_label(o[1]));
        labels.push(dec_label(o[0]));
        let mut suffix = in_addr_arpa_labels();
        let ghost tail = suffix@;
        labels.append(&mut suffix);
        proof {
            assert(labels_view(labels@) =~= seq![
                dec(addr@[3] as nat),
                dec(addr@[2] as nat),
                dec(addr@[1] as nat),
                dec(addr@[0] as nat),
            ] + labels_view(tail));
            addr.lemma_len();
            lemma_reverse_valid(addr@);
        }
        Name { labels }
    }

    /// `...ip6.arpa` for an IPv6 address.
    pub fn reverse_v6(addr: Ipv6Addr) -> (r: Name)
        ensures
            r@ == reverse_v6(addr@),
    {
        let o = addr.octets();
        let mut labels: Vec<Vec<u8>> = Vec::new();
        let mut i: usize = 0;
        while i < 16
            invariant
                i <= 16,
                o@ == addr@,
                labels@.len() == 2 * i,
                forall|j: int| 0 <= j < 2 * i ==> #[trigger] labels@[j]@ == nibbles(addr@)[j],
            decreases 16 - i,
        {
            let b: u8 = o[15 - i];
            labels.push(nibble_label(b % 16));
            labels.push(nibble_label(b / 16));
            i += 1;
        }
        let mut suffix = ip6_arpa_labels();
        let ghost tail = suffix@;
        let ghost head = labels@;
        labels.append(&mut suffix);
        proof {
            assert(labels_view(head) =~= nibbles(addr@));
            assert(labels_view(labels@) =~= labels_view(head) + labels_view(tail));
            addr.lemma_len();
            lemma_reverse_valid(addr@);
        }
        Name { labels }
    }

    /// The address a reverse-mapping name denotes, if it is one.
    pub fn reverse_address(&self) -> (r: Option<IpAddr>)
        ensures
            match reverse_address(self@) {
                Some(a) => r matches Some(ip) && ip@ == a,
                None => r is None,
            },
    {
        let ghost n = self@;
        let count: usize = self.labels.len();
        if count == 6 {
            let suffix = in_addr_arpa_labels();
            if same_labels(&self.labels, 4, &suffix) {
                let mut o: Vec<u8> = Vec::new();
                while o.len() < 4
                    invariant
                        o@.len() <= 4,
                        n == labels_view(self.labels@),
                        n.len() == 6,
                        forall|j: int| 0 <= j < o@.len() ==> octet_of(n[3 - j]) == Some(#[trigger] o@[j]),
                    decreases 4 - o@.len(),
                {
                    let k: usize = 3 - o.len();
                    assert(n[k as int] == self.labels@[k as int]@);
                    let v: u8 = match label_octet(self.labels[k].as_slice()) {
                        Some(v) => v,
                        None => {
                            assert(octet_of(n[k as int]) is None);
                            return None;
                        },
                    };
                    let ghost before = o@;
                    o.push(v);
                    assert(o@ =~= before.push(v));
                    assert forall|j: int| 0 <= j < o@.len() implies octet_of(n[3 - j]) == Some(#[trigger] o@[j]) by {
                        if j < before.len() {
                            assert(before[j] == o@[j]);
                        } else {
                            assert(3 - j == k);
                        }
                    }
                }
                proof {
                    assert forall|i: int| 0 <= i < 4 implies octet_of(#[trigger] n[i]) is Some by {
                        assert(o@[3 - i] == octet_of(n[3 - (3 - i)])->0);
                    }
                    assert(o@ =~= Seq::new(4, |i: int| octet_of(n[3 - i])->0));
                }
                return Some(IpAddr::from_octets(o.as_slice()));
            }
        }
        if count == 34 {
            let suffix = ip6_arpa_labels();
            if same_labels(&self.labels, 32, &suffix) {
                let mut o: Vec<u8> = Vec::new();
                while o.len() < 16
                    invariant
                        o@.len() <= 16,
                        n == labels_view(self.labels@),
                        n.len() == 34,
                        forall|j: int| 0 <= j < o@.len() ==> octet_at(n, j, #[trigger] o@[j]),
                    decreases 16 - o@.len(),
                {
                    let k: usize = 30 - 2 * o.len();
                    let low = self.nibble_at(k);
                    let high = self.nibble_at(k + 1);
                    let v: u64 = match (high, low) {
                        (Some(h), Some(l)) => h * 16 + l,
                        _ => {
                            assert(nibble(n, k as int) is None || nibble(n, k + 1) is None);
                            return None;
                        },
                    };
                    let ghost before = o@;
                    o.push(v as u8);
                    assert(o@ =~= before.push(v as u8));
                    assert forall|j: int| 0 <= j < o@.len() implies octet_at(n, j, #[trigger] o@[j]) by {
                        if j < before.len() {
                            assert(before[j] == o@[j]);
                        } else {
                            assert(30 - 2 * j == k);
                        }
                    }
                }
                proof {
                    assert forall|i: int| 0 <= i < 32 implies #[trigger] nibble(n, i) is Some by {
                        let j = 15 - i / 2;
                        assert(octet_at(n, j, o@[j]));
                    }
                    assert(o@ =~= Seq::new(
                        16,
                        |i: int| (nibble(n, 31 - 2 * i)->0 * 16 + nibble(n, 30 - 2 * i)->0) as u8,
                    ));
                }
                return Some(IpAddr::from_octets(o.as_slice()));
            }
        }
        None
    }

    fn nibble_at(&self, i: usize) -> (r: Option<u64>)
        requires
            i < self@.len(),
        ensures
            match nibble(self@, i as int) {
                Some(d) => r matches Some(v) && v == d && v < 16,
                None => r is None,
            },
    {
        let l = &self.labels[i];
        if l.len() != 1 {
            return None;
        }
        text::value_of_digit(l[0], 16)
    }
}

/// The reverse-mapping name of an address denotes the address.
pub proof fn law_reverse_round_trip(a: Seq<u8>)
    requires
        a.len() == 4 || a.len() == 16,
    ensures
        reverse_address(reverse_name(a)) == Some(a),
{
    let n = reverse_name(a);
    if a.len() == 4 {
        assert(n.skip(4) =~= in_addr_arpa());
        text::lemma_uint_of_dec(a[0] as nat, 255);
        text::lemma_uint_of_dec(a[1] as nat, 255);
        text::lemma_uint_of_dec(a[2] as nat, 255);
        text::lemma_uint_of_dec(a[3] as nat, 255);
        assert(n[0] == dec(a[3] as nat) && n[1] == dec(a[2] as nat) && n[2] == dec(a[1] as nat) && n[3] == dec(
            a[0] as nat,
        ));
        assert(Seq::new(4, |i: int| octet_of(n[3 - i])->0) =~= a);
    } else {
        assert(n.skip(32) =~= ip6_arpa());
        assert forall|i: int| 0 <= i < 32 implies #[trigger] nibble(n, i) == Some(
            (if i % 2 == 0 {
                a[15 - i / 2] % 16
            } else {
                a[15 - i / 2] / 16
            }) as nat,
        ) by {
            assert(n[i] == nibbles(a)[i]);
        }
        assert forall|i: int| 0 <= i < 16 implies (nibble(n, 31 - 2 * i)->0 * 16 + nibble(n, 30 - 2 * i)->0) as u8
            == #[trigger] a[i] by {
            assert(15 - (31 - 2 * i) / 2 == i);
            assert(15 - (30 - 2 * i) / 2 == i);
        }
        assert(Seq::new(16, |i: int| (nibble(n, 31 - 2 * i)->0 * 16 + nibble(n, 30 - 2 * i)->0) as u8) =~= a);
    }
}

proof fn lemma_fold_dec(v: nat)
    ensures
        fold_label(dec(v)) == dec(v),
{
    text::lemma_dec_digits(v);
    assert(fold_label(dec(v)) =~= dec(v));
}

/// A label that compares equal to a decimal number is that number.
proof fn lemma_same_dec(l: Seq<u8>, v: nat)
    requires
        fold_label(l) == dec(v),
    ensures
        l == dec(v),
{
    text::lemma_dec_digits(v);
    assert forall|i: int| 0 <= i < l.len() implies l[i] == #[trigger] dec(v)[i] by {
        assert(fold_label(l)[i] == lower(l[i]));
        assert(0x30 <= dec(v)[i] <= 0x39);
    }
    assert(l =~= dec(v));
}

proof fn lemma_same_at(n: Labels, m: Labels, i: int)
    requires
        same_name(n, m),
        0 <= i < m.len(),
    ensures
        n.len() == m.len(),
        fold_label(n[i]) == fold_label(m[i]),
{
    assert(fold(n).len() == fold(m).len());
    assert(fold(n)[i] == fold(m)[i]);
}

proof fn lemma_same_tail(n: Labels, m: Labels, k: int)
    requires
        same_name(n, m),
        0 <= k <= m.len(),
    ensures
        n.len() == m.len(),
        same_name(n.skip(k), m.skip(k)),
{
    assert(fold(n).len() == fold(m).len());
    assert(fold(n.skip(k)) =~= fold(n).skip(k));
    assert(fold(m.skip(k)) =~= fold(m).skip(k));
}

/// A name denotes an address exactly where it is the address's reverse-mapping
/// name: that is the one way to write an address, but for the case of letters.
pub proof fn law_reverse_names_are_unique(n: Labels, a: Seq<u8>)
    requires
        a.len() == 4 || a.len() == 16,
    ensures
        reverse_address(n) == Some(a) <==> same_name(n, reverse_name(a)),
{
    if same_name(n, reverse_name(a)) {
        lemma_same_is_reversed(n, a);
    }
    if reverse_address(n) == Some(a) {
        lemma_reversed_is_same(n, a);
    }
}

/// What a name denotes has the length of an address.
pub proof fn law_reverse_address_is_an_address(n: Labels)
    ensures
        reverse_address(n) matches Some(a) ==> a.len() == 4 || a.len() == 16,
{
}

proof fn lemma_same_is_reversed(n: Labels, a: Seq<u8>)
    requires
        a.len() == 4 || a.len() == 16,
        same_name(n, reverse_name(a)),
    ensures
        reverse_address(n) == Some(a),
{
    let m = reverse_name(a);
    law_reverse_round_trip(a);
    if a.len() == 4 {
        lemma_same_tail(n, m, 4);
        assert forall|i: int| 0 <= i < 4 implies #[trigger] n[i] == m[i] by {
            lemma_same_at(n, m, i);
            lemma_fold_dec(a[3 - i] as nat);
            lemma_same_dec(n[i], a[3 - i] as nat);
        }
        assert forall|i: int| 0 <= i < 4 implies octet_of(#[trigger] n[i]) == Some(a[3 - i]) by {
            assert(n[i] == dec(a[3 - i] as nat));
            text::lemma_uint_of_dec(a[3 - i] as nat, 255);
        }
        assert(m.skip(4) =~= in_addr_arpa());
        assert(Seq::new(4, |i: int| octet_of(n[3 - i])->0) =~= a);
    } else {
        lemma_same_tail(n, m, 32);
        assert(m.skip(32) =~= ip6_arpa());
        assert forall|i: int| 0 <= i < 32 implies #[trigger] nibble(n, i) == Some(
            (if i % 2 == 0 {
                a[15 - i / 2] % 16
            } else {
                a[15 - i / 2] / 16
            }) as nat,
        ) by {
            lemma_same_at(n, m, i);
            assert(m[i] == nibbles(a)[i]);
            assert(fold_label(n[i]).len() == 1);
            assert(fold_label(n[i])[0] == lower(n[i][0]));
            assert(fold_label(m[i])[0] == lower(m[i][0]));
        }
        assert forall|i: int| 0 <= i < 16 implies (nibble(n, 31 - 2 * i)->0 * 16 + nibble(n, 30 - 2 * i)->0) as u8
            == #[trigger] a[i] by {
            assert(15 - (31 - 2 * i) / 2 == i);
            assert(15 - (30 - 2 * i) / 2 == i);
        }
        assert(Seq::new(16, |i: int| (nibble(n, 31 - 2 * i)->0 * 16 + nibble(n, 30 - 2 * i)->0) as u8) =~= a);
    }
}

/// A label that is a nibble compares equal to the nibble's own label.
proof fn lemma_nibble_label(n: Labels, i: int, d: nat)
    requires
        nibble(n, i) == Some(d),
    ensures
        d < 16,
        fold_label(n[i]) == fold_label(seq![text::digit(d)]),
{
    let l = n[i];
    assert(lower(l[0]) == lower(text::digit(d)));
    assert(fold_label(l) =~= fold_label(seq![text::digit(d)]));
}

proof fn lemma_reversed_v6_label(n: Labels, a: Seq<u8>, i: int)
    requires
        n.len() == 34,
        reverse_address(n) == Some(a),
        0 <= i < 32,
    ensures
        fold_label(n[i]) == fold_label(nibbles(a)[i]),
{
    let j = 15 - i / 2;
    let (high, low) = (nibble(n, 31 - 2 * j), nibble(n, 30 - 2 * j));
    assert(high is Some && low is Some);
    lemma_nibble_label(n, 31 - 2 * j, high->0);
    lemma_nibble_label(n, 30 - 2 * j, low->0);
    assert(a[j] == (high->0 * 16 + low->0) as u8);
    assert(a[j] / 16 == high->0 && a[j] % 16 == low->0);
    if i % 2 == 0 {
        assert(i == 30 - 2 * j);
    } else {
        assert(i == 31 - 2 * j);
    }
}

proof fn lemma_reversed_v4_label(n: Labels, a: Seq<u8>, i: int)
    requires
        n.len() == 6,
        reverse_address(n) == Some(a),
        0 <= i < 4,
    ensures
        n[i] == dec(a[3 - i] as nat),
{
    assert(octet_of(n[i]) is Some);
    assert(a[3 - i] == octet_of(n[3 - (3 - i)])->0);
}

/// Names with the same labels before and after a place are the same.
proof fn lemma_same_parts(n: Labels, m: Labels, k: int)
    requires
        0 <= k <= n.len(),
        n.len() == m.len(),
        forall|i: int| 0 <= i < k ==> fold_label(#[trigger] n[i]) == fold_label(m[i]),
        same_name(n.skip(k), m.skip(k)),
    ensures
        same_name(n, m),
{
    assert forall|i: int| 0 <= i < n.len() implies fold(n)[i] == #[trigger] fold(m)[i] by {
        if i >= k {
            lemma_same_at(n.skip(k), m.skip(k), i - k);
            assert(n.skip(k)[i - k] == n[i]);
            assert(m.skip(k)[i - k] == m[i]);
        }
        assert(fold_label(n[i]) == fold_label(m[i]));
    }
    assert(fold(n) =~= fold(m));
}

proof fn lemma_reversed_is_same(n: Labels, a: Seq<u8>)
    requires
        reverse_address(n) == Some(a),
    ensures
        same_name(n, reverse_name(a)),
{
    let m = reverse_name(a);
    if n.len() == 6 {
        assert(a.len() == 4);
        assert(m.skip(4) =~= in_addr_arpa());
        assert forall|i: int| 0 <= i < 4 implies fold_label(#[trigger] n[i]) == fold_label(m[i]) by {
            lemma_reversed_v4_label(n, a, i);
            assert(m[i] == dec(a[3 - i] as nat));
        }
        lemma_same_parts(n, m, 4);
    } else {
        assert(a.len() == 16);
        assert(m.skip(32) =~= ip6_arpa());
        assert forall|i: int| 0 <= i < 32 implies fold_label(#[trigger] n[i]) == fold_label(m[i]) by {
            lemma_reversed_v6_label(n, a, i);
            assert(m[i] == nibbles(a)[i]);
        }
        lemma_same_parts(n, m, 32);
    }
}

} // verus!
