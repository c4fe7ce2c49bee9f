//! The ordered key-value store.
//!
//! One ordered namespace holds every relation's rows, partitioned by the
//! table-id prefix of each encoded key. An entry is an encoded key, an
//! optional validity marker (the versioned part of the key), and an encoded
//! value. Entries are kept strictly sorted by key bytes and then by marker,
//! so versions of one key sit together in timestamp order and a point query
//! "as of" a time needs one bounded seek (`get_as_of`), not a scan of the
//! versions.
use vstd::prelude::*;

use crate::codec::bytes_lt;
use crate::codec::lemma_bytes_lt_prefix;
use crate::codec::lemma_bytes_lt_total;
use crate::validity::{overs_lt, Validity};
use crate::value::copy_bytes;

verus! {

broadcast use vstd::std_specs::vec::axiom_vec_index_decreases;

/// One stored row version: encoded key, optional validity marker, encoded
/// value.
#[derive(Debug)]
pub struct Entry {
    pub key: Vec<u8>,
    pub valid: Option<Validity>,
    pub value: Vec<u8>,
}

impl View for Entry {
    type V = (Seq<u8>, Option<Validity>, Seq<u8>);

    open spec fn view(&self) -> (Seq<u8>, Option<Validity>, Seq<u8>) {
        (self.key@, self.valid, self.value@)
    }
}

/// The views of a sequence of entries.
pub open spec fn entries_view(v: Seq<Entry>) -> Seq<(Seq<u8>, Option<Validity>, Seq<u8>)> {
    Seq::new(v.len(), |i: int| v[i]@)
}

/// The composite key order of the store: key bytes first, then the validity
/// marker.
pub open spec fn pair_lt(
    k1: Seq<u8>,
    v1: Option<Validity>,
    k2: Seq<u8>,
    v2: Option<Validity>,
) -> bool {
    bytes_lt(k1, k2) || (k1 == k2 && overs_lt(v1, v2))
}

/// Strictly sorted in the composite order; in particular no two entries
/// share key and marker.
pub open spec fn sorted(s: Seq<(Seq<u8>, Option<Validity>, Seq<u8>)>) -> bool {
    forall|i: int, j: int|
        0 <= i < j < s.len() ==> pair_lt(#[trigger] s[i].0, s[i].1, #[trigger] s[j].0, s[j].1)
}

/// The value stored under a key and marker, if any.
pub open spec fn lookup(
    s: Seq<(Seq<u8>, Option<Validity>, Seq<u8>)>,
    k: Seq<u8>,
    v: Option<Validity>,
) -> Option<Seq<u8>>
    decreases s.len(),
{
    if s.len() == 0 {
        None
    } else if s[0].0 == k && s[0].1 == v {
        Some(s[0].2)
    } else {
        lookup(s.skip(1), k, v)
    }
}

pub proof fn lemma_bytes_lt_trans(a: Seq<u8>, b: Seq<u8>, c: Seq<u8>)
    requires
        bytes_lt(a, b),
        bytes_lt(b, c),
    ensures
        bytes_lt(a, c),
    decreases a.len(),
{
    if a.len() > 0 {
        if a[0] == b[0] && b[0] == c[0] {
            lemma_bytes_lt_trans(a.skip(1), b.skip(1), c.skip(1));
        }
    }
}

pub proof fn lemma_pair_lt_total(k1: Seq<u8>, v1: Option<Validity>, k2: Seq<u8>, v2: Option<
    Validity,
>)
    ensures
        pair_lt(k1, v1, k2, v2) || pair_lt(k2, v2, k1, v1) || (k1 == k2 && v1 == v2),
        pair_lt(k1, v1, k2, v2) ==> !pair_lt(k2, v2, k1, v1) && !(k1 == k2 && v1 == v2),
{
    lemma_bytes_lt_total(k1, k2);
}

pub proof fn lemma_pair_lt_trans(
    k1: Seq<u8>,
    v1: Option<Validity>,
    k2: Seq<u8>,
    v2: Option<Validity>,
    k3: Seq<u8>,
    v3: Option<Validity>,
)
    requires
        pair_lt(k1, v1, k2, v2),
        pair_lt(k2, v2, k3, v3),
    ensures
        pair_lt(k1, v1, k3, v3),
{
    if bytes_lt(k1, k2) && bytes_lt(k2, k3) {
        lemma_bytes_lt_trans(k1, k2, k3);
    }
}

// ---------------------------------------------------------------------------
// Executable comparisons
// ---------------------------------------------------------------------------

proof fn lemma_bytes_lt_at(a: Seq<u8>, b: Seq<u8>, i: int)
    requires
        0 <= i < a.len(),
        i < b.len(),
        a.subrange(0, i) == b.subrange(0, i),
        a[i] < b[i],
    ensures
        bytes_lt(a, b),
{
    let c = a.subrange(0, i);
    assert(a =~= c + a.skip(i));
    assert(b =~= c + b.skip(i));
    assert(a.skip(i)[0] == a[i] && b.skip(i)[0] == b[i]);
    crate::codec::lemma_bytes_lt_common(c, a.skip(i), b.skip(i));
}

/// Whether the byte vectors hold the same bytes.
pub fn bytes_eq(a: &Vec<u8>, b: &Vec<u8>) -> (r: bool)
    ensures
        r == (a@ == b@),
{
    if a.len() != b.len() {
        return false;
    }
    let n = a.len();
    for i in 0..n
        invariant
            n == a.len() == b.len(),
            a@.subrange(0, i as int) == b@.subrange(0, i as int),
    {
        if a[i] != b[i] {
            proof {
                assert(a@ != b@);
            }
            return false;
        }
        proof {
            assert(a@.subrange(0, i + 1) =~= b@.subrange(0, i + 1));
        }
    }
    proof {
        assert(a@.subrange(0, n as int) =~= a@);
        assert(b@.subrange(0, n as int) =~= b@);
        assert(a@ == b@);
    }
    true
}

/// Whether `(k1, v1)` comes strictly before `(k2, v2)` in the store order.
fn pair_before(k1: &Vec<u8>, v1: &Option<Validity>, k2: &Vec<u8>, v2: &Option<Validity>) -> (r:
    bool)
    ensures
        r == pair_lt(k1@, *v1, k2@, *v2),
{
    let n = if k1.len() < k2.len() {
        k1.len()
    } else {
        k2.len()
    };
    for i in 0..n
        invariant
            n <= k1.len() && n <= k2.len(),
            k1@.subrange(0, i as int) == k2@.subrange(0, i as int),
    {
        if k1[i] < k2[i] {
            proof {
                lemma_bytes_lt_at(k1@, k2@, i as int);
            }
            return true;
        }
        if k1[i] > k2[i] {
            proof {
                lemma_bytes_lt_at(k2@, k1@, i as int);
                lemma_bytes_lt_total(k1@, k2@);
            }
            return false;
        }
        proof {
            assert(k1@.subrange(0, i + 1) =~= k2@.subrange(0, i + 1));
        }
    }
    if k1.len() < k2.len() {
        proof {
            assert(k1@ == k2@.subrange(0, k1@.len() as int));
            lemma_bytes_lt_prefix(k1@, k2@);
        }
        return true;
    }
    if k2.len() < k1.len() {
        proof {
            assert(k2@ == k1@.subrange(0, k2@.len() as int));
            lemma_bytes_lt_prefix(k2@, k1@);
            lemma_bytes_lt_total(k1@, k2@);
        }
        return false;
    }
    proof {
        assert(k1@.subrange(0, n as int) =~= k1@);
        assert(k2@.subrange(0, n as int) =~= k2@);
        assert(k1@ == k2@);
        lemma_bytes_lt_total(k1@, k2@);
    }
    match (v1, v2) {
        (Option::None, Option::Some(_)) => true,
        (Option::Some(x), Option::Some(y)) => x.ts < y.ts || (x.ts == y.ts && !x.asserted
            && y.asserted),
        _ => false,
    }
}

/// Whether the markers are the same.
fn valid_eq(a: &Option<Validity>, b: &Option<Validity>) -> (r: bool)
    ensures
        r == (*a == *b),
{
    match (a, b) {
        (Option::None, Option::None) => true,
        (Option::Some(x), Option::Some(y)) => x.ts == y.ts && x.asserted == y.asserted,
        _ => false,
    }
}

// ---------------------------------------------------------------------------
// Lookup lemmas
// ---------------------------------------------------------------------------

proof fn lemma_lookup_none(s: Seq<(Seq<u8>, Option<Validity>, Seq<u8>)>, k: Seq<u8>, v: Option<
    Validity,
>)
    ensures
        (lookup(s, k, v) is None) <==> (forall|i: int|
            0 <= i < s.len() ==> !(#[trigger] s[i].0 == k && s[i].1 == v)),
    decreases s.len(),
{
    if s.len() > 0 {
        lemma_lookup_none(s.skip(1), k, v);
        assert(forall|i: int| 0 <= i < s.skip(1).len() ==> s.skip(1)[i] == s[i + 1]);
        if !(s[0].0 == k && s[0].1 == v) {
            if lookup(s.skip(1), k, v) is None {
                assert forall|i: int| 0 <= i < s.len() implies !(#[trigger] s[i].0 == k && s[i].1
                    == v) by {
                    if i > 0 {
                        assert(s[i] == s.skip(1)[i - 1]);
                    }
                }
            }
        }
    }
}

proof fn lemma_lookup_found(
    s: Seq<(Seq<u8>, Option<Validity>, Seq<u8>)>,
    i: int,
    k: Seq<u8>,
    v: Option<Validity>,
)
    requires
        0 <= i < s.len(),
        s[i].0 == k,
        s[i].1 == v,
        forall|j: int| 0 <= j < i ==> !(#[trigger] s[j].0 == k && s[j].1 == v),
    ensures
        lookup(s, k, v) == Some(s[i].2),
    decreases i,
{
    if i > 0 {
        assert(forall|j: int| 0 <= j < i - 1 ==> s.skip(1)[j] == s[j + 1]);
        lemma_lookup_found(s.skip(1), i - 1, k, v);
    }
}

proof fn lemma_lookup_insert(
    s: Seq<(Seq<u8>, Option<Validity>, Seq<u8>)>,
    i: int,
    e: (Seq<u8>, Option<Validity>, Seq<u8>),
    k: Seq<u8>,
    v: Option<Validity>,
)
    requires
        0 <= i <= s.len(),
    ensures
        !(k == e.0 && v == e.1) ==> lookup(s.insert(i, e), k, v) == lookup(s, k, v),
    decreases i,
{
    if !(k == e.0 && v == e.1) {
        let s2 = s.insert(i, e);
        if i == 0 {
            assert(s2[0] == e);
            assert(s2.skip(1) =~= s);
        } else {
            assert(s2[0] == s[0]);
            assert(s2.skip(1) =~= s.skip(1).insert(i - 1, e));
            lemma_lookup_insert(s.skip(1), i - 1, e, k, v);
        }
    }
}

proof fn lemma_lookup_update(
    s: Seq<(Seq<u8>, Option<Validity>, Seq<u8>)>,
    i: int,
    e: (Seq<u8>, Option<Validity>, Seq<u8>),
    k: Seq<u8>,
    v: Option<Validity>,
)
    requires
        0 <= i < s.len(),
        s[i].0 == e.0,
        s[i].1 == e.1,
    ensures
        !(k == e.0 && v == e.1) ==> lookup(s.update(i, e), k, v) == lookup(s, k, v),
    decreases i,
{
    if !(k == e.0 && v == e.1) {
        let s2 = s.update(i, e);
        if i == 0 {
            assert(s2[0] == e);
            assert(s2.skip(1) =~= s.skip(1));
        } else {
            assert(s2[0] == s[0]);
            assert(s2.skip(1) =~= s.skip(1).update(i - 1, e));
            lemma_lookup_update(s.skip(1), i - 1, e, k, v);
        }
    }
}

// ---------------------------------------------------------------------------
// Prefix scans and time-travel resolution
// ---------------------------------------------------------------------------

/// Whether `s` starts with `p`: the key belongs to the relation whose
/// encoded prefix is `p`.
pub open spec fn starts_with(s: Seq<u8>, p: Seq<u8>) -> bool {
    p.len() <= s.len() && s.subrange(0, p.len() as int) == p
}

/// The entries whose keys carry the prefix, in store order.
pub open spec fn filter_prefix(s: Seq<(Seq<u8>, Option<Validity>, Seq<u8>)>, p: Seq<u8>) -> Seq<
    (Seq<u8>, Option<Validity>, Seq<u8>),
>
    decreases s.len(),
{
    if s.len() == 0 {
        Seq::empty()
    } else {
        (if starts_with(s[0].0, p) {
            seq![s[0]]
        } else {
            Seq::empty()
        }) + filter_prefix(s.skip(1), p)
    }
}

proof fn lemma_filter_prefix_snoc(
    s: Seq<(Seq<u8>, Option<Validity>, Seq<u8>)>,
    e: (Seq<u8>, Option<Validity>, Seq<u8>),
    p: Seq<u8>,
)
    ensures
        filter_prefix(s.push(e), p) == filter_prefix(s, p) + (if starts_with(e.0, p) {
            seq![e]
        } else {
            Seq::empty()
        }),
    decreases s.len(),
{
    let tail = if starts_with(e.0, p) {
        seq![e]
    } else {
        Seq::<(Seq<u8>, Option<Validity>, Seq<u8>)>::empty()
    };
    if s.len() == 0 {
        reveal_with_fuel(filter_prefix, 3);
        assert(s.push(e).skip(1) =~= Seq::<(Seq<u8>, Option<Validity>, Seq<u8>)>::empty());
        assert(filter_prefix(s.push(e), p) =~= tail);
        assert(filter_prefix(s, p) + tail =~= tail);
    } else {
        assert(s.push(e).skip(1) =~= s.skip(1).push(e));
        lemma_filter_prefix_snoc(s.skip(1), e, p);
        assert(filter_prefix(s.push(e), p) =~= filter_prefix(s, p) + tail);
    }
}

/// Every entry the filter keeps carries the prefix.
pub proof fn lemma_filter_prefix_elems(s: Seq<(Seq<u8>, Option<Validity>, Seq<u8>)>, p: Seq<u8>)
    ensures
        forall|i: int|
            0 <= i < filter_prefix(s, p).len() ==> starts_with(
                #[trigger] filter_prefix(s, p)[i].0,
                p,
            ),
    decreases s.len(),
{
    if s.len() > 0 {
        lemma_filter_prefix_elems(s.skip(1), p);
        let f = filter_prefix(s, p);
        let rest = filter_prefix(s.skip(1), p);
        if starts_with(s[0].0, p) {
            assert(f =~= seq![s[0]] + rest);
            assert forall|i: int| 0 <= i < f.len() implies starts_with(#[trigger] f[i].0, p) by {
                if i > 0 {
                    assert(f[i] == rest[i - 1]);
                }
            }
        } else {
            assert(f =~= rest);
            assert(forall|i: int| 0 <= i < f.len() ==> f[i] == rest[i]);
        }
    }
}

/// Whether an entry is a version of `key` already valid at time `t`.
pub open spec fn live_at(
    e: (Seq<u8>, Option<Validity>, Seq<u8>),
    key: Seq<u8>,
    t: int,
) -> bool {
    &&& e.0 == key
    &&& e.1 matches Some(w)
    &&& w.ts <= t
}

/// The time-travel rule of the validity model: among the versions of `key`,
/// the one with the greatest timestamp at most `t` decides — its value if
/// it asserts the fact, absence if it retracts it; no version at or before
/// `t` means absent. On the sorted store this is one bounded reverse scan.
pub open spec fn resolve_at(
    s: Seq<(Seq<u8>, Option<Validity>, Seq<u8>)>,
    key: Seq<u8>,
    t: int,
) -> Option<Seq<u8>>
    decreases s.len(),
{
    if s.len() == 0 {
        None
    } else if live_at(s.last(), key, t) {
        if s.last().1->0.asserted {
            Some(s.last().2)
        } else {
            None
        }
    } else {
        resolve_at(s.drop_last(), key, t)
    }
}

proof fn lemma_resolve_at_range(
    s: Seq<(Seq<u8>, Option<Validity>, Seq<u8>)>,
    key: Seq<u8>,
    t: int,
    c: int,
)
    requires
        0 <= c <= s.len(),
        forall|i: int| c <= i < s.len() ==> !live_at(#[trigger] s[i], key, t),
    ensures
        resolve_at(s, key, t) == resolve_at(s.take(c), key, t),
    decreases s.len(),
{
    if c == s.len() {
        assert(s.take(c) =~= s);
    } else {
        assert(!live_at(s.last(), key, t));
        assert(s.drop_last() =~= s.take(s.len() - 1));
        assert(forall|i: int|
            c <= i < s.take(s.len() - 1).len() ==> s.take(s.len() - 1)[i] == s[i]);
        lemma_resolve_at_range(s.take(s.len() - 1), key, t, c);
        assert(s.take(s.len() - 1).take(c) =~= s.take(c));
    }
}

// ---------------------------------------------------------------------------
// The store
// ---------------------------------------------------------------------------

/// The ordered store: entries strictly sorted in the composite key order.
#[derive(Debug)]
pub struct Storage {
    entries: Vec<Entry>,
}

impl View for Storage {
    type V = Seq<(Seq<u8>, Option<Validity>, Seq<u8>)>;

    closed spec fn view(&self) -> Seq<(Seq<u8>, Option<Validity>, Seq<u8>)> {
        entries_view(self.entries@)
    }
}

impl Storage {
    pub open spec fn wf(self) -> bool {
        sorted(self@)
    }

    /// An empty store.
    pub fn new() -> (r: Storage)
        ensures
            r.wf(),
            r@ == Seq::<(Seq<u8>, Option<Validity>, Seq<u8>)>::empty(),
    {
        let r = Storage { entries: Vec::new() };
        proof {
            assert(r@ =~= Seq::<(Seq<u8>, Option<Validity>, Seq<u8>)>::empty());
        }
        r
    }

    /// How many entries the store holds.
    pub fn len(&self) -> (n: usize)
        ensures
            n == self@.len(),
    {
        self.entries.len()
    }

    /// The count of entries strictly at or before `(key, valid)`: every
    /// entry below the returned index is at most the probe, every entry at
    /// or above it is strictly greater. One binary search.
    fn upper_bound(&self, key: &Vec<u8>, valid: &Option<Validity>) -> (c: usize)
        requires
            self.wf(),
        ensures
            0 <= c <= self@.len(),
            forall|i: int| 0 <= i < c ==> !pair_lt(key@, *valid, #[trigger] self@[i].0, self@[i].1),
            forall|i: int|
                c <= i < self@.len() ==> pair_lt(key@, *valid, #[trigger] self@[i].0, self@[i].1),
    {
        let mut lo: usize = 0;
        let mut hi: usize = self.entries.len();
        while lo < hi
            invariant
                0 <= lo <= hi <= self@.len(),
                self.wf(),
                forall|i: int|
                    0 <= i < lo ==> !pair_lt(key@, *valid, #[trigger] self@[i].0, self@[i].1),
                forall|i: int|
                    hi <= i < self@.len() ==> pair_lt(
                        key@,
                        *valid,
                        #[trigger] self@[i].0,
                        self@[i].1,
                    ),
            decreases hi - lo,
        {
            let mid = lo + (hi - lo) / 2;
            let e = &self.entries[mid];
            if pair_before(key, valid, &e.key, &e.valid) {
                proof {
                    assert forall|i: int|
                        mid <= i < self@.len() implies pair_lt(
                        key@,
                        *valid,
                        #[trigger] self@[i].0,
                        self@[i].1,
                    ) by {
                        if i > mid {
                            assert(pair_lt(self@[mid as int].0, self@[mid as int].1, self@[i].0, self@[i].1));
                            lemma_pair_lt_trans(
                                key@,
                                *valid,
                                self@[mid as int].0,
                                self@[mid as int].1,
                                self@[i].0,
                                self@[i].1,
                            );
                        }
                    }
                }
                hi = mid;
            } else {
                proof {
                    assert forall|i: int|
                        0 <= i <= mid implies !pair_lt(
                        key@,
                        *valid,
                        #[trigger] self@[i].0,
                        self@[i].1,
                    ) by {
                        if i < mid {
                            assert(pair_lt(self@[i].0, self@[i].1, self@[mid as int].0, self@[mid as int].1));
                            if pair_lt(key@, *valid, self@[i].0, self@[i].1) {
                                lemma_pair_lt_trans(
                                    key@,
                                    *valid,
                                    self@[i].0,
                                    self@[i].1,
                                    self@[mid as int].0,
                                    self@[mid as int].1,
                                );
                            }
                        }
                    }
                }
                lo = mid + 1;
            }
        }
        lo
    }

    /// The value stored under exactly `(key, valid)`, by one binary search.
    pub fn get(&self, key: &Vec<u8>, valid: &Option<Validity>) -> (r: Option<&Vec<u8>>)
        requires
            self.wf(),
        ensures
            match r {
                Some(val) => lookup(self@, key@, *valid) == Some(val@),
                None => lookup(self@, key@, *valid) is None,
            },
    {
        let c = self.upper_bound(key, valid);
        if c > 0 {
            let e = &self.entries[c - 1];
            if bytes_eq(&e.key, key) && valid_eq(&e.valid, valid) {
                proof {
                    assert forall|j: int| 0 <= j < c - 1 implies !(#[trigger] self@[j].0 == key@
                        && self@[j].1 == *valid) by {
                        if self@[j].0 == key@ && self@[j].1 == *valid {
                            assert(pair_lt(self@[j].0, self@[j].1, self@[c - 1].0, self@[c - 1].1));
                            lemma_pair_lt_total(key@, *valid, self@[c - 1].0, self@[c - 1].1);
                        }
                    }
                    lemma_lookup_found(self@, c - 1, key@, *valid);
                }
                return Some(&e.value);
            }
        }
        proof {
            assert forall|i: int| 0 <= i < self@.len() implies !(#[trigger] self@[i].0 == key@
                && self@[i].1 == *valid) by {
                if self@[i].0 == key@ && self@[i].1 == *valid {
                    lemma_pair_lt_total(key@, *valid, self@[i].0, self@[i].1);
                    if i < c {
                        if i < c - 1 {
                            assert(pair_lt(self@[i].0, self@[i].1, self@[c - 1].0, self@[c - 1].1));
                            assert(!pair_lt(key@, *valid, self@[c - 1].0, self@[c - 1].1));
                            lemma_pair_lt_total(key@, *valid, self@[c - 1].0, self@[c - 1].1);
                        }
                    }
                }
            }
            lemma_lookup_none(self@, key@, *valid);
        }
        None
    }

    /// Writes `value` under `(key, valid)`: replaces the value if the
    /// version is present, inserts a new entry otherwise. Nothing else
    /// changes.
    pub fn put(&mut self, key: Vec<u8>, valid: Option<Validity>, value: Vec<u8>)
        requires
            old(self).wf(),
        ensures
            final(self).wf(),
            lookup(final(self)@, key@, valid) == Some(value@),
            forall|k: Seq<u8>, v: Option<Validity>|
                !(k == key@ && v == valid) ==> lookup(final(self)@, k, v) == lookup(
                    old(self)@,
                    k,
                    v,
                ),
            final(self)@.len() == old(self)@.len() + (if lookup(old(self)@, key@, valid) is Some {
                0int
            } else {
                1int
            }),
    {
        let ghost s = self@;
        let c = self.upper_bound(&key, &valid);
        let ghost target = (key@, valid, value@);
        proof {
            assert forall|j: int| 0 <= j < c - 1 implies !(#[trigger] s[j].0 == key@ && s[j].1
                == valid) by {
                if s[j].0 == key@ && s[j].1 == valid {
                    assert(pair_lt(s[j].0, s[j].1, s[c - 1].0, s[c - 1].1));
                    lemma_pair_lt_total(key@, valid, s[c - 1].0, s[c - 1].1);
                }
            }
            assert forall|j: int| c <= j < s.len() implies !(#[trigger] s[j].0 == key@ && s[j].1
                == valid) by {
                if s[j].0 == key@ && s[j].1 == valid {
                    lemma_pair_lt_total(key@, valid, s[j].0, s[j].1);
                }
            }
        }
        let mut matched = false;
        if c > 0 {
            let e = &self.entries[c - 1];
            if bytes_eq(&e.key, &key) && valid_eq(&e.valid, &valid) {
                matched = true;
            }
        }
        if matched {
            let ghost ev = (key@, valid, value@);
            proof {
                lemma_lookup_found(s, c - 1, key@, valid);
                assert forall|k: Seq<u8>, v: Option<Validity>|
                    !(k == key@ && v == valid) implies lookup(
                    #[trigger] s.update(c - 1, ev),
                    k,
                    v,
                ) == lookup(s, k, v) by {
                    lemma_lookup_update(s, c - 1, ev, k, v);
                }
            }
            self.entries.remove(c - 1);
            self.entries.insert(c - 1, Entry { key, valid, value });
            proof {
                assert(self@ =~= s.update(c - 1, ev));
                assert(sorted(self@)) by {
                    assert forall|i: int, j: int|
                        0 <= i < j < self@.len() implies pair_lt(
                        #[trigger] self@[i].0,
                        self@[i].1,
                        #[trigger] self@[j].0,
                        self@[j].1,
                    ) by {
                        assert(self@[i].0 == s[i].0 && self@[i].1 == s[i].1);
                        assert(self@[j].0 == s[j].0 && self@[j].1 == s[j].1);
                        assert(pair_lt(s[i].0, s[i].1, s[j].0, s[j].1));
                    }
                }
                assert forall|j: int| 0 <= j < c - 1 implies !(#[trigger] self@[j].0 == key@
                    && self@[j].1 == valid) by {}
                lemma_lookup_found(self@, c - 1, key@, valid);
            }
        } else {
            let ghost ev = (key@, valid, value@);
            proof {
                lemma_lookup_none(s, key@, valid);
                assert(lookup(s, key@, valid) is None);
                assert forall|k: Seq<u8>, v: Option<Validity>|
                    !(k == key@ && v == valid) implies lookup(#[trigger] s.insert(c as int, ev), k, v)
                    == lookup(s, k, v) by {
                    lemma_lookup_insert(s, c as int, ev, k, v);
                }
            }
            self.entries.insert(c, Entry { key, valid, value });
            proof {
                assert(self@ =~= s.insert(c as int, ev));
                let s2 = self@;
                assert(sorted(s2)) by {
                    assert forall|i: int, j: int|
                        0 <= i < j < s2.len() implies pair_lt(
                        #[trigger] s2[i].0,
                        s2[i].1,
                        #[trigger] s2[j].0,
                        s2[j].1,
                    ) by {
                        let ci = c as int;
                        if i < ci && j == ci {
                            assert(s2[i] == s[i]);
                            lemma_pair_lt_total(key@, valid, s[i].0, s[i].1);
                        } else if i == ci && j > ci {
                            assert(s2[j] == s[j - 1]);
                        } else if i < ci && j > ci {
                            assert(s2[i] == s[i] && s2[j] == s[j - 1]);
                        } else if j < ci {
                            assert(s2[i] == s[i] && s2[j] == s[j]);
                        } else if i > ci {
                            assert(s2[i] == s[i - 1] && s2[j] == s[j - 1]);
                        } else if i == ci && j == ci {
                        } else {
                            assert(i > ci && j > ci);
                        }
                    }
                }
                assert forall|j: int| 0 <= j < c implies !(#[trigger] self@[j].0 == key@
                    && self@[j].1 == valid) by {
                    assert(self@[j] == s[j]);
                }
                lemma_lookup_found(self@, c as int, key@, valid);
            }
        }
    }

    /// A snapshot of the store: the working copy of one transaction, or the
    /// state to fall back to when a statement fails.
    pub fn duplicate(&self) -> (r: Storage)
        ensures
            r@ == self@,
    {
        let mut entries: Vec<Entry> = Vec::new();
        let n = self.entries.len();
        for i in 0..n
            invariant
                n == self@.len(),
                entries_view(entries@) == self@.subrange(0, i as int),
        {
            let e = &self.entries[i];
            let copy = Entry { key: copy_bytes(&e.key), valid: e.valid, value: copy_bytes(&e.value) };
            proof {
                assert(copy@ == self@[i as int]);
                assert(self@.subrange(0, i + 1) =~= self@.subrange(0, i as int).push(
                    self@[i as int],
                ));
            }
            entries.push(copy);
            proof {
                assert(entries_view(entries@) =~= self@.subrange(0, i + 1));
            }
        }
        let r = Storage { entries };
        proof {
            assert(self@.subrange(0, n as int) =~= self@);
            assert(r@ == self@);
        }
        r
    }

    /// All entries of the relation whose encoded key prefix is `prefix`, in
    /// store order: exactly the filtered view, nothing from any other
    /// relation.
    pub fn scan_prefix(&self, prefix: &Vec<u8>) -> (r: Vec<Entry>)
        ensures
            entries_view(r@) == filter_prefix(self@, prefix@),
    {
        let mut r: Vec<Entry> = Vec::new();
        let n = self.entries.len();
        for i in 0..n
            invariant
                n == self@.len(),
                entries_view(r@) == filter_prefix(self@.take(i as int), prefix@),
        {
            proof {
                lemma_filter_prefix_snoc(self@.take(i as int), self@[i as int], prefix@);
                assert(self@.take(i + 1) =~= self@.take(i as int).push(self@[i as int]));
            }
            let e = &self.entries[i];
            if starts_with_bytes(&e.key, prefix) {
                let copy = Entry {
                    key: copy_bytes(&e.key),
                    valid: e.valid,
                    value: copy_bytes(&e.value),
                };
                proof {
                    assert(copy@ == self@[i as int]);
                }
                r.push(copy);
                proof {
                    assert(entries_view(r@) =~= filter_prefix(self@.take(i + 1), prefix@));
                }
            } else {
                proof {
                    assert(entries_view(r@) =~= filter_prefix(self@.take(i + 1), prefix@));
                }
            }
        }
        proof {
            assert(self@.take(n as int) =~= self@);
        }
        r
    }

    /// The value of `key` as of time `t`, by the rule of `resolve_at`, found
    /// with one binary search: the cost does not grow with the number of
    /// versions the key holds.
    pub fn get_as_of(&self, key: &Vec<u8>, t: i64) -> (r: Option<&Vec<u8>>)
        requires
            self.wf(),
        ensures
            match r {
                Some(v) => resolve_at(self@, key@, t as int) == Some(v@),
                None => resolve_at(self@, key@, t as int) is None,
            },
    {
        let probe: Option<Validity> = Some(Validity { ts: t, asserted: true });
        let c = self.upper_bound(key, &probe);
        let ghost s = self@;
        proof {
            assert forall|i: int| c <= i < s.len() implies !live_at(#[trigger] s[i], key@, t as int)
                by {
                assert(pair_lt(key@, probe, s[i].0, s[i].1));
                if s[i].0 == key@ {
                    lemma_bytes_lt_total(key@, s[i].0);
                    assert(overs_lt(probe, s[i].1));
                }
            }
            lemma_resolve_at_range(s, key@, t as int, c as int);
        }
        if c == 0 {
            proof {
                assert(s.take(0) =~= Seq::<(Seq<u8>, Option<Validity>, Seq<u8>)>::empty());
            }
            return None;
        }
        let e = &self.entries[c - 1];
        if bytes_eq(&e.key, key) {
            match &e.valid {
                Some(w) => {
                    proof {
                        assert(!pair_lt(key@, probe, s[c - 1].0, s[c - 1].1));
                        lemma_pair_lt_total(key@, probe, s[c - 1].0, s[c - 1].1);
                        assert(w.ts <= t);
                        assert(s.take(c as int).last() == s[c - 1]);
                        assert(live_at(s[c - 1], key@, t as int));
                    }
                    if w.asserted {
                        Some(&e.value)
                    } else {
                        None
                    }
                },
                None => {
                    proof {
                        assert(s.take(c as int).last() == s[c - 1]);
                        assert(!live_at(s[c - 1], key@, t as int));
                        assert forall|i: int|
                            0 <= i < c - 1 implies !live_at(#[trigger] s[i], key@, t as int) by {
                            if s[i].0 == key@ {
                                assert(pair_lt(s[i].0, s[i].1, s[c - 1].0, s[c - 1].1));
                                lemma_bytes_lt_total(s[i].0, s[c - 1].0);
                            }
                        }
                        assert(s.take(c as int).drop_last() =~= s.take(c - 1));
                        lemma_resolve_at_range(s.take(c - 1), key@, t as int, 0);
                        assert(s.take(c - 1).take(0) =~= Seq::<
                            (Seq<u8>, Option<Validity>, Seq<u8>),
                        >::empty());
                    }
                    None
                },
            }
        } else {
            proof {
                assert forall|i: int| 0 <= i < c implies !live_at(
                    #[trigger] s[i],
                    key@,
                    t as int,
                ) by {
                    if i < c - 1 && s[i].0 == key@ {
                        assert(pair_lt(s[i].0, s[i].1, s[c - 1].0, s[c - 1].1));
                        assert(!pair_lt(key@, probe, s[c - 1].0, s[c - 1].1));
                        assert(bytes_lt(key@, s[c - 1].0));
                        lemma_pair_lt_total(key@, probe, s[c - 1].0, s[c - 1].1);
                        lemma_bytes_lt_total(key@, s[c - 1].0);
                    }
                }
                assert(forall|i: int|
                    0 <= i < s.take(c as int).len() ==> s.take(c as int)[i] == s[i]);
                lemma_resolve_at_range(s.take(c as int), key@, t as int, 0);
                assert(s.take(c as int).take(0) =~= Seq::<
                    (Seq<u8>, Option<Validity>, Seq<u8>),
                >::empty());
            }
            None
        }
    }
}

/// Whether the bytes of `s` start with the bytes of `p`.
pub fn starts_with_bytes(s: &Vec<u8>, p: &Vec<u8>) -> (r: bool)
    ensures
        r == starts_with(s@, p@),
{
    if p.len() > s.len() {
        return false;
    }
    let n = p.len();
    for i in 0..n
        invariant
            n == p.len() <= s.len(),
            s@.subrange(0, i as int) == p@.subrange(0, i as int),
    {
        if s[i] != p[i] {
            proof {
                assert(s@.subrange(0, p@.len() as int)[i as int] != p@[i as int]);
            }
            return false;
        }
        proof {
            assert(s@.subrange(0, i + 1) =~= p@.subrange(0, i + 1));
        }
    }
    proof {
        assert(p@.subrange(0, n as int) =~= p@);
        assert(s@.subrange(0, n as int) == p@);
    }
    true
}

} // verus!
