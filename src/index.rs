//! Ordered multimaps from byte keys to record IDs, as used by secondary indexes.
use vstd::prelude::*;
use crate::query::Operator;
use vstd::seq_lib::{to_multiset_insert, to_multiset_remove};

verus! {

broadcast use vstd::seq::group_seq_axioms;

/// Lexicographic order on byte strings: a proper prefix comes first.
pub open spec fn lex_lt(a: Seq<u8>, b: Seq<u8>) -> bool
    decreases a.len(),
{
    if a.len() == 0 {
        b.len() > 0
    } else if b.len() == 0 {
        false
    } else if a[0] != b[0] {
        a[0] < b[0]
    } else {
        lex_lt(a.drop_first(), b.drop_first())
    }
}

/// The order of index entries: by key, then by record ID.
pub open spec fn entry_lt(x: (Seq<u8>, u64), y: (Seq<u8>, u64)) -> bool {
    lex_lt(x.0, y.0) || (x.0 == y.0 && x.1 < y.1)
}

pub open spec fn entry_le(x: (Seq<u8>, u64), y: (Seq<u8>, u64)) -> bool {
    entry_lt(x, y) || x == y
}

pub open spec fn sorted(s: Seq<(Seq<u8>, u64)>) -> bool {
    forall|i: int, j: int| 0 <= i < j < s.len() ==> entry_le(#[trigger] s[i], #[trigger] s[j])
}

pub proof fn lemma_lex_irreflexive(a: Seq<u8>)
    ensures
        !lex_lt(a, a),
    decreases a.len(),
{
    if a.len() > 0 {
        lemma_lex_irreflexive(a.drop_first());
    }
}

pub proof fn lemma_lex_transitive(a: Seq<u8>, b: Seq<u8>, c: Seq<u8>)
    requires
        lex_lt(a, b),
        lex_lt(b, c),
    ensures
        lex_lt(a, c),
    decreases a.len(),
{
    if a.len() > 0 && b.len() > 0 && c.len() > 0 && a[0] == b[0] && b[0] == c[0] {
        lemma_lex_transitive(a.drop_first(), b.drop_first(), c.drop_first());
    }
}

pub proof fn lemma_lex_total(a: Seq<u8>, b: Seq<u8>)
    ensures
        lex_lt(a, b) || lex_lt(b, a) || a == b,
    decreases a.len(),
{
    if a.len() > 0 && b.len() > 0 && a[0] == b[0] {
        lemma_lex_total(a.drop_first(), b.drop_first());
        if a.drop_first() == b.drop_first() {
            assert(a =~= seq![a[0]] + a.drop_first());
            assert(b =~= seq![b[0]] + b.drop_first());
        }
    } else if a.len() == 0 && b.len() == 0 {
        assert(a =~= b);
    }
}

proof fn lemma_entry_lt_le_trans(x: (Seq<u8>, u64), y: (Seq<u8>, u64), z: (Seq<u8>, u64))
    requires
        entry_lt(x, y),
        entry_le(y, z),
    ensures
        entry_lt(x, z),
{
    if lex_lt(x.0, y.0) && lex_lt(y.0, z.0) {
        lemma_lex_transitive(x.0, y.0, z.0);
    }
}

proof fn lemma_entry_not_lt(x: (Seq<u8>, u64), y: (Seq<u8>, u64))
    requires
        !entry_lt(x, y),
    ensures
        entry_le(y, x),
{
    lemma_lex_total(x.0, y.0);
}

/// Whether `a` is less than `b` in lexicographic order.
pub fn lex_less(a: &[u8], b: &[u8]) -> (r: bool)
    ensures
        r == lex_lt(a@, b@),
{
    let mut i: usize = 0;
    assert(a@.skip(0) =~= a@ && b@.skip(0) =~= b@);
    while i < a.len() && i < b.len() && a[i] == b[i]
        invariant
            i <= a@.len(),
            i <= b@.len(),
            lex_lt(a@, b@) == lex_lt(a@.skip(i as int), b@.skip(i as int)),
        decreases a@.len() - i,
    {
        assert(a@.skip(i as int).drop_first() =~= a@.skip(i + 1));
        assert(b@.skip(i as int).drop_first() =~= b@.skip(i + 1));
        i = i + 1;
    }
    if i == a.len() {
        i < b.len()
    } else if i == b.len() {
        false
    } else {
        a[i] < b[i]
    }
}

/// Whether the bytes `a` and `b` are equal.
pub fn bytes_eq(a: &[u8], b: &[u8]) -> (r: bool)
    ensures
        r == (a@ == b@),
{
    if a.len() != b.len() {
        return false;
    }
    let mut i: usize = 0;
    while i < a.len()
        invariant
            a@.len() == b@.len(),
            i <= a@.len(),
            forall|j: int| 0 <= j < i ==> a@[j] == b@[j],
        decreases a@.len() - i,
    {
        if a[i] != b[i] {
            return false;
        }
        i = i + 1;
    }
    assert(a@ =~= b@);
    true
}

fn entry_less(k1: &Vec<u8>, i1: u64, k2: &Vec<u8>, i2: u64) -> (r: bool)
    ensures
        r == entry_lt((k1@, i1), (k2@, i2)),
{
    lex_less(k1.as_slice(), k2.as_slice()) || (bytes_eq(k1.as_slice(), k2.as_slice()) && i1 < i2)
}

/// A multimap from byte keys to record IDs, kept in key order.
#[derive(Debug)]
pub struct IndexDatabase {
    entries: Vec<(Vec<u8>, u64)>,
}

pub open spec fn entry_view(e: (Vec<u8>, u64)) -> (Seq<u8>, u64) {
    (e.0@, e.1)
}

impl View for IndexDatabase {
    type V = Seq<(Seq<u8>, u64)>;

    closed spec fn view(&self) -> Seq<(Seq<u8>, u64)> {
        self.entries@.map_values(|e: (Vec<u8>, u64)| entry_view(e))
    }
}

impl IndexDatabase {
    pub open spec fn wf(&self) -> bool {
        sorted(self@)
    }

    pub fn new() -> (r: IndexDatabase)
        ensures
            r.wf(),
            r@ == Seq::<(Seq<u8>, u64)>::empty(),
    {
        let r = IndexDatabase { entries: Vec::new() };
        assert(r@ =~= Seq::<(Seq<u8>, u64)>::empty());
        r
    }

    /// The number of entries.
    pub fn count(&self) -> (r: usize)
        ensures
            r == self@.len(),
    {
        self.entries.len()
    }

    /// Adds the pair `(key, id)`, after every entry that is not greater.
    pub fn insert(&mut self, key: Vec<u8>, id: u64)
        requires
            old(self).wf(),
        ensures
            final(self).wf(),
            final(self)@.to_multiset() == old(self)@.to_multiset().insert((key@, id)),
            final(self)@.len() == old(self)@.len() + 1,
            final(self)@.contains((key@, id)),
    {
        let ghost x = (key@, id);
        let ghost s = self@;
        let mut pos: usize = 0;
        let mut done = false;
        while !done && pos < self.entries.len()
            invariant
                self@ == s,
                s == old(self)@,
                x == (key@, id),
                sorted(s),
                pos <= s.len(),
                self.entries@.len() == s.len(),
                done ==> pos < s.len() && entry_lt(x, s[pos as int]),
                forall|j: int| 0 <= j < pos ==> !entry_lt(x, #[trigger] s[j]),
            decreases s.len() - pos + (if done { 0int } else { 1int }),
        {
            assert(s[pos as int] == entry_view(self.entries@[pos as int]));
            let lt = entry_less(&key, id, &self.entries[pos].0, self.entries[pos].1);
            if lt {
                done = true;
            } else {
                pos = pos + 1;
            }
        }
        self.entries.insert(pos, (key, id));
        proof {
            let t = s.insert(pos as int, x);
            assert(self@ =~= t);
            assert forall|i: int, j: int| 0 <= i < j < t.len() implies entry_le(#[trigger] t[i], #[trigger] t[j]) by {
                if j < pos {
                } else if j == pos {
                    lemma_entry_not_lt(x, s[i]);
                } else if i < pos {
                    assert(t[j] == s[j - 1]);
                } else if i == pos {
                    assert(entry_lt(x, s[pos as int]));
                    if j - 1 > pos {
                        assert(entry_le(s[pos as int], s[j - 1]));
                    }
                    lemma_entry_lt_le_trans(x, s[pos as int], s[j - 1]);
                } else {
                    assert(t[i] == s[i - 1] && t[j] == s[j - 1]);
                }
            }
            to_multiset_insert(s, pos as int, x);
            assert(t[pos as int] == x);
        }
    }

    /// Removes one occurrence of the pair `(key, id)`; says whether there was one.
    pub fn remove(&mut self, key: &[u8], id: u64) -> (r: bool)
        requires
            old(self).wf(),
        ensures
            final(self).wf(),
            r == old(self)@.contains((key@, id)),
            r ==> final(self)@.to_multiset() == old(self)@.to_multiset().remove((key@, id)),
            r ==> final(self)@.len() == old(self)@.len() - 1,
            !r ==> final(self)@ == old(self)@,
    {
        let ghost x = (key@, id);
        let ghost s = self@;
        let mut i: usize = 0;
        while i < self.entries.len()
            invariant
                self@ == s,
                s == old(self)@,
                x == (key@, id),
                sorted(s),
                i <= s.len(),
                self.entries@.len() == s.len(),
                forall|j: int| 0 <= j < i ==> #[trigger] s[j] != x,
            decreases s.len() - i,
        {
            assert(s[i as int] == entry_view(self.entries@[i as int]));
            if self.entries[i].1 == id && bytes_eq(self.entries[i].0.as_slice(), key) {
                assert(s[i as int] == x);
                self.entries.remove(i);
                proof {
                    assert(self@ =~= s.remove(i as int));
                    to_multiset_remove(s, i as int);
                    let t = s.remove(i as int);
                    assert(t =~= s.subrange(0, i as int) + s.subrange(i + 1, s.len() as int));
                    assert forall|a: int, b: int| 0 <= a < b < t.len() implies entry_le(#[trigger] t[a], #[trigger] t[b]) by {
                        let a2 = if a < i { a } else { a + 1 };
                        let b2 = if b < i { b } else { b + 1 };
                        assert(t[a] == s[a2] && t[b] == s[b2]);
                    }
                }
                return true;
            }
            i = i + 1;
        }
        assert(!s.contains(x));
        false
    }

    /// The record IDs whose keys satisfy `op` against `bound`, in index order.
    pub fn scan(&self, op: Operator, bound: &[u8]) -> (r: Vec<u64>)
        ensures
            r@ == scan_spec(self@, op, bound@),
    {
        let mut out: Vec<u64> = Vec::new();
        let mut i: usize = 0;
        while i < self.entries.len()
            invariant
                i <= self@.len(),
                self.entries@.len() == self@.len(),
                out@ == scan_spec(self@.subrange(0, i as int), op, bound@),
            decreases self@.len() - i,
        {
            assert(self@.subrange(0, i + 1).drop_last() =~= self@.subrange(0, i as int));
            if accepts(op, bound, self.entries[i].0.as_slice()) {
                out.push(self.entries[i].1);
            }
            i = i + 1;
        }
        assert(self@.subrange(0, self@.len() as int) =~= self@);
        out
    }
}

/// Whether an index key `k` satisfies `op` against the encoded value `bound`.
/// `Contains` asks for a key equal to the bound, as a word of a full-text index.
pub open spec fn key_accepted(op: Operator, bound: Seq<u8>, k: Seq<u8>) -> bool {
    match op {
        Operator::EQ => k == bound,
        Operator::Contains => k == bound,
        Operator::LT => lex_lt(k, bound),
        Operator::LTE => lex_lt(k, bound) || k == bound,
        Operator::GT => lex_lt(bound, k),
        Operator::GTE => lex_lt(bound, k) || k == bound,
    }
}

/// The IDs of the entries whose keys satisfy `op` against `bound`, in order.
pub open spec fn scan_spec(s: Seq<(Seq<u8>, u64)>, op: Operator, bound: Seq<u8>) -> Seq<u64>
    decreases s.len(),
{
    if s.len() == 0 {
        seq![]
    } else if key_accepted(op, bound, s.last().0) {
        scan_spec(s.drop_last(), op, bound).push(s.last().1)
    } else {
        scan_spec(s.drop_last(), op, bound)
    }
}

/// Whether the key `k` satisfies `op` against `bound`.
pub fn accepts(op: Operator, bound: &[u8], k: &[u8]) -> (r: bool)
    ensures
        r == key_accepted(op, bound@, k@),
{
    match op {
        Operator::EQ => bytes_eq(k, bound),
        Operator::Contains => bytes_eq(k, bound),
        Operator::LT => lex_less(k, bound),
        Operator::LTE => lex_less(k, bound) || bytes_eq(k, bound),
        Operator::GT => lex_less(bound, k),
        Operator::GTE => lex_less(bound, k) || bytes_eq(k, bound),
    }
}

proof fn lemma_scan_prefix(s: Seq<(Seq<u8>, u64)>, op: Operator, bound: Seq<u8>, n: int, m: int)
    requires
        0 <= n <= m <= s.len(),
    ensures
        scan_spec(s.subrange(0, n), op, bound).len() <= scan_spec(s.subrange(0, m), op, bound).len(),
        scan_spec(s.subrange(0, n), op, bound) == scan_spec(s.subrange(0, m), op, bound).subrange(
            0, scan_spec(s.subrange(0, n), op, bound).len() as int),
    decreases m - n,
{
    if n < m {
        lemma_scan_prefix(s, op, bound, n, m - 1);
        assert(s.subrange(0, m).drop_last() =~= s.subrange(0, m - 1));
        let p = scan_spec(s.subrange(0, m - 1), op, bound);
        let q = scan_spec(s.subrange(0, m), op, bound);
        let len_n = scan_spec(s.subrange(0, n), op, bound).len() as int;
        assert(q.subrange(0, len_n) =~= p.subrange(0, len_n));
    } else {
        let q = scan_spec(s.subrange(0, m), op, bound);
        assert(q.subrange(0, q.len() as int) =~= q);
    }
}

proof fn lemma_scan_position(s: Seq<(Seq<u8>, u64)>, op: Operator, bound: Seq<u8>, a: int)
    requires
        0 <= a < s.len(),
        key_accepted(op, bound, s[a].0),
    ensures
        scan_spec(s.subrange(0, a), op, bound).len() < scan_spec(s, op, bound).len(),
        scan_spec(s, op, bound)[scan_spec(s.subrange(0, a), op, bound).len() as int] == s[a].1,
        scan_spec(s.subrange(0, a + 1), op, bound).len() == scan_spec(s.subrange(0, a), op, bound).len() + 1,
{
    assert(s.subrange(0, a + 1).drop_last() =~= s.subrange(0, a));
    lemma_scan_prefix(s, op, bound, a + 1, s.len() as int);
    assert(s.subrange(0, s.len() as int) =~= s);
    let i = scan_spec(s.subrange(0, a), op, bound).len() as int;
    let p = scan_spec(s.subrange(0, a + 1), op, bound);
    assert(p[i] == s[a].1);
    assert(scan_spec(s, op, bound).subrange(0, p.len() as int)[i] == s[a].1);
}

/// In an index kept in key order, a scan of the keys up to a bound returns
/// the ID of an entry before the ID of every entry with a greater key.
pub proof fn lemma_scan_in_key_order(s: Seq<(Seq<u8>, u64)>, a: int, b: int, bound: Seq<u8>)
    requires
        sorted(s),
        0 <= a < s.len(),
        0 <= b < s.len(),
        lex_lt(s[a].0, s[b].0),
        key_accepted(Operator::LTE, bound, s[b].0),
    ensures
        exists|i: int, j: int| 0 <= i < j < scan_spec(s, Operator::LTE, bound).len()
            && #[trigger] scan_spec(s, Operator::LTE, bound)[i] == s[a].1
            && #[trigger] scan_spec(s, Operator::LTE, bound)[j] == s[b].1,
{
    if lex_lt(s[b].0, bound) {
        lemma_lex_transitive(s[a].0, s[b].0, bound);
    }
    if b <= a {
        if b < a {
            assert(entry_le(s[b], s[a]));
            if lex_lt(s[b].0, s[a].0) {
                lemma_lex_transitive(s[a].0, s[b].0, s[a].0);
            }
        }
        lemma_lex_irreflexive(s[a].0);
        lemma_lex_irreflexive(s[b].0);
    }
    assert(a < b);
    lemma_scan_position(s, Operator::LTE, bound, a);
    lemma_scan_position(s, Operator::LTE, bound, b);
    lemma_scan_prefix(s, Operator::LTE, bound, a + 1, b);
    let i = scan_spec(s.subrange(0, a), Operator::LTE, bound).len() as int;
    let j = scan_spec(s.subrange(0, b), Operator::LTE, bound).len() as int;
    assert(scan_spec(s, Operator::LTE, bound)[i] == s[a].1);
    assert(scan_spec(s, Operator::LTE, bound)[j] == s[b].1);
}

/// The index entries that pair each of `keys` with `id`.
pub open spec fn pairs_with(keys: Seq<Seq<u8>>, id: u64) -> Seq<(Seq<u8>, u64)> {
    keys.map_values(|k: Seq<u8>| (k, id))
}

pub open spec fn keys_view(keys: Seq<Vec<u8>>) -> Seq<Seq<u8>> {
    keys.map_values(|k: Vec<u8>| k@)
}

proof fn lemma_pairs_prefix(keys: Seq<Seq<u8>>, id: u64, i: int, p: (Seq<u8>, u64))
    requires
        crate::full_text::no_repeats(keys),
        0 <= i < keys.len(),
    ensures
        pairs_with(keys.subrange(0, i + 1), id).contains(p)
            == (pairs_with(keys.subrange(0, i), id).contains(p) || p == (keys[i], id)),
        !pairs_with(keys.subrange(0, i), id).contains((keys[i], id)),
{
    let a = pairs_with(keys.subrange(0, i), id);
    let b = pairs_with(keys.subrange(0, i + 1), id);
    assert(b =~= a.push((keys[i], id)));
    if b.contains(p) {
        let j = choose|j: int| 0 <= j < b.len() && b[j] == p;
        if j < a.len() {
            assert(a[j] == p);
        }
    }
    if a.contains(p) {
        let j = choose|j: int| 0 <= j < a.len() && a[j] == p;
        assert(b[j] == p);
    }
    if p == (keys[i], id) {
        assert(b[i] == p);
    }
    if a.contains((keys[i], id)) {
        let j = choose|j: int| 0 <= j < a.len() && a[j] == (keys[i], id);
        assert(keys[j] == keys[i]);
    }
}

impl IndexDatabase {
    /// Adds the pair `(k, id)` for each of the distinct keys `keys`.
    pub fn insert_keys(&mut self, keys: Vec<Vec<u8>>, id: u64)
        requires
            old(self).wf(),
            crate::full_text::no_repeats(keys_view(keys@)),
        ensures
            final(self).wf(),
            forall|p: (Seq<u8>, u64)| #[trigger] final(self)@.to_multiset().count(p)
                == old(self)@.to_multiset().count(p) + if pairs_with(keys_view(keys@), id).contains(p) { 1int } else { 0int },
            final(self)@.len() == old(self)@.len() + keys@.len(),
            forall|i: int| 0 <= i < keys@.len() ==> final(self)@.contains((#[trigger] keys_view(keys@)[i], id)),
    {
        let ghost ks = keys_view(keys@);
        let mut rest = keys;
        let ghost all = rest@;
        let total = rest.len();
        let mut i: usize = 0;
        while rest.len() > 0
            invariant
                self.wf(),
                total == all.len(),
                all.len() == i + rest@.len(),
                rest@ == all.subrange(i as int, all.len() as int),
                ks == keys_view(all),
                crate::full_text::no_repeats(ks),
                forall|p: (Seq<u8>, u64)| #[trigger] self@.to_multiset().count(p)
                    == old(self)@.to_multiset().count(p) + if pairs_with(ks.subrange(0, i as int), id).contains(p) { 1int } else { 0int },
                self@.len() == old(self)@.len() + i,
            decreases rest@.len(),
        {
            let k = rest.remove(0);
            assert(k@ == ks[i as int]);
            self.insert(k, id);
            proof {
                assert forall|p: (Seq<u8>, u64)| #[trigger] self@.to_multiset().count(p)
                    == old(self)@.to_multiset().count(p) + if pairs_with(ks.subrange(0, i + 1), id).contains(p) { 1int } else { 0int } by {
                    lemma_pairs_prefix(ks, id, i as int, p);
                }
            }
            i = i + 1;
        }
        proof {
            assert(ks.subrange(0, i as int) =~= ks);
            assert forall|j: int| 0 <= j < all.len() implies self@.contains((#[trigger] ks[j], id)) by {
                let x = (all[j]@, id);
                assert(pairs_with(ks, id)[j] == x);
                vstd::seq_lib::to_multiset_contains(self@, x);
            }
        }
    }

    /// Removes one occurrence of the pair `(k, id)` for each of the distinct
    /// keys `keys`, where there is one.
    pub fn remove_keys(&mut self, keys: &Vec<Vec<u8>>, id: u64)
        requires
            old(self).wf(),
            crate::full_text::no_repeats(keys_view(keys@)),
        ensures
            final(self).wf(),
            forall|p: (Seq<u8>, u64)| #[trigger] final(self)@.to_multiset().count(p)
                == if pairs_with(keys_view(keys@), id).contains(p) && old(self)@.to_multiset().count(p) > 0 {
                    (old(self)@.to_multiset().count(p) - 1) as nat
                } else {
                    old(self)@.to_multiset().count(p)
                },
            (forall|i: int| 0 <= i < keys@.len() ==> old(self)@.contains((#[trigger] keys_view(keys@)[i], id)))
                ==> final(self)@.len() == old(self)@.len() - keys@.len(),
    {
        let ghost ks = keys_view(keys@);
        let mut i: usize = 0;
        while i < keys.len()
            invariant
                self.wf(),
                i <= keys@.len(),
                ks == keys_view(keys@),
                crate::full_text::no_repeats(ks),
                forall|p: (Seq<u8>, u64)| #[trigger] self@.to_multiset().count(p)
                    == if pairs_with(ks.subrange(0, i as int), id).contains(p) && old(self)@.to_multiset().count(p) > 0 {
                        (old(self)@.to_multiset().count(p) - 1) as nat
                    } else {
                        old(self)@.to_multiset().count(p)
                    },
                (forall|j: int| 0 <= j < keys@.len() ==> old(self)@.contains((#[trigger] ks[j], id)))
                    ==> self@.len() == old(self)@.len() - i,
            decreases keys@.len() - i,
        {
            let ghost x = (ks[i as int], id);
            assert(keys@[i as int]@ == ks[i as int]);
            proof {
                lemma_pairs_prefix(ks, id, i as int, x);
                vstd::seq_lib::to_multiset_contains(self@, x);
                vstd::seq_lib::to_multiset_contains(old(self)@, x);
            }
            let removed = self.remove(keys[i].as_slice(), id);
            proof {
                assert forall|p: (Seq<u8>, u64)| #[trigger] self@.to_multiset().count(p)
                    == if pairs_with(ks.subrange(0, i + 1), id).contains(p) && old(self)@.to_multiset().count(p) > 0 {
                        (old(self)@.to_multiset().count(p) - 1) as nat
                    } else {
                        old(self)@.to_multiset().count(p)
                    } by {
                    lemma_pairs_prefix(ks, id, i as int, p);
                }
            }
            i = i + 1;
        }
        assert(ks.subrange(0, i as int) =~= ks);
    }
}

/// Whether `rest`, the part of a key after the compared prefix, satisfies `op`
/// against `bound`. Equality asks only for a leading `bound` unless the
/// comparison reaches the key's last field (`whole`).
pub open spec fn tail_accepted(op: Operator, bound: Seq<u8>, rest: Seq<u8>, whole: bool) -> bool {
    if op == Operator::EQ && !whole {
        is_prefix(bound, rest)
    } else {
        key_accepted(op, bound, rest)
    }
}

pub open spec fn is_prefix(p: Seq<u8>, k: Seq<u8>) -> bool {
    p.len() <= k.len() && k.subrange(0, p.len() as int) == p
}

/// Whether a composite key starts with `prefix` and its remainder satisfies
/// `op` against `bound`.
pub open spec fn composite_accepted(prefix: Seq<u8>, op: Operator, bound: Seq<u8>, whole: bool, k: Seq<u8>) -> bool {
    is_prefix(prefix, k) && tail_accepted(op, bound, k.subrange(prefix.len() as int, k.len() as int), whole)
}

/// The IDs of the entries whose keys `composite_accepted` admits, in order.
pub open spec fn scan_composite_spec(s: Seq<(Seq<u8>, u64)>, prefix: Seq<u8>, op: Operator, bound: Seq<u8>, whole: bool) -> Seq<u64>
    decreases s.len(),
{
    if s.len() == 0 {
        seq![]
    } else if composite_accepted(prefix, op, bound, whole, s.last().0) {
        scan_composite_spec(s.drop_last(), prefix, op, bound, whole).push(s.last().1)
    } else {
        scan_composite_spec(s.drop_last(), prefix, op, bound, whole)
    }
}

fn starts_with(p: &[u8], k: &[u8]) -> (r: bool)
    ensures
        r == is_prefix(p@, k@),
{
    if p.len() > k.len() {
        false
    } else {
        bytes_eq(&k[0..p.len()], p)
    }
}

fn composite_accepts(prefix: &[u8], op: Operator, bound: &[u8], whole: bool, k: &[u8]) -> (r: bool)
    ensures
        r == composite_accepted(prefix@, op, bound@, whole, k@),
{
    if !starts_with(prefix, k) {
        return false;
    }
    let rest = &k[prefix.len()..k.len()];
    if op == Operator::EQ && !whole {
        starts_with(bound, rest)
    } else {
        accepts(op, bound, rest)
    }
}

impl IndexDatabase {
    /// The record IDs whose keys start with `prefix` and continue as `op`
    /// against `bound` asks, in index order.
    pub fn scan_composite(&self, prefix: &[u8], op: Operator, bound: &[u8], whole: bool) -> (r: Vec<u64>)
        ensures
            r@ == scan_composite_spec(self@, prefix@, op, bound@, whole),
    {
        let mut out: Vec<u64> = Vec::new();
        let mut i: usize = 0;
        while i < self.entries.len()
            invariant
                i <= self@.len(),
                self.entries@.len() == self@.len(),
                out@ == scan_composite_spec(self@.subrange(0, i as int), prefix@, op, bound@, whole),
            decreases self@.len() - i,
        {
            assert(self@.subrange(0, i + 1).drop_last() =~= self@.subrange(0, i as int));
            if composite_accepts(prefix, op, bound, whole, self.entries[i].0.as_slice()) {
                out.push(self.entries[i].1);
            }
            i = i + 1;
        }
        assert(self@.subrange(0, self@.len() as int) =~= self@);
        out
    }
}

} // verus!
