//! Frequency counting with top-N extraction.  The counter maps a key to the
//! number of times it was recorded; `top_n` reports the most frequent keys,
//! descending by count.  Ties are broken deterministically: among equal
//! counts the lexicographically smaller key comes first.
//!
//! The backing storage is an interface choice; this implementation keeps an
//! in-memory association list in insertion order, with one entry per key.

use vstd::prelude::*;

verus! {

/// Why recording a key failed: its count already stands at the maximum, so
/// one more occurrence cannot be represented.  Counts must stay exact, so
/// the caller treats this as fatal.
#[derive(Debug, PartialEq, Eq, Structural, Clone, Copy)]
pub enum CounterError {
    Overflow,
}

/// Whether the entry list holds key `k`.
pub open spec fn entries_has_key(s: Seq<(Seq<char>, u64)>, k: Seq<char>) -> bool {
    exists|i: int| 0 <= i < s.len() && s[i].0 == k
}

/// The first position of key `k` in the entry list.
pub open spec fn entries_index_of(s: Seq<(Seq<char>, u64)>, k: Seq<char>) -> int
    decreases s.len(),
{
    if s.len() == 0 {
        0
    } else if s[0].0 == k {
        0
    } else {
        1 + entries_index_of(s.drop_first(), k)
    }
}

pub proof fn lemma_entries_index_of(s: Seq<(Seq<char>, u64)>, k: Seq<char>)
    requires
        entries_has_key(s, k),
    ensures
        0 <= entries_index_of(s, k) < s.len(),
        s[entries_index_of(s, k)].0 == k,
        forall|j: int| 0 <= j < entries_index_of(s, k) ==> s[j].0 != k,
    decreases s.len(),
{
    if s.len() == 0 {
    } else if s[0].0 == k {
    } else {
        assert(entries_has_key(s.drop_first(), k)) by {
            let i = choose|i: int| 0 <= i < s.len() && s[i].0 == k;
            assert(s.drop_first()[i - 1] == s[i]);
        }
        lemma_entries_index_of(s.drop_first(), k);
        let i = entries_index_of(s, k);
        assert(s[i] == s.drop_first()[i - 1]);
        assert(forall|j: int| 1 <= j < i ==> s[j] == s.drop_first()[j - 1]);
    }
}

/// The count stored for key `k`; a key never recorded counts zero.
pub open spec fn count_of(s: Seq<(Seq<char>, u64)>, k: Seq<char>) -> u64 {
    if entries_has_key(s, k) {
        s[entries_index_of(s, k)].1
    } else {
        0
    }
}

/// The entry list after recording key `k` once: a known key's count rises
/// by one in place, a new key opens a fresh entry at the end.
pub open spec fn record_one(s: Seq<(Seq<char>, u64)>, k: Seq<char>) -> Seq<(Seq<char>, u64)>
    recommends
        count_of(s, k) < u64::MAX,
{
    if entries_has_key(s, k) {
        let i = entries_index_of(s, k);
        s.update(i, (k, (s[i].1 + 1) as u64))
    } else {
        s.push((k, 1u64))
    }
}

/// Lexicographic order on character sequences, by code point: `a` comes
/// strictly before `b`.
pub open spec fn lex_lt(a: Seq<char>, b: Seq<char>) -> bool
    decreases a.len(),
{
    b.len() > 0 && (a.len() == 0 || (a[0] as u32) < (b[0] as u32) || (a[0] == b[0] && lex_lt(
        a.drop_first(),
        b.drop_first(),
    )))
}

/// The report order: the entry with the higher count comes first; equal
/// counts fall back to the lexicographically smaller key.
pub open spec fn entry_before(a: (Seq<char>, u64), b: (Seq<char>, u64)) -> bool {
    a.1 > b.1 || (a.1 == b.1 && lex_lt(a.0, b.0))
}

/// Insertion of one entry into a report sorted by `entry_before`: it lands
/// in front of the first entry it precedes.
pub open spec fn insert_desc(s: Seq<(Seq<char>, u64)>, e: (Seq<char>, u64)) -> Seq<
    (Seq<char>, u64),
>
    decreases s.len(),
{
    if s.len() == 0 {
        seq![e]
    } else if entry_before(e, s[0]) {
        seq![e] + s
    } else {
        seq![s[0]] + insert_desc(s.drop_first(), e)
    }
}

/// Sorting a whole entry list by repeated insertion, left to right.
pub open spec fn sort_desc(s: Seq<(Seq<char>, u64)>) -> Seq<(Seq<char>, u64)>
    decreases s.len(),
{
    if s.len() == 0 {
        Seq::empty()
    } else {
        insert_desc(sort_desc(s.drop_last()), s.last())
    }
}

pub proof fn lemma_insert_desc_len(s: Seq<(Seq<char>, u64)>, e: (Seq<char>, u64))
    ensures
        insert_desc(s, e).len() == s.len() + 1,
    decreases s.len(),
{
    if s.len() != 0 && !entry_before(e, s[0]) {
        lemma_insert_desc_len(s.drop_first(), e);
    }
}

pub proof fn lemma_sort_desc_len(s: Seq<(Seq<char>, u64)>)
    ensures
        sort_desc(s).len() == s.len(),
    decreases s.len(),
{
    if s.len() != 0 {
        lemma_sort_desc_len(s.drop_last());
        lemma_insert_desc_len(sort_desc(s.drop_last()), s.last());
    }
}

/// Where the inserted entry lands: before position `j` nothing yields to
/// it, at position `j` (or at the end) it takes its place.
pub proof fn lemma_insert_desc_at(s: Seq<(Seq<char>, u64)>, e: (Seq<char>, u64), j: int)
    requires
        0 <= j <= s.len(),
        forall|k: int| 0 <= k < j ==> !entry_before(e, s[k]),
        j < s.len() ==> entry_before(e, s[j]),
    ensures
        insert_desc(s, e) == s.take(j) + seq![e] + s.skip(j),
    decreases s.len(),
{
    if s.len() == 0 {
        assert(insert_desc(s, e) =~= s.take(j) + seq![e] + s.skip(j));
    } else if j == 0 {
        assert(insert_desc(s, e) =~= s.take(0) + seq![e] + s.skip(0));
    } else {
        assert(!entry_before(e, s[0]));
        assert(forall|k: int| 0 <= k < j - 1 ==> s.drop_first()[k] == s[k + 1]);
        lemma_insert_desc_at(s.drop_first(), e, j - 1);
        assert(insert_desc(s, e) =~= s.take(j) + seq![e] + s.skip(j));
    }
}

/// Sorting rearranges the entries and loses none: the sorted report is a
/// permutation of the entry list.
pub proof fn lemma_insert_desc_multiset(s: Seq<(Seq<char>, u64)>, e: (Seq<char>, u64))
    ensures
        insert_desc(s, e).to_multiset() == s.to_multiset().insert(e),
    decreases s.len(),
{
    broadcast use vstd::seq_lib::group_seq_lib_default, vstd::multiset::group_multiset_axioms;

    if s.len() == 0 {
        assert(insert_desc(s, e) =~= s.push(e));
        vstd::seq_lib::to_multiset_build(s, e);
    } else if entry_before(e, s[0]) {
        assert(insert_desc(s, e) =~= s.insert(0, e));
        vstd::seq_lib::to_multiset_insert(s, 0, e);
    } else {
        lemma_insert_desc_multiset(s.drop_first(), e);
        let rest = insert_desc(s.drop_first(), e);
        let m = s.drop_first().to_multiset();
        assert(insert_desc(s, e) =~= rest.insert(0, s[0]));
        vstd::seq_lib::to_multiset_insert(rest, 0, s[0]);
        assert(insert_desc(s, e).to_multiset() == rest.to_multiset().insert(s[0]));
        assert(rest.to_multiset() == m.insert(e));
        assert(s =~= s.drop_first().insert(0, s[0]));
        vstd::seq_lib::to_multiset_insert(s.drop_first(), 0, s[0]);
        assert(s.to_multiset() == m.insert(s[0]));
        assert(m.insert(e).insert(s[0]) =~= m.insert(s[0]).insert(e));
        assert(insert_desc(s, e).to_multiset() == s.to_multiset().insert(e));
    }
}

pub proof fn lemma_sort_desc_multiset(s: Seq<(Seq<char>, u64)>)
    ensures
        sort_desc(s).to_multiset() == s.to_multiset(),
    decreases s.len(),
{
    broadcast use vstd::seq_lib::group_seq_lib_default, vstd::multiset::group_multiset_axioms;

    if s.len() == 0 {
        assert(s =~= Seq::<(Seq<char>, u64)>::empty());
    } else {
        lemma_sort_desc_multiset(s.drop_last());
        lemma_insert_desc_multiset(sort_desc(s.drop_last()), s.last());
        assert(s =~= s.drop_last().push(s.last()));
        vstd::seq_lib::to_multiset_build(s.drop_last(), s.last());
        assert(sort_desc(s).to_multiset() == sort_desc(s.drop_last()).to_multiset().insert(
            s.last(),
        ));
        assert(sort_desc(s.drop_last()).to_multiset() == s.drop_last().to_multiset());
        assert(s.to_multiset() == s.drop_last().to_multiset().insert(s.last()));
    }
}

/// Counts never rise along the report: every entry's count is bounded by
/// `c` after inserting into a report so bounded with an entry so bounded.
pub proof fn lemma_insert_desc_counts_bounded(
    s: Seq<(Seq<char>, u64)>,
    e: (Seq<char>, u64),
    c: u64,
)
    requires
        forall|k: int| 0 <= k < s.len() ==> s[k].1 <= c,
        e.1 <= c,
    ensures
        forall|k: int| 0 <= k < insert_desc(s, e).len() ==> insert_desc(s, e)[k].1 <= c,
    decreases s.len(),
{
    if s.len() == 0 {
    } else if entry_before(e, s[0]) {
    } else {
        assert(forall|k: int| 0 <= k < s.drop_first().len() ==> s.drop_first()[k].1 <= c);
        lemma_insert_desc_counts_bounded(s.drop_first(), e, c);
        let r = insert_desc(s, e);
        let rest = insert_desc(s.drop_first(), e);
        assert(forall|k: int| 1 <= k < r.len() ==> r[k] == rest[k - 1]);
    }
}

/// The report runs descending in count: no later entry outgrows an earlier
/// one.
pub open spec fn counts_descending(s: Seq<(Seq<char>, u64)>) -> bool {
    forall|i: int, j: int| 0 <= i <= j < s.len() ==> s[j].1 <= s[i].1
}

pub proof fn lemma_insert_desc_descending(s: Seq<(Seq<char>, u64)>, e: (Seq<char>, u64))
    requires
        counts_descending(s),
    ensures
        counts_descending(insert_desc(s, e)),
    decreases s.len(),
{
    let r = insert_desc(s, e);
    if s.len() == 0 {
    } else if entry_before(e, s[0]) {
        assert(e.1 >= s[0].1);
        assert forall|i: int, j: int| 0 <= i <= j < r.len() implies r[j].1 <= r[i].1 by {
            if i == 0 && j > 0 {
                assert(r[j] == s[j - 1]);
                assert(s[j - 1].1 <= s[0].1);
            }
        }
    } else {
        assert(counts_descending(s.drop_first()));
        lemma_insert_desc_descending(s.drop_first(), e);
        let rest = insert_desc(s.drop_first(), e);
        assert(e.1 <= s[0].1);
        assert(forall|k: int| 0 <= k < s.drop_first().len() ==> s.drop_first()[k].1 <= s[0].1);
        lemma_insert_desc_counts_bounded(s.drop_first(), e, s[0].1);
        assert forall|i: int, j: int| 0 <= i <= j < r.len() implies r[j].1 <= r[i].1 by {
            if i == 0 && j > 0 {
                assert(r[j] == rest[j - 1]);
            } else if i > 0 {
                assert(r[i] == rest[i - 1]);
                assert(r[j] == rest[j - 1]);
            }
        }
    }
}

pub proof fn lemma_sort_desc_descending(s: Seq<(Seq<char>, u64)>)
    ensures
        counts_descending(sort_desc(s)),
    decreases s.len(),
{
    if s.len() != 0 {
        lemma_sort_desc_descending(s.drop_last());
        lemma_insert_desc_descending(sort_desc(s.drop_last()), s.last());
    }
}

/// The top-`n` report: the whole entry list sorted, cut to its first `n`
/// entries.
pub open spec fn spec_top_n(s: Seq<(Seq<char>, u64)>, n: int) -> Seq<(Seq<char>, u64)> {
    sort_desc(s).take(if n <= s.len() {
        n
    } else {
        s.len() as int
    })
}

/// A report wide enough for every key holds them all: with `n` at least
/// the number of distinct keys, the top-`n` report is the whole counter,
/// sorted descending by count.
pub proof fn lemma_top_n_covers_all(s: Seq<(Seq<char>, u64)>, n: int)
    requires
        n >= s.len(),
    ensures
        spec_top_n(s, n) == sort_desc(s),
        spec_top_n(s, n).to_multiset() == s.to_multiset(),
        counts_descending(spec_top_n(s, n)),
{
    lemma_sort_desc_len(s);
    lemma_sort_desc_multiset(s);
    lemma_sort_desc_descending(s);
    assert(spec_top_n(s, n) =~= sort_desc(s));
}

/// Compares two keys lexicographically by code point.
fn str_lex_lt(a: &String, b: &String) -> (r: bool)
    ensures
        r == lex_lt(a@, b@),
{
    let alen = a.as_str().unicode_len();
    let blen = b.as_str().unicode_len();
    let mut i: usize = 0;
    proof {
        assert(a@.skip(0) =~= a@);
        assert(b@.skip(0) =~= b@);
    }
    while i < alen && i < blen
        invariant
            i <= alen,
            i <= blen,
            alen == a@.len(),
            blen == b@.len(),
            lex_lt(a@, b@) == lex_lt(a@.skip(i as int), b@.skip(i as int)),
        decreases alen - i,
    {
        let ca = a.as_str().get_char(i);
        let cb = b.as_str().get_char(i);
        let ghost sa = a@.skip(i as int);
        let ghost sb = b@.skip(i as int);
        proof {
            assert(sa[0] == a@[i as int]);
            assert(sb[0] == b@[i as int]);
            assert(sa.drop_first() =~= a@.skip(i as int + 1));
            assert(sb.drop_first() =~= b@.skip(i as int + 1));
        }
        if (ca as u32) < (cb as u32) {
            return true;
        }
        if (cb as u32) < (ca as u32) {
            proof {
                assert((ca as u32) != (cb as u32));
                assert(ca != cb);
                assert(!lex_lt(sa, sb));
            }
            return false;
        }
        proof {
            assert(ca as u32 == cb as u32);
            assert(ca == cb) by {
                assert(ca as u32 == cb as u32);
            }
        }
        i = i + 1;
    }
    proof {
        let sa = a@.skip(i as int);
        let sb = b@.skip(i as int);
        if i == alen {
            assert(sa.len() == 0);
            assert(lex_lt(sa, sb) == (sb.len() > 0));
        } else {
            assert(sb.len() == 0);
            assert(!lex_lt(sa, sb));
        }
    }
    i == alen && i < blen
}

/// Whether entry `a` comes before entry `b` in the report order.
fn entry_before_exec(ak: &String, ac: u64, bk: &String, bc: u64) -> (r: bool)
    ensures
        r == entry_before((ak@, ac), (bk@, bc)),
{
    if ac > bc {
        true
    } else if ac == bc {
        str_lex_lt(ak, bk)
    } else {
        false
    }
}

/// The position where an entry belongs in a report sorted by
/// `entry_before`: just in front of the first entry it precedes.
fn find_insert_pos(sorted: &Vec<(String, u64)>, key: &String, cnt: u64) -> (j: usize)
    ensures
        j <= sorted.len(),
        forall|k: int| 0 <= k < j ==> !entry_before((key@, cnt), sorted.deep_view()[k]),
        j < sorted.len() ==> entry_before((key@, cnt), sorted.deep_view()[j as int]),
{
    let n = sorted.len();
    let mut j: usize = 0;
    while j < n
        invariant
            j <= n,
            n == sorted.len(),
            forall|k: int| 0 <= k < j ==> !entry_before((key@, cnt), sorted.deep_view()[k]),
        decreases n - j,
    {
        proof {
            assert(sorted.deep_view()[j as int] == (sorted[j as int].0@, sorted[j as int].1));
        }
        if entry_before_exec(key, cnt, &sorted[j].0, sorted[j].1) {
            return j;
        }
        j = j + 1;
    }
    j
}

/// A frequency counter: a mapping from key to occurrence count.
pub struct Counter {
    items: Vec<(String, u64)>,
}

impl View for Counter {
    type V = Seq<(Seq<char>, u64)>;

    closed spec fn view(&self) -> Seq<(Seq<char>, u64)> {
        self.items.deep_view()
    }
}

impl Counter {
    /// One entry per key: the association list never repeats a key.
    pub open spec fn wf(&self) -> bool {
        forall|i: int, j: int| 0 <= i < j < self@.len() ==> self@[i].0 != self@[j].0
    }

    /// An empty counter.
    pub fn new() -> (r: Counter)
        ensures
            r@ == Seq::<(Seq<char>, u64)>::empty(),
            r.wf(),
    {
        let items: Vec<(String, u64)> = Vec::new();
        proof {
            assert(items.deep_view() =~= Seq::<(Seq<char>, u64)>::empty());
        }
        Counter { items }
    }

    /// The first position of `key` among the entries.
    fn find(&self, key: &String) -> (r: Option<usize>)
        ensures
            r is Some <==> entries_has_key(self@, key@),
            r matches Some(i) ==> i < self.items.len() && i == entries_index_of(self@, key@),
    {
        let n = self.items.len();
        let mut i: usize = 0;
        while i < n
            invariant
                i <= n,
                n == self.items.len(),
                forall|j: int| 0 <= j < i ==> self@[j].0 != key@,
            decreases n - i,
        {
            if self.items[i].0 == *key {
                proof {
                    assert(self@[i as int].0 == key@);
                    lemma_entries_index_of(self@, key@);
                }
                return Some(i);
            }
            i = i + 1;
        }
        None
    }

    /// Records one occurrence of `item`.  Fails only when the key's count
    /// already stands at the maximum, and then changes nothing.
    pub fn insert(&mut self, item: String) -> (r: Result<(), CounterError>)
        requires
            old(self).wf(),
        ensures
            final(self).wf(),
            count_of(old(self)@, item@) < u64::MAX ==> r is Ok && final(self)@ == record_one(
                old(self)@,
                item@,
            ),
            count_of(old(self)@, item@) == u64::MAX ==> r == Err::<(), CounterError>(
                CounterError::Overflow,
            ) && final(self)@ == old(self)@,
    {
        let ghost s0 = self@;
        match self.find(&item) {
            Some(i) => {
                proof {
                    lemma_entries_index_of(s0, item@);
                }
                let c = self.items[i].1;
                if c == u64::MAX {
                    return Err(CounterError::Overflow);
                }
                let entry = self.items.remove(i);
                let ghost mid = self.items.deep_view();
                self.items.insert(i, (entry.0, c + 1));
                proof {
                    assert(self@ =~~= s0.update(i as int, (item@, (c + 1) as u64)));
                    assert(entry.0@ == item@);
                    assert(self@ =~~= record_one(s0, item@));
                    assert forall|p: int, q: int| 0 <= p < q < self@.len() implies self@[p].0
                        != self@[q].0 by {
                        assert(s0[p].0 != s0[q].0);
                    }
                }
                Ok(())
            },
            None => {
                let ghost old_items = self.items.deep_view();
                self.items.push((item, 1));
                proof {
                    assert(self@ =~~= old_items.push((item@, 1u64)));
                    assert(self@ =~~= record_one(s0, item@));
                    assert forall|p: int, q: int| 0 <= p < q < self@.len() implies self@[p].0
                        != self@[q].0 by {
                        if q < self@.len() - 1 {
                            assert(s0[p].0 != s0[q].0);
                        } else {
                            assert(s0[p].0 == self@[p].0);
                            assert(!entries_has_key(s0, item@));
                        }
                    }
                }
                Ok(())
            },
        }
    }

    /// The `n` most frequent keys with their counts, descending by count,
    /// ties broken toward the lexicographically smaller key.  Reads the
    /// counter without changing it; with `n` covering every key it reports
    /// the whole counter sorted.
    pub fn top_n(&self, n: usize) -> (r: Vec<(String, u64)>)
        ensures
            r.deep_view() == spec_top_n(self@, n as int),
            counts_descending(r.deep_view()),
            r.len() == if n as int <= self@.len() {
                n as int
            } else {
                self@.len() as int
            },
    {
        let m = self.items.len();
        let mut sorted: Vec<(String, u64)> = Vec::new();
        let mut i: usize = 0;
        proof {
            assert(self@.take(0) =~= Seq::<(Seq<char>, u64)>::empty());
            assert(sorted.deep_view() =~~= sort_desc(self@.take(0)));
        }
        while i < m
            invariant
                i <= m,
                m == self.items.len(),
                sorted.len() == i,
                sorted.deep_view() == sort_desc(self@.take(i as int)),
            decreases m - i,
        {
            let key = self.items[i].0.clone();
            let cnt = self.items[i].1;
            let ghost e = (key@, cnt);
            proof {
                assert(self@[i as int] == (self.items[i as int].0@, self.items[i as int].1));
                assert(e == self@[i as int]);
            }
            let j = find_insert_pos(&sorted, &key, cnt);
            proof {
                lemma_insert_desc_at(sorted.deep_view(), e, j as int);
            }
            let ghost old_sorted = sorted.deep_view();
            sorted.insert(j, (key, cnt));
            proof {
                assert(sorted.deep_view() =~~= old_sorted.take(j as int) + seq![e]
                    + old_sorted.skip(j as int));
                assert(self@.take(i as int + 1).drop_last() =~= self@.take(i as int));
                assert(self@.take(i as int + 1).last() == e);
                assert(sorted.deep_view() =~~= sort_desc(self@.take(i as int + 1)));
            }
            i = i + 1;
        }
        proof {
            assert(self@.take(m as int) =~= self@);
            lemma_sort_desc_len(self@);
        }
        let ghost full = sorted.deep_view();
        let mut r = sorted;
        r.truncate(n);
        proof {
            let cut = if n as int <= self@.len() {
                n as int
            } else {
                self@.len() as int
            };
            assert(r.deep_view() =~~= full.take(cut));
            lemma_sort_desc_descending(self@);
            assert(counts_descending(r.deep_view())) by {
                assert(forall|k: int| 0 <= k < r.deep_view().len() ==> r.deep_view()[k]
                    == sort_desc(self@)[k]);
            }
        }
        r
    }
}

/// Recording one key `n` times, starting from nothing, leaves exactly one
/// entry carrying that key with count `n`.
pub open spec fn record_n(k: Seq<char>, n: nat) -> Seq<(Seq<char>, u64)>
    decreases n,
{
    if n == 0 {
        Seq::empty()
    } else {
        record_one(record_n(k, (n - 1) as nat), k)
    }
}

pub proof fn lemma_record_n_count(k: Seq<char>, n: nat)
    requires
        n <= u64::MAX,
    ensures
        n > 0 ==> record_n(k, n) == seq![(k, n as u64)],
        count_of(record_n(k, n), k) == n,
    decreases n,
{
    if n == 0 {
        assert(!entries_has_key(record_n(k, 0), k));
    } else {
        lemma_record_n_count(k, (n - 1) as nat);
        let prev = record_n(k, (n - 1) as nat);
        if n == 1 {
            assert(!entries_has_key(prev, k));
            assert(record_n(k, 1) =~= seq![(k, 1u64)]);
        } else {
            assert(prev == seq![(k, (n - 1) as u64)]);
            assert(entries_has_key(prev, k)) by {
                assert(prev[0].0 == k);
            }
            assert(entries_index_of(prev, k) == 0);
            assert(record_n(k, n) =~= seq![(k, n as u64)]);
        }
        assert(record_n(k, n)[0].0 == k);
        assert(entries_index_of(record_n(k, n), k) == 0);
    }
}

} // verus!
