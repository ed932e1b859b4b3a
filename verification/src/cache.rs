//! The point cache: a keyed store from point identifier to position.  A
//! conversion run writes it during its first phase and reads it during its
//! second; it is scratch state scoped to one run, not durable output.
//!
//! The backing storage is an interface choice; this implementation keeps an
//! in-memory entry list where the latest entry for an identifier wins, so a
//! repeated `put` overwrites and never fails.

use vstd::prelude::*;

use crate::elements::Coord;

verus! {

/// The mapping held by an entry list: later entries overwrite earlier ones.
pub open spec fn entries_map(s: Seq<(i64, Coord)>) -> Map<i64, Coord>
    decreases s.len(),
{
    if s.len() == 0 {
        Map::empty()
    } else {
        entries_map(s.drop_last()).insert(s.last().0, s.last().1)
    }
}

/// A suffix free of `id` has no say about `id`'s entry.
proof fn lemma_entries_map_agree(s: Seq<(i64, Coord)>, i: int, id: i64)
    requires
        0 <= i <= s.len(),
        forall|k: int| i <= k < s.len() ==> s[k].0 != id,
    ensures
        entries_map(s).contains_key(id) == entries_map(s.take(i)).contains_key(id),
        entries_map(s).contains_key(id) ==> entries_map(s)[id] == entries_map(s.take(i))[id],
    decreases s.len() - i,
{
    if i < s.len() {
        assert(s.last().0 != id);
        assert(forall|k: int| i <= k < s.drop_last().len() ==> s.drop_last()[k] == s[k]);
        lemma_entries_map_agree(s.drop_last(), i, id);
        assert(s.drop_last().take(i) =~= s.take(i));
    } else {
        assert(s.take(i) =~= s);
    }
}

/// An ephemeral store from point identifier to position.
pub struct PointCache {
    entries: Vec<(i64, Coord)>,
}

impl View for PointCache {
    type V = Map<i64, Coord>;

    closed spec fn view(&self) -> Map<i64, Coord> {
        entries_map(self.entries@)
    }
}

impl PointCache {
    /// An empty cache.
    pub fn new() -> (r: PointCache)
        ensures
            r@ == Map::<i64, Coord>::empty(),
    {
        let entries: Vec<(i64, Coord)> = Vec::new();
        PointCache { entries }
    }

    /// Stores the position of one point.  A repeated identifier overwrites:
    /// the last write wins.
    pub fn put(&mut self, id: i64, coord: Coord)
        ensures
            final(self)@ == old(self)@.insert(id, coord),
    {
        self.entries.push((id, coord));
        proof {
            assert(self.entries@.drop_last() =~= old(self).entries@);
        }
    }

    /// Looks one point up: the latest position stored for it, or nothing.
    pub fn get(&self, id: i64) -> (r: Option<Coord>)
        ensures
            r == if self@.contains_key(id) {
                Some(self@[id])
            } else {
                None::<Coord>
            },
    {
        let n = self.entries.len();
        let mut i: usize = n;
        while i > 0
            invariant
                i <= n,
                n == self.entries.len(),
                forall|k: int| i <= k < n ==> self.entries@[k].0 != id,
            decreases i,
        {
            let e = self.entries[i - 1];
            if e.0 == id {
                proof {
                    lemma_entries_map_agree(self.entries@, i as int, id);
                    let pre = self.entries@.take(i as int);
                    assert(pre.last() == self.entries@[i as int - 1]);
                    assert(entries_map(pre) == entries_map(pre.drop_last()).insert(e.0, e.1));
                }
                return Some(e.1);
            }
            i = i - 1;
        }
        proof {
            lemma_entries_map_agree(self.entries@, 0, id);
            assert(self.entries@.take(0) =~= Seq::<(i64, Coord)>::empty());
            assert(!entries_map(self.entries@.take(0)).contains_key(id));
        }
        None
    }
}

} // verus!
