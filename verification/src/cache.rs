//! The sample cache: an associative store from `(identity, count)` to a
//! previously produced sequence of that length. Once a key is present its
//! sequence is never mutated; a later request for the same key sees the
//! identical stored sequence.

use vstd::prelude::*;

verus! {

/// One stored sequence: `count` values produced for identity `id`.
struct CacheEntry {
    id: u128,
    count: usize,
    values: Vec<i64>,
}

spec fn entry_key(e: CacheEntry) -> (u128, nat) {
    (e.id, e.count as nat)
}

spec fn entries_map(s: Seq<CacheEntry>) -> Map<(u128, nat), Seq<i64>>
    decreases s.len(),
{
    if s.len() == 0 {
        Map::empty()
    } else {
        entries_map(s.drop_last()).insert(entry_key(s.last()), s.last().values@)
    }
}

proof fn lemma_entries_map_at(s: Seq<CacheEntry>, i: int)
    requires
        0 <= i < s.len(),
        forall|a: int, b: int| 0 <= a < b < s.len() ==> entry_key(s[a]) != entry_key(s[b]),
    ensures
        entries_map(s).contains_key(entry_key(s[i])),
        entries_map(s)[entry_key(s[i])] == s[i].values@,
    decreases s.len(),
{
    if i < s.len() - 1 {
        assert forall|a: int, b: int|
            0 <= a < b < s.drop_last().len() implies entry_key(s.drop_last()[a]) != entry_key(
            s.drop_last()[b],
        ) by {
            assert(s.drop_last()[a] == s[a]);
            assert(s.drop_last()[b] == s[b]);
        }
        lemma_entries_map_at(s.drop_last(), i);
        assert(s.drop_last()[i] == s[i]);
        assert(entry_key(s[i]) != entry_key(s[s.len() - 1]));
    }
}

proof fn lemma_entries_map_absent(s: Seq<CacheEntry>, k: (u128, nat))
    requires
        forall|i: int| 0 <= i < s.len() ==> entry_key(s[i]) != k,
    ensures
        !entries_map(s).contains_key(k),
    decreases s.len(),
{
    if s.len() > 0 {
        assert forall|i: int| 0 <= i < s.drop_last().len() implies entry_key(s.drop_last()[i]) != k by {
            assert(s.drop_last()[i] == s[i]);
        }
        lemma_entries_map_absent(s.drop_last(), k);
        assert(entry_key(s[s.len() - 1]) != k);
    }
}

/// The associative store. Its mathematical view is the map from
/// `(identity, count)` keys to the stored sequences.
pub struct SampleCache {
    entries: Vec<CacheEntry>,
}

impl View for SampleCache {
    type V = Map<(u128, nat), Seq<i64>>;

    closed spec fn view(&self) -> Map<(u128, nat), Seq<i64>> {
        entries_map(self.entries@)
    }
}

impl SampleCache {
    /// Validity: one slot per key, and a sequence stored under count `n`
    /// has length `n`.
    pub closed spec fn wf(self) -> bool {
        &&& forall|a: int, b: int|
            0 <= a < b < self.entries@.len() ==> entry_key(self.entries@[a]) != entry_key(
                self.entries@[b],
            )
        &&& forall|i: int|
            0 <= i < self.entries@.len() ==> (#[trigger] self.entries@[i]).values@.len()
                == self.entries@[i].count as nat
    }

    /// An empty cache.
    pub fn new() -> (c: SampleCache)
        ensures
            c.wf(),
            c@ == Map::<(u128, nat), Seq<i64>>::empty(),
    {
        SampleCache { entries: Vec::new() }
    }

    /// A non-inserting probe: the stored sequence for `(id, count)`, if one
    /// is present, and nothing otherwise. Never invokes any producer.
    pub fn get(&self, id: u128, count: usize) -> (r: Option<&Vec<i64>>)
        requires
            self.wf(),
        ensures
            match r {
                Some(v) => self@.contains_key((id, count as nat))
                    && v@ == self@[(id, count as nat)]
                    && v@.len() == count as nat,
                None => !self@.contains_key((id, count as nat)),
            },
    {
        let mut i: usize = 0;
        while i < self.entries.len()
            invariant
                self.wf(),
                i <= self.entries@.len(),
                forall|j: int| 0 <= j < i ==> entry_key(self.entries@[j]) != (id, count as nat),
            decreases self.entries@.len() - i,
        {
            if self.entries[i].id == id && self.entries[i].count == count {
                proof {
                    lemma_entries_map_at(self.entries@, i as int);
                }
                return Some(&self.entries[i].values);
            }
            i = i + 1;
        }
        proof {
            lemma_entries_map_absent(self.entries@, (id, count as nat));
        }
        None
    }

    /// Insert a sequence under an absent key.
    fn insert(&mut self, id: u128, count: usize, values: Vec<i64>)
        requires
            old(self).wf(),
            !old(self)@.contains_key((id, count as nat)),
            values@.len() == count as nat,
        ensures
            final(self).wf(),
            final(self)@ == old(self)@.insert((id, count as nat), values@),
    {
        proof {
            assert forall|i: int|
                0 <= i < self.entries@.len() implies entry_key(self.entries@[i]) != (
            id,
            count as nat,
            ) by {
                if entry_key(self.entries@[i]) == (id, count as nat) {
                    lemma_entries_map_at(self.entries@, i);
                }
            }
        }
        let ghost pre = self.entries@;
        let ghost vals = values@;
        self.entries.push(CacheEntry { id, count, values });
        proof {
            assert(self.entries@.drop_last() =~= pre);
            assert(entries_map(self.entries@) == entries_map(pre).insert(
                (id, count as nat),
                vals,
            ));
        }
    }

    /// `get_or_compute`: the stored sequence for `(id, count)` when the key
    /// is present — the handed-in `values` are then discarded untouched —
    /// and otherwise `values`, which is stored under the key first. At most
    /// one sequence is ever stored per key.
    pub fn get_or_compute(&mut self, id: u128, count: usize, values: Vec<i64>) -> (r: Vec<i64>)
        requires
            old(self).wf(),
            values@.len() == count as nat,
        ensures
            final(self).wf(),
            old(self)@.contains_key((id, count as nat)) ==> final(self)@ == old(self)@ && r@ == old(
                self,
            )@[(id, count as nat)],
            !old(self)@.contains_key((id, count as nat)) ==> final(self)@ == old(self)@.insert(
                (id, count as nat),
                values@,
            ) && r@ == values@,
            final(self)@.contains_key((id, count as nat)),
            final(self)@[(id, count as nat)] == r@,
            r@.len() == count as nat,
    {
        if let Some(v) = self.get(id, count) {
            return copy_values(v);
        }
        let r = copy_values(&values);
        self.insert(id, count, values);
        r
    }
}

/// An element-for-element copy of a sequence of values.
pub(crate) fn copy_values(v: &Vec<i64>) -> (r: Vec<i64>)
    ensures
        r@ == v@,
{
    let mut r: Vec<i64> = Vec::new();
    let mut i: usize = 0;
    while i < v.len()
        invariant
            i <= v@.len(),
            r@ == v@.subrange(0, i as int),
        decreases v@.len() - i,
    {
        r.push(v[i]);
        proof {
            assert(v@.subrange(0, i as int).push(v@[i as int]) =~= v@.subrange(0, i as int + 1));
        }
        i = i + 1;
    }
    proof {
        assert(v@.subrange(0, v@.len() as int) =~= v@);
    }
    r
}

} // verus!
