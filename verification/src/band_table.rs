//! The table of one band: buckets of keys, one bucket for each band key that
//! is in use. The buckets are found by a digest of their band key; those
//! whose band keys have the same digest stand in a row.

use crate::chain::Chain;
use std::collections::{HashMap, HashSet};
use std::hash::Hash;
use vstd::prelude::*;
use vstd::std_specs::hash::{obeys_key_model, spec_hash_map_iter};
use vstd::std_specs::iter::IteratorSpec;

verus! {

/// What the tables ask of a key type: its hash and its `==` are those of a
/// hash table key, and a clone of a key is that key.
pub open spec fn key_laws<K: Clone>() -> bool {
    &&& obeys_key_model::<K>()
    &&& forall|a: K, b: K| #[trigger] cloned(a, b) ==> a == b
}

/// Keys that are 64-bit integers obey the key laws.
pub proof fn lemma_u64_keys()
    ensures
        key_laws::<u64>(),
{
}

/// One band of a signature: the values of `r` consecutive slots.
#[derive(Clone, Debug, Hash, PartialEq, Eq)]
pub struct HashValuePart(pub Vec<u64>);

impl View for HashValuePart {
    type V = Seq<u64>;

    open spec fn view(&self) -> Seq<u64> {
        self.0@
    }
}

/// The table `table` after `key` was filed under the band key `h`: its
/// bucket gains the key, and is made first where there was none.
pub open spec fn table_with<K>(table: Map<Seq<u64>, Set<K>>, h: Seq<u64>, key: K) -> Map<
    Seq<u64>,
    Set<K>,
> {
    if table.dom().contains(h) {
        table.insert(h, table[h].insert(key))
    } else {
        table.insert(h, Set::<K>::empty().insert(key))
    }
}

/// The table `table` after `key` was taken out from under the band key `h`:
/// its bucket loses the key, and goes where that leaves it empty.
pub open spec fn table_without<K>(table: Map<Seq<u64>, Set<K>>, h: Seq<u64>, key: K) -> Map<
    Seq<u64>,
    Set<K>,
> {
    if !table.dom().contains(h) {
        table
    } else if table[h].remove(key) == Set::<K>::empty() {
        table.remove(h)
    } else {
        table.insert(h, table[h].remove(key))
    }
}

/// Whether `counts` lists each bucket of `table` once, with its size.
pub open spec fn counts_of<K>(
    counts: Seq<(HashValuePart, usize)>,
    table: Map<Seq<u64>, Set<K>>,
) -> bool {
    &&& forall|i: int|
        0 <= i < counts.len() ==> table.dom().contains((#[trigger] counts[i]).0@) && counts[i].1
            == table[counts[i].0@].len()
    &&& forall|i: int, j: int|
        0 <= i < j < counts.len() ==> (#[trigger] counts[i]).0@ != (#[trigger] counts[j]).0@
    &&& forall|h: Seq<u64>|
        table.dom().contains(h) ==> exists|i: int|
            0 <= i < counts.len() && (#[trigger] counts[i]).0@ == h
}

/// Copies the slots `start..end` of a signature.
pub(crate) fn copy_range(values: &Vec<u64>, start: usize, end: usize) -> (part: Vec<u64>)
    requires
        start <= end <= values@.len(),
    ensures
        part@ == values@.subrange(start as int, end as int),
{
    let mut part: Vec<u64> = Vec::new();
    let mut i: usize = start;
    while i < end
        invariant
            start <= i <= end <= values@.len(),
            part@ == values@.subrange(start as int, i as int),
        decreases end - i,
    {
        part.push(values[i]);
        assert(values@.subrange(start as int, i as int).push(values@[i as int])
            =~= values@.subrange(start as int, i + 1));
        i = i + 1;
    }
    part
}

/// Whether two band keys hold the same values.
pub(crate) fn same_values(left: &Vec<u64>, right: &Vec<u64>) -> (same: bool)
    ensures
        same == (left@ == right@),
{
    if left.len() != right.len() {
        return false;
    }
    let mut i: usize = 0;
    while i < left.len()
        invariant
            left@.len() == right@.len(),
            i <= left@.len(),
            forall|j: int| 0 <= j < i ==> left@[j] == right@[j],
        decreases left@.len() - i,
    {
        if left[i] != right[i] {
            return false;
        }
        i = i + 1;
    }
    assert(left@ =~= right@);
    true
}

/// The digest of a band key: its values taken as the digits of a number,
/// reduced by a prime.
pub open spec fn digest_of(values: Seq<u64>) -> u64
    decreases values.len(),
{
    if values.len() == 0 {
        0
    } else {
        ((digest_of(values.drop_last()) * 1099511628211 + values.last()) % 18446744073709551557) as u64
    }
}

/// Computes the digest of a band key.
fn digest(values: &Vec<u64>) -> (d: u64)
    ensures
        d == digest_of(values@),
{
    let mut d: u64 = 0;
    let mut i: usize = 0;
    while i < values.len()
        invariant
            i <= values@.len(),
            d == digest_of(values@.take(i as int)),
        decreases values@.len() - i,
    {
        proof {
            assert(values@.take(i + 1).drop_last() =~= values@.take(i as int));
        }
        let wide: u128 = (d as u128) * 1099511628211u128 + (values[i] as u128);
        d = (wide % 18446744073709551557u128) as u64;
        i = i + 1;
    }
    assert(values@.take(i as int) =~= values@);
    d
}

/// The buckets of one band. As a map it takes each band key in use to the
/// set of keys filed under it.
pub struct BandTable<K> {
    chains: HashMap<u64, Chain<K>>,
}

impl<K: Eq + Hash + Clone> Clone for BandTable<K> {
    fn clone(&self) -> (copy: Self) {
        BandTable { chains: self.chains.clone() }
    }
}

impl<K> BandTable<K> {
    /// Whether the row under the digest `d` is in order: well-formed, not
    /// empty, and of band keys with that digest only.
    pub closed spec fn row_wf(&self, d: u64) -> bool {
        &&& self.chains@[d].wf()
        &&& self.chains@[d]@ != Map::<Seq<u64>, Set<K>>::empty()
        &&& forall|h: Seq<u64>| #[trigger] self.chains@[d]@.dom().contains(h) ==> digest_of(h) == d
    }

    /// Every row is in order.
    pub closed spec fn wf(&self) -> bool {
        forall|d: u64| self.chains@.contains_key(d) ==> #[trigger] self.row_wf(d)
    }
}

impl<K> View for BandTable<K> {
    type V = Map<Seq<u64>, Set<K>>;

    closed spec fn view(&self) -> Map<Seq<u64>, Set<K>> {
        Map::new(
            |h: Seq<u64>|
                self.chains@.contains_key(digest_of(h)) && self.chains@[digest_of(h)]@.dom().contains(h),
            |h: Seq<u64>| self.chains@[digest_of(h)]@[h],
        )
    }
}

impl<K: Eq + Hash + Clone> BandTable<K> {
    /// A table without buckets.
    pub fn new() -> (table: BandTable<K>)
        ensures
            table.wf(),
            table@ == Map::<Seq<u64>, Set<K>>::empty(),
    {
        let table = BandTable { chains: HashMap::new() };
        assert(table@ =~= Map::<Seq<u64>, Set<K>>::empty());
        table
    }

    /// The number of rows.
    pub fn len(&self) -> (count: usize)
        requires
            self.wf(),
        ensures
            (count == 0) == (self@ == Map::<Seq<u64>, Set<K>>::empty()),
    {
        let count = self.chains.len();
        proof {
            let nothing = Map::<Seq<u64>, Set<K>>::empty();
            if self.chains@.dom().len() == 0 {
                self.chains@.dom().lemma_len0_is_empty();
                assert(self@ =~= nothing);
            } else {
                let d = self.chains@.dom().choose();
                assert(self.chains@.contains_key(d));
                assert(self.row_wf(d));
                let row = self.chains@[d]@;
                if row.dom() =~= Set::<Seq<u64>>::empty() {
                    assert(row =~= nothing);
                }
                let h = choose|h: Seq<u64>| row.dom().contains(h);
                assert(row.dom().contains(h));
                assert(self@.dom().contains(h));
                assert(!nothing.dom().contains(h));
            }
        }
        count
    }

    /// The keys filed under a band key, if there are any.
    pub fn get(&self, band_key: &Vec<u64>) -> (found: Option<&HashSet<K>>)
        requires
            self.wf(),
        ensures
            match found {
                Some(members) => self@.dom().contains(band_key@) && members@ == self@[band_key@],
                None => !self@.dom().contains(band_key@),
            },
    {
        let d = digest(band_key);
        match self.chains.get(&d) {
            Some(row) => {
                assert(self.row_wf(d));
                row.get(band_key)
            },
            None => None,
        }
    }

    /// Files `key` under `band_key`.
    pub fn insert(&mut self, band_key: HashValuePart, key: K)
        requires
            old(self).wf(),
            key_laws::<K>(),
        ensures
            final(self).wf(),
            final(self)@ == table_with(old(self)@, band_key@, key),
    {
        let ghost h = band_key@;
        let ghost goal = table_with(old(self)@, h, key);
        let d = digest(&band_key.0);
        let mut row = match self.chains.remove(&d) {
            Some(row) => {
                assert(old(self).row_wf(d));
                row
            },
            None => Chain::new(),
        };
        let ghost before = row@;
        row.insert(band_key, key);
        let ghost after = row@;
        self.chains.insert(d, row);
        proof {
            assert(after == table_with(before, h, key));
            assert(after.dom().contains(h));
            assert(after != Map::<Seq<u64>, Set<K>>::empty());
            assert forall|d2: u64| self.chains@.contains_key(d2) implies #[trigger] self.row_wf(d2) by {
                if d2 != d {
                    assert(old(self).row_wf(d2));
                }
            }
            assert forall|h2: Seq<u64>| #[trigger]
                self@.dom().contains(h2) == goal.dom().contains(h2) by {
                if digest_of(h2) != d && old(self).chains@.contains_key(digest_of(h2)) {
                    assert(old(self).row_wf(digest_of(h2)));
                }
            }
            assert(self@.dom() =~= goal.dom());
            assert forall|h2: Seq<u64>| #[trigger] self@.dom().contains(h2) implies self@[h2]
                == goal[h2] by {}
            assert(self@ =~= goal);
        }
    }

    /// Takes `key` out from under `band_key`, and the bucket with it where
    /// it held no other key. Where the key is not filed there, nothing changes.
    pub fn remove(&mut self, band_key: &Vec<u64>, key: &K)
        requires
            old(self).wf(),
            key_laws::<K>(),
        ensures
            final(self).wf(),
            final(self)@ == table_without(old(self)@, band_key@, *key),
    {
        let ghost h = band_key@;
        let ghost goal = table_without(old(self)@, h, *key);
        let d = digest(band_key);
        match self.chains.remove(&d) {
            None => {
                proof {
                    assert forall|d2: u64| self.chains@.contains_key(d2) implies #[trigger] self.row_wf(
                        d2,
                    ) by {
                        assert(old(self).row_wf(d2));
                    }
                    assert(self@ =~= goal);
                }
            },
            Some(row) => {
                let mut row = row;
                assert(old(self).row_wf(d));
                let ghost before = row@;
                row.remove(band_key, key);
                let ghost after = row@;
                if row.len() != 0 {
                    self.chains.insert(d, row);
                }
                proof {
                    assert(after == table_without(before, h, *key));
                    assert forall|d2: u64| self.chains@.contains_key(d2) implies #[trigger] self.row_wf(
                        d2,
                    ) by {
                        if d2 != d {
                            assert(old(self).row_wf(d2));
                        }
                    }
                    assert(digest_of(h) == d);
                    assert(old(self).chains@[d]@ == before);
                    assert(old(self)@.dom().contains(h) == before.dom().contains(h));
                    if before.dom().contains(h) {
                        assert(old(self)@[h] == before[h]);
                    }
                    assert forall|h2: Seq<u64>| #[trigger]
                        self@.dom().contains(h2) == goal.dom().contains(h2) by {
                        if digest_of(h2) == d {
                            assert(old(self)@.dom().contains(h2) == before.dom().contains(h2));
                            if after == Map::<Seq<u64>, Set<K>>::empty() {
                                assert(!after.dom().contains(h2));
                                assert(!self.chains@.contains_key(d));
                            } else {
                                assert(self.chains@[d]@ == after);
                            }
                        } else {
                            assert(h2 != h);
                            assert(self.chains@.contains_key(digest_of(h2)) == old(
                                self,
                            ).chains@.contains_key(digest_of(h2)));
                        }
                    }
                    assert(self@.dom() =~= goal.dom());
                    assert forall|h2: Seq<u64>| #[trigger] self@.dom().contains(h2) implies self@[h2]
                        == goal[h2] by {
                        if digest_of(h2) == d {
                            assert(self.chains@[d]@ == after);
                            assert(before.dom().contains(h2));
                            assert(old(self)@[h2] == before[h2]);
                        } else {
                            assert(h2 != h);
                        }
                    }
                    assert(self@ =~= goal);
                }
            },
        }
    }

    /// The buckets with their sizes: one entry for each band key in use.
    pub fn counts(&self) -> (counts: Vec<(HashValuePart, usize)>)
        requires
            self.wf(),
            key_laws::<K>(),
        ensures
            counts_of(counts@, self@),
    {
        let mut counts: Vec<(HashValuePart, usize)> = Vec::new();
        let ghost mut owner: Seq<int> = Seq::empty();
        let ghost rows = spec_hash_map_iter(&self.chains).remaining();
        let ghost mut done: int = 0;
        for (d, row) in it: self.chains.iter()
            invariant
                self.wf(),
                key_laws::<K>(),
                it.seq() == rows,
                done == it.index(),
                rows.no_duplicates(),
                forall|j: int|
                    0 <= j < rows.len() ==> self.chains@.contains_key(*(#[trigger] rows[j]).0)
                        && self.chains@[*rows[j].0] == *rows[j].1,
                forall|d2: u64|
                    #[trigger] self.chains@.contains_key(d2) ==> rows.contains(
                        (&d2, &self.chains@[d2]),
                    ),
                owner.len() == counts@.len(),
                forall|e: int|
                    0 <= e < counts@.len() ==> 0 <= #[trigger] owner[e] < done && rows[owner[e]].1@.dom().contains(
                        counts@[e].0@,
                    ) && counts@[e].1 == rows[owner[e]].1@[counts@[e].0@].len(),
                forall|e: int, f: int|
                    0 <= e < f < counts@.len() ==> (#[trigger] counts@[e]).0@ != (
                    #[trigger] counts@[f]).0@,
                forall|j: int, h: Seq<u64>|
                    0 <= j < done && #[trigger] rows[j].1@.dom().contains(h) ==> exists|e: int|
                        0 <= e < counts@.len() && (#[trigger] counts@[e]).0@ == h,
        {
            let ghost n = done;
            let ghost earlier = counts@;
            assert(rows[n] == (d, row));
            assert(self.row_wf(*d));
            let mut row_counts = row.counts();
            let ghost added = row_counts@;
            counts.append(&mut row_counts);
            proof {
                owner = owner + Seq::new(added.len(), |e: int| n);
                done = done + 1;
                assert(counts@ =~= earlier + added);
                assert forall|e: int, f: int| 0 <= e < f < counts@.len() implies (
                #[trigger] counts@[e]).0@ != (#[trigger] counts@[f]).0@ by {
                    if e < earlier.len() && f >= earlier.len() {
                        let j = owner[e];
                        let he = counts@[e].0@;
                        let hf = counts@[f].0@;
                        assert(added[f - earlier.len()] == counts@[f]);
                        assert(self.row_wf(*rows[j].0));
                        assert(digest_of(he) == *rows[j].0);
                        assert(digest_of(hf) == *d);
                        if he == hf {
                            assert(rows[j] == rows[n]);
                        }
                    } else if e >= earlier.len() {
                        assert(added[e - earlier.len()] == counts@[e]);
                        assert(added[f - earlier.len()] == counts@[f]);
                    }
                }
                assert forall|j: int, h: Seq<u64>|
                    0 <= j < n + 1 && #[trigger] rows[j].1@.dom().contains(h) implies exists|e: int|
                    0 <= e < counts@.len() && (#[trigger] counts@[e]).0@ == h by {
                    if j == n {
                        let e0 = choose|e: int| 0 <= e < added.len() && (#[trigger] added[e]).0@ == h;
                        assert(counts@[earlier.len() + e0] == added[e0]);
                    } else {
                        let e0 = choose|e: int| 0 <= e < earlier.len() && (#[trigger] earlier[e]).0@ == h;
                        assert(counts@[e0] == earlier[e0]);
                    }
                }
                assert forall|e: int| 0 <= e < counts@.len() implies 0 <= #[trigger] owner[e] < n + 1
                    && rows[owner[e]].1@.dom().contains(counts@[e].0@) && counts@[e].1
                    == rows[owner[e]].1@[counts@[e].0@].len() by {
                    if e >= earlier.len() {
                        assert(added[e - earlier.len()] == counts@[e]);
                    }
                }
            }
        }
        proof {
            assert(done == rows.len());
            assert forall|e: int| 0 <= e < counts@.len() implies self@.dom().contains(
                (#[trigger] counts@[e]).0@,
            ) && counts@[e].1 == self@[counts@[e].0@].len() by {
                let j = owner[e];
                assert(self.row_wf(*rows[j].0));
            }
            assert forall|h: Seq<u64>| self@.dom().contains(h) implies exists|e: int|
                0 <= e < counts@.len() && (#[trigger] counts@[e]).0@ == h by {
                let d2 = digest_of(h);
                assert(rows.contains((&d2, &self.chains@[d2])));
                let j = choose|j: int| 0 <= j < rows.len() && rows[j] == (&d2, &self.chains@[d2]);
                assert(rows[j].1@.dom().contains(h));
            }
        }
        counts
    }
}

} // verus!
