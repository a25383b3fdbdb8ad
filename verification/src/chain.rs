//! A row of buckets, searched one after the other: the buckets of the band
//! keys that share a digest.

use crate::band_table::{
    copy_range, counts_of, key_laws, same_values, table_with, table_without, HashValuePart,
};
use std::collections::HashSet;
use std::hash::Hash;
use vstd::prelude::*;

verus! {

/// The keys filed under one band key.
pub struct Bucket<K> {
    band_key: HashValuePart,
    members: HashSet<K>,
}

/// Copies a set of keys with `HashSet::clone` of the standard library.
/// Nothing is claimed of the copy.
#[verifier::external_body]
fn copy_members<K: Eq + Hash + Clone>(members: &HashSet<K>) -> (copy: HashSet<K>) {
    members.clone()
}

impl<K: Eq + Hash + Clone> Clone for Bucket<K> {
    fn clone(&self) -> (copy: Self) {
        Bucket { band_key: self.band_key.clone(), members: copy_members(&self.members) }
    }
}

/// Buckets in a row, searched one after the other. As a map it takes each
/// band key in use to the set of keys filed under it.
pub struct Chain<K> {
    buckets: Vec<Bucket<K>>,
}

impl<K: Eq + Hash + Clone> Clone for Chain<K> {
    fn clone(&self) -> (copy: Self) {
        Chain { buckets: self.buckets.clone() }
    }
}

impl<K> Chain<K> {
    /// Whether bucket `i` is the one of the band key `h`.
    pub closed spec fn holds_at(&self, i: int, h: Seq<u64>) -> bool {
        0 <= i < self.buckets@.len() && self.buckets@[i].band_key@ == h
    }

    /// The keys filed under the band key `h`.
    pub closed spec fn members_of(&self, h: Seq<u64>) -> Set<K> {
        Set::new(
            |k: K| exists|i: int| #[trigger] self.holds_at(i, h) && self.buckets@[i].members@.contains(k),
        )
    }

    /// No bucket is empty, and no two buckets have the same band key.
    pub closed spec fn wf(&self) -> bool {
        &&& forall|i: int|
            0 <= i < self.buckets@.len() ==> (#[trigger] self.buckets@[i]).members@.finite()
                && self.buckets@[i].members@.len() > 0
        &&& forall|i: int, j: int|
            0 <= i < j < self.buckets@.len() ==> (#[trigger] self.buckets@[i]).band_key@ != (
            #[trigger] self.buckets@[j]).band_key@
    }

    /// What bucket `i` contributes to the view.
    proof fn lemma_bucket(&self, i: int)
        requires
            self.wf(),
            0 <= i < self.buckets@.len(),
        ensures
            self@.dom().contains(self.buckets@[i].band_key@),
            self@[self.buckets@[i].band_key@] == self.buckets@[i].members@,
            self@[self.buckets@[i].band_key@].finite(),
            self@[self.buckets@[i].band_key@].len() > 0,
    {
        let h = self.buckets@[i].band_key@;
        assert(self.holds_at(i, h));
        assert forall|k: K| self.members_of(h).contains(k) <==> self.buckets@[i].members@.contains(k) by {
            if self.members_of(h).contains(k) {
                let j = choose|j: int| #[trigger] self.holds_at(j, h) && self.buckets@[j].members@.contains(k);
                assert(j == i);
            }
        }
        assert(self.members_of(h) =~= self.buckets@[i].members@);
    }
}

impl<K> View for Chain<K> {
    type V = Map<Seq<u64>, Set<K>>;

    closed spec fn view(&self) -> Map<Seq<u64>, Set<K>> {
        Map::new(|h: Seq<u64>| exists|i: int| #[trigger] self.holds_at(i, h), |h: Seq<u64>| self.members_of(h))
    }
}

impl<K: Eq + Hash + Clone> Chain<K> {
    /// A table without buckets.
    pub fn new() -> (table: Chain<K>)
        ensures
            table.wf(),
            table@ == Map::<Seq<u64>, Set<K>>::empty(),
    {
        let table = Chain { buckets: Vec::new() };
        assert(table@ =~= Map::<Seq<u64>, Set<K>>::empty());
        table
    }

    /// The number of buckets.
    pub fn len(&self) -> (count: usize)
        requires
            self.wf(),
        ensures
            (count == 0) == (self@ == Map::<Seq<u64>, Set<K>>::empty()),
    {
        proof {
            if self.buckets@.len() > 0 {
                self.lemma_bucket(0);
                assert(!Map::<Seq<u64>, Set<K>>::empty().dom().contains(self.buckets@[0].band_key@));
            } else {
                assert(self@ =~= Map::<Seq<u64>, Set<K>>::empty());
            }
        }
        self.buckets.len()
    }

    /// Where the bucket of a band key stands, if there is one.
    fn find(&self, band_key: &Vec<u64>) -> (found: Option<usize>)
        ensures
            match found {
                Some(i) => self.holds_at(i as int, band_key@),
                None => !self@.dom().contains(band_key@),
            },
    {
        let mut i: usize = 0;
        while i < self.buckets.len()
            invariant
                i <= self.buckets@.len(),
                forall|l: int| 0 <= l < i ==> !self.holds_at(l, band_key@),
            decreases self.buckets@.len() - i,
        {
            if same_values(&self.buckets[i].band_key.0, band_key) {
                return Some(i);
            }
            i = i + 1;
        }
        None
    }

    /// The keys filed under a band key, if there are any.
    pub fn get(&self, band_key: &Vec<u64>) -> (found: Option<&HashSet<K>>)
        requires
            self.wf(),
        ensures
            match found {
                Some(members) => self@.dom().contains(band_key@) && members@ == self@[band_key@],
                None => !self@.dom().contains(band_key@),
            },
    {
        match self.find(band_key) {
            Some(i) => {
                proof {
                    self.lemma_bucket(i as int);
                }
                Some(&self.buckets[i].members)
            },
            None => None,
        }
    }

    /// Files `key` under `band_key`.
    pub fn insert(&mut self, band_key: HashValuePart, key: K)
        requires
            old(self).wf(),
            key_laws::<K>(),
        ensures
            final(self).wf(),
            final(self)@ == table_with(old(self)@, band_key@, key),
    {
        let ghost h = band_key@;
        match self.find(&band_key.0) {
            Some(i) => {
                proof {
                    old(self).lemma_bucket(i as int);
                }
                self.buckets[i].members.insert(key);
                proof {
                    assert(self.buckets@[i as int].band_key@ == h);
                    assert(self.buckets@[i as int].members@ == old(self)@[h].insert(key));
                    assert forall|l: int| 0 <= l < self.buckets@.len() implies (
                    #[trigger] self.buckets@[l]).band_key@ == old(self).buckets@[l].band_key@ by {}
                    assert(self.wf()) by {
                        assert forall|l: int| 0 <= l < self.buckets@.len() implies (
                        #[trigger] self.buckets@[l]).members@.finite() && self.buckets@[l].members@.len()
                            > 0 by {
                            if l != i {
                                assert(self.buckets@[l] == old(self).buckets@[l]);
                            }
                        }
                    }
                    self.lemma_bucket(i as int);
                    Self::lemma_changed_bucket(*old(self), *self, i as int);
                    assert(self@ =~= table_with(old(self)@, h, key));
                }
            },
            None => {
                let mut members: HashSet<K> = HashSet::new();
                members.insert(key);
                self.buckets.push(Bucket { band_key, members });
                proof {
                    let n = old(self).buckets@.len() as int;
                    assert(self.buckets@[n].members@ == Set::<K>::empty().insert(key));
                    assert forall|l: int| 0 <= l < n implies old(self).buckets@[l].band_key@ != h by {
                        if old(self).buckets@[l].band_key@ == h {
                            assert(old(self).holds_at(l, h));
                        }
                    }
                    assert(self.wf()) by {
                        assert forall|l: int| 0 <= l < self.buckets@.len() implies (
                        #[trigger] self.buckets@[l]).members@.finite() && self.buckets@[l].members@.len()
                            > 0 by {
                            if l < n {
                                assert(self.buckets@[l] == old(self).buckets@[l]);
                            }
                        }
                    }
                    self.lemma_bucket(n);
                    assert(self.buckets@[n].band_key@ == h);
                    assert(self@[h] == Set::<K>::empty().insert(key));
                    let goal = table_with(old(self)@, h, key);
                    assert forall|h2: Seq<u64>| #[trigger]
                        self@.dom().contains(h2) == goal.dom().contains(h2) by {
                        if h2 != h {
                            Self::lemma_other_buckets_pushed(*old(self), *self, h2);
                        }
                    }
                    assert(self@.dom() =~= goal.dom());
                    assert forall|h2: Seq<u64>| #[trigger] self@.dom().contains(h2) implies self@[h2]
                        == goal[h2] by {
                        if h2 != h {
                            Self::lemma_other_buckets_pushed(*old(self), *self, h2);
                        }
                    }
                    assert(self@ =~= goal);
                }
            },
        }
    }

    /// Takes `key` out from under `band_key`, and the bucket with it where
    /// it held no other key. Where the key is not filed there, nothing changes.
    pub fn remove(&mut self, band_key: &Vec<u64>, key: &K)
        requires
            old(self).wf(),
            key_laws::<K>(),
        ensures
            final(self).wf(),
            final(self)@ == table_without(old(self)@, band_key@, *key),
    {
        let ghost h = band_key@;
        match self.find(band_key) {
            None => {},
            Some(i) => {
                proof {
                    old(self).lemma_bucket(i as int);
                }
                self.buckets[i].members.remove(key);
                let ghost rest = self.buckets@[i as int].members@;
                proof {
                    assert(rest == old(self)@[h].remove(*key));
                    assert(rest.finite());
                    assert(Set::<K>::empty().len() == 0);
                }
                if self.buckets[i].members.len() == 0 {
                    self.buckets.remove(i);
                    proof {
                        rest.lemma_len0_is_empty();
                        assert(self.buckets@ =~= old(self).buckets@.remove(i as int));
                        Self::lemma_bucket_dropped(*old(self), *self, i as int);
                    }
                } else {
                    proof {
                        assert forall|l: int| 0 <= l < self.buckets@.len() implies (
                        #[trigger] self.buckets@[l]).band_key@ == old(self).buckets@[l].band_key@ by {}
                        assert(self.wf()) by {
                            assert forall|l: int| 0 <= l < self.buckets@.len() implies (
                            #[trigger] self.buckets@[l]).members@.finite()
                                && self.buckets@[l].members@.len() > 0 by {
                                if l != i {
                                    assert(self.buckets@[l] == old(self).buckets@[l]);
                                }
                            }
                        }
                        self.lemma_bucket(i as int);
                        Self::lemma_changed_bucket(*old(self), *self, i as int);
                        assert(self@ =~= table_without(old(self)@, h, *key));
                    }
                }
            },
        }
    }

    /// The buckets with their sizes: one entry for each band key in use.
    pub fn counts(&self) -> (counts: Vec<(HashValuePart, usize)>)
        requires
            self.wf(),
            key_laws::<K>(),
        ensures
            counts_of(counts@, self@),
    {
        let mut counts: Vec<(HashValuePart, usize)> = Vec::new();
        let mut i: usize = 0;
        while i < self.buckets.len()
            invariant
                i <= self.buckets@.len(),
                key_laws::<K>(),
                counts@.len() == i,
                forall|l: int|
                    0 <= l < i ==> (#[trigger] counts@[l]).0@ == self.buckets@[l].band_key@
                        && counts@[l].1 == self.buckets@[l].members@.len(),
            decreases self.buckets@.len() - i,
        {
            let bucket = &self.buckets[i];
            let band_key = copy_range(&bucket.band_key.0, 0, bucket.band_key.0.len());
            assert(band_key@ =~= bucket.band_key@);
            counts.push((HashValuePart(band_key), bucket.members.len()));
            i = i + 1;
        }
        proof {
            assert forall|l: int| 0 <= l < counts@.len() implies self@.dom().contains(
                (#[trigger] counts@[l]).0@,
            ) && counts@[l].1 == self@[counts@[l].0@].len() by {
                self.lemma_bucket(l);
            }
            assert forall|h: Seq<u64>| self@.dom().contains(h) implies exists|l: int|
                0 <= l < counts@.len() && (#[trigger] counts@[l]).0@ == h by {
                let l = choose|l: int| #[trigger] self.holds_at(l, h);
                assert(counts@[l].0@ == h);
            }
        }
        counts
    }

    /// Where a bucket was dropped, its band key is gone and the others see
    /// what they saw before.
    proof fn lemma_bucket_dropped(before: Self, after: Self, i: int)
        requires
            before.wf(),
            0 <= i < before.buckets@.len(),
            after.buckets@ == before.buckets@.remove(i),
        ensures
            after.wf(),
            after@ == before@.remove(before.buckets@[i].band_key@),
    {
        let h = before.buckets@[i].band_key@;
        let goal = before@.remove(h);
        assert forall|l: int| 0 <= l < after.buckets@.len() implies #[trigger] after.buckets@[l]
            == before.buckets@[if l < i { l } else { l + 1 }] by {}
        assert(after.wf()) by {
            assert forall|x: int, y: int| 0 <= x < y < after.buckets@.len() implies (
            #[trigger] after.buckets@[x]).band_key@ != (#[trigger] after.buckets@[y]).band_key@ by {
                let x0 = if x < i { x } else { x + 1 };
                let y0 = if y < i { y } else { y + 1 };
                assert(after.buckets@[x] == before.buckets@[x0]);
                assert(after.buckets@[y] == before.buckets@[y0]);
            }
        }
        assert forall|h2: Seq<u64>| #[trigger] after@.dom().contains(h2) == goal.dom().contains(h2) by {
            if after@.dom().contains(h2) {
                let l = choose|l: int| #[trigger] after.holds_at(l, h2);
                let l0 = if l < i { l } else { l + 1 };
                assert(after.buckets@[l] == before.buckets@[l0]);
                assert(before.holds_at(l0, h2));
                assert(before.holds_at(i, h));
            }
            if goal.dom().contains(h2) {
                let l0 = choose|l: int| #[trigger] before.holds_at(l, h2);
                let l = if l0 < i { l0 } else { l0 - 1 };
                assert(after.buckets@[l] == before.buckets@[l0]);
                assert(after.holds_at(l, h2));
            }
        }
        assert(after@.dom() =~= goal.dom());
        assert forall|h2: Seq<u64>| #[trigger] after@.dom().contains(h2) implies after@[h2]
            == goal[h2] by {
            assert forall|k: K| after.members_of(h2).contains(k) <==> before.members_of(h2).contains(
                k,
            ) by {
                if after.members_of(h2).contains(k) {
                    let l = choose|l: int| #[trigger]
                        after.holds_at(l, h2) && after.buckets@[l].members@.contains(k);
                    let l0 = if l < i { l } else { l + 1 };
                    assert(after.buckets@[l] == before.buckets@[l0]);
                    assert(before.holds_at(l0, h2));
                }
                if before.members_of(h2).contains(k) {
                    let l0 = choose|l: int| #[trigger]
                        before.holds_at(l, h2) && before.buckets@[l].members@.contains(k);
                    let l = if l0 < i { l0 } else { l0 - 1 };
                    assert(after.buckets@[l] == before.buckets@[l0]);
                    assert(after.holds_at(l, h2));
                }
            }
            assert(after.members_of(h2) =~= before.members_of(h2));
        }
        assert(after@ =~= goal);
    }

    /// Where one bucket changed its members and nothing else changed, the
    /// other band keys see what they saw before.
    proof fn lemma_changed_bucket(before: Self, after: Self, i: int)
        requires
            0 <= i < before.buckets@.len(),
            after.buckets@.len() == before.buckets@.len(),
            forall|l: int|
                0 <= l < before.buckets@.len() ==> (#[trigger] after.buckets@[l]).band_key@
                    == before.buckets@[l].band_key@,
            forall|l: int|
                0 <= l < before.buckets@.len() && l != i ==> (#[trigger] after.buckets@[l]).members@
                    == before.buckets@[l].members@,
        ensures
            forall|h: Seq<u64>| after@.dom().contains(h) == before@.dom().contains(h),
            forall|h: Seq<u64>|
                h != before.buckets@[i].band_key@ && before@.dom().contains(h)
                    ==> #[trigger] after@[h] == before@[h],
    {
        assert forall|h: Seq<u64>| after@.dom().contains(h) == before@.dom().contains(h) by {
            if after@.dom().contains(h) {
                let l = choose|l: int| #[trigger] after.holds_at(l, h);
                assert(before.holds_at(l, h));
            }
            if before@.dom().contains(h) {
                let l = choose|l: int| #[trigger] before.holds_at(l, h);
                assert(after.holds_at(l, h));
            }
        }
        assert forall|h: Seq<u64>|
            h != before.buckets@[i].band_key@ && before@.dom().contains(h) implies #[trigger] after@[h]
            == before@[h] by {
            assert forall|k: K| after.members_of(h).contains(k) <==> before.members_of(h).contains(
                k,
            ) by {
                if after.members_of(h).contains(k) {
                    let l = choose|l: int| #[trigger]
                        after.holds_at(l, h) && after.buckets@[l].members@.contains(k);
                    assert(before.holds_at(l, h));
                }
                if before.members_of(h).contains(k) {
                    let l = choose|l: int| #[trigger]
                        before.holds_at(l, h) && before.buckets@[l].members@.contains(k);
                    assert(after.holds_at(l, h));
                }
            }
            assert(after.members_of(h) =~= before.members_of(h));
        }
    }

    /// Where a bucket was added at the end, the other band keys see what
    /// they saw before.
    proof fn lemma_other_buckets_pushed(before: Self, after: Self, h: Seq<u64>)
        requires
            after.buckets@.len() == before.buckets@.len() + 1,
            forall|l: int|
                0 <= l < before.buckets@.len() ==> (#[trigger] after.buckets@[l])
                    == before.buckets@[l],
            after.buckets@[before.buckets@.len() as int].band_key@ != h,
        ensures
            after@.dom().contains(h) == before@.dom().contains(h),
            before@.dom().contains(h) ==> after@[h] == before@[h],
    {
        if after@.dom().contains(h) {
            let l = choose|l: int| #[trigger] after.holds_at(l, h);
            assert(before.holds_at(l, h));
        }
        if before@.dom().contains(h) {
            let l = choose|l: int| #[trigger] before.holds_at(l, h);
            assert(after.holds_at(l, h));
        }
        assert forall|k: K| after.members_of(h).contains(k) <==> before.members_of(h).contains(k) by {
            if after.members_of(h).contains(k) {
                let l = choose|l: int| #[trigger]
                    after.holds_at(l, h) && after.buckets@[l].members@.contains(k);
                assert(before.holds_at(l, h));
            }
            if before.members_of(h).contains(k) {
                let l = choose|l: int| #[trigger]
                    before.holds_at(l, h) && before.buckets@[l].members@.contains(k);
                assert(after.holds_at(l, h));
            }
        }
        assert(after.members_of(h) =~= before.members_of(h));
    }
}

} // verus!
