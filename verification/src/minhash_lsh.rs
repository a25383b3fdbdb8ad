//! The banded index: one table for each band of the signatures, and the
//! record of the keys.

use crate::band_table::{
    copy_range, counts_of, key_laws, table_with, table_without, BandTable, HashValuePart,
};
use crate::error::MinHashingError;
use crate::key_table::{parts_view, KeyTable};
use crate::minhash::MinHash;
use crate::params::{is_optimal, none_finite, LshParams};
use std::collections::HashSet;
use std::hash::Hash;
use vstd::pervasive::unreached;
use vstd::prelude::*;

verus! {

/// Band `i` of a signature cut into bands of `r` rows: the slots from
/// `i * r` up to `(i + 1) * r`.
pub open spec fn band(signature: Seq<u64>, r: nat, i: int) -> Seq<u64> {
    signature.subrange(i * r, (i + 1) * r)
}

/// The first `b` bands of a signature cut into bands of `r` rows.
pub open spec fn bands(signature: Seq<u64>, b: nat, r: nat) -> Seq<Seq<u64>> {
    Seq::new(b, |i: int| band(signature, r, i))
}

/// The mathematical content of a [`MinHashLsh`].
#[verifier::reject_recursive_types(K)]
pub struct Index<K> {
    /// The length of the signatures that the index takes.
    pub num_perm: nat,
    /// The band layout.
    pub params: LshParams,
    /// For each band, the buckets: band key to the set of keys filed under it.
    pub tables: Seq<Map<Seq<u64>, Set<K>>>,
    /// For each key, the band keys that it was last inserted with.
    pub keys: Map<K, Seq<Seq<u64>>>,
}

impl<K> Index<K> {
    /// The index without keys.
    pub open spec fn empty(num_perm: nat, params: LshParams) -> Index<K> {
        Index {
            num_perm,
            params,
            tables: Seq::new(params.b as nat, |i: int| Map::<Seq<u64>, Set<K>>::empty()),
            keys: Map::<K, Seq<Seq<u64>>>::empty(),
        }
    }

    /// Whether the bucket of band `i` under the band key `h` holds `key`.
    pub open spec fn files(self, i: int, h: Seq<u64>, key: K) -> bool {
        0 <= i < self.tables.len() && self.tables[i].dom().contains(h) && self.tables[i][h].contains(
            key,
        )
    }

    /// The layout fits the signatures, there is a table for each band, no
    /// bucket is empty, and every key is filed in each band under the band
    /// key that its record names.
    pub open spec fn wf(self) -> bool {
        &&& self.params.fits(self.num_perm as int)
        &&& self.tables.len() == self.params.b
        &&& self.keys.dom().finite()
        &&& forall|i: int, h: Seq<u64>|
            0 <= i < self.tables.len() && #[trigger] self.tables[i].dom().contains(h)
                ==> self.tables[i][h].finite() && self.tables[i][h].len() > 0
        &&& forall|k: K| self.keys.dom().contains(k) ==> (#[trigger] self.keys[k]).len() == self.params.b
        &&& forall|k: K, i: int|
            self.keys.dom().contains(k) && 0 <= i < self.params.b ==> #[trigger] self.files(
                i,
                self.keys[k][i],
                k,
            )
    }

    /// Whether every key in a bucket is on record with the band key of that
    /// bucket: no bucket holds what an overwritten record has left behind.
    pub open spec fn exact(self) -> bool {
        forall|i: int, h: Seq<u64>, k: K| #[trigger]
            self.files(i, h, k) ==> self.keys.dom().contains(k) && self.keys[k][i] == h
    }

    /// The index after `key` was inserted with `signature`: the key is filed
    /// under each band of the signature, and its record names those bands.
    /// Where the key had a record, the buckets that the old record names keep
    /// the key.
    pub open spec fn inserted(self, key: K, signature: Seq<u64>) -> Index<K> {
        Index {
            tables: Seq::new(
                self.tables.len(),
                |i: int| table_with(self.tables[i], band(signature, self.params.r as nat, i), key),
            ),
            keys: self.keys.insert(key, bands(signature, self.params.b as nat, self.params.r as nat)),
            ..self
        }
    }

    /// The index after `key` was removed: in each band the key leaves the
    /// bucket that its record names, and the record goes.
    pub open spec fn removed(self, key: K) -> Index<K> {
        Index {
            tables: Seq::new(
                self.tables.len(),
                |i: int| table_without(self.tables[i], self.keys[key][i], key),
            ),
            keys: self.keys.remove(key),
            ..self
        }
    }

    /// The keys found in the first `n` bands for `signature`.
    pub open spec fn candidates_upto(self, signature: Seq<u64>, n: int) -> Set<K> {
        Set::new(
            |k: K|
                exists|i: int|
                    0 <= i < n && #[trigger] self.files(i, band(signature, self.params.r as nat, i), k),
        )
    }

    /// The keys that share a band with `signature`: those filed, in some
    /// band, under the band key that the signature has there.
    pub open spec fn candidates(self, signature: Seq<u64>) -> Set<K> {
        self.candidates_upto(signature, self.params.b as int)
    }
}

/// Inserting a key keeps the content well-formed.
pub proof fn lemma_inserted_wf<K>(index: Index<K>, key: K, signature: Seq<u64>)
    requires
        index.wf(),
    ensures
        index.inserted(key, signature).wf(),
{
    let after = index.inserted(key, signature);
    let r = index.params.r as nat;
    assert(after.keys.dom() =~= index.keys.dom().insert(key));
    assert forall|i: int, h: Seq<u64>|
        0 <= i < after.tables.len() && #[trigger] after.tables[i].dom().contains(h) implies after.tables[i][h].finite()
        && after.tables[i][h].len() > 0 by {
        let hb = band(signature, r, i);
        if h == hb {
            if index.tables[i].dom().contains(h) {
                assert(index.tables[i][h].finite());
            }
        } else {
            assert(index.tables[i].dom().contains(h));
        }
    }
    assert forall|k: K| after.keys.dom().contains(k) implies (#[trigger] after.keys[k]).len()
        == after.params.b by {
        if k != key {
            assert(index.keys[k].len() == index.params.b);
        }
    }
    assert forall|k: K, i: int|
        after.keys.dom().contains(k) && 0 <= i < after.params.b implies #[trigger] after.files(
        i,
        after.keys[k][i],
        k,
    ) by {
        let hb = band(signature, r, i);
        let table = index.tables[i];
        assert(after.tables[i] == table_with(table, hb, key));
        if k != key {
            let hk = index.keys[k][i];
            assert(after.keys[k] == index.keys[k]);
            assert(index.files(i, hk, k));
            if hk == hb {
                assert(after.tables[i][hb] == table[hb].insert(key));
            } else {
                assert(after.tables[i][hk] == table[hk]);
            }
        } else {
            assert(after.keys[k] == bands(signature, index.params.b as nat, r));
            assert(after.keys[k][i] == hb);
            assert(after.tables[i].dom().contains(hb));
            assert(after.tables[i][hb].contains(key));
        }
    }
}

/// Removing a key that is on record keeps the content well-formed.
pub proof fn lemma_removed_wf<K>(index: Index<K>, key: K)
    requires
        index.wf(),
        index.keys.dom().contains(key),
    ensures
        index.removed(key).wf(),
{
    let after = index.removed(key);
    assert(after.keys.dom() =~= index.keys.dom().remove(key));
    assert forall|i: int, h: Seq<u64>|
        0 <= i < after.tables.len() && #[trigger] after.tables[i].dom().contains(h) implies after.tables[i][h].finite()
        && after.tables[i][h].len() > 0 by {
        let h0 = index.keys[key][i];
        assert(index.tables[i].dom().contains(h));
        assert(index.tables[i][h].finite());
        if h == h0 {
            let rest = index.tables[i][h].remove(key);
            assert(after.tables[i][h] == rest);
            if rest.len() == 0 {
                rest.lemma_len0_is_empty();
            }
        }
    }
    assert forall|k: K| after.keys.dom().contains(k) implies (#[trigger] after.keys[k]).len()
        == after.params.b by {
        assert(index.keys[k].len() == index.params.b);
    }
    assert forall|k: K, i: int|
        after.keys.dom().contains(k) && 0 <= i < after.params.b implies #[trigger] after.files(
        i,
        after.keys[k][i],
        k,
    ) by {
        let h0 = index.keys[key][i];
        let hk = index.keys[k][i];
        let table = index.tables[i];
        assert(k != key);
        assert(after.keys[k] == index.keys[k]);
        assert(index.files(i, hk, k));
        assert(after.tables[i] == table_without(table, h0, key));
        if hk == h0 {
            let rest = table[h0].remove(key);
            assert(rest.contains(k));
            assert(!Set::<K>::empty().contains(k));
            assert(rest != Set::<K>::empty());
            assert(after.tables[i] == table.insert(h0, rest));
        } else {
            assert(after.tables[i].dom().contains(hk));
            assert(after.tables[i][hk] == table[hk]);
        }
    }
}

/// The index without keys is well-formed and exact.
pub proof fn lemma_empty_wf<K>(num_perm: nat, params: LshParams)
    requires
        params.fits(num_perm as int),
    ensures
        Index::<K>::empty(num_perm, params).wf(),
        Index::<K>::empty(num_perm, params).exact(),
{
    assert(Index::<K>::empty(num_perm, params).keys.dom() =~= Set::<K>::empty());
}

/// Inserting a key that is not on record, or that is on record with the
/// bands of the very signature, keeps the index exact.
pub proof fn lemma_inserted_exact<K>(index: Index<K>, key: K, signature: Seq<u64>)
    requires
        index.wf(),
        index.exact(),
        index.keys.dom().contains(key) ==> index.keys[key] == bands(
            signature,
            index.params.b as nat,
            index.params.r as nat,
        ),
    ensures
        index.inserted(key, signature).exact(),
{
    let after = index.inserted(key, signature);
    assert forall|i: int, h: Seq<u64>, k: K| #[trigger] after.files(i, h, k) implies after.keys.dom().contains(
        k,
    ) && after.keys[k][i] == h by {
        let hb = band(signature, index.params.r as nat, i);
        if h == hb && k == key {
        } else {
            assert(index.files(i, h, k));
        }
    }
}

/// Removing a key that is on record keeps the index exact.
pub proof fn lemma_removed_exact<K>(index: Index<K>, key: K)
    requires
        index.wf(),
        index.exact(),
        index.keys.dom().contains(key),
    ensures
        index.removed(key).exact(),
{
    let after = index.removed(key);
    assert forall|i: int, h: Seq<u64>, k: K| #[trigger] after.files(i, h, k) implies after.keys.dom().contains(
        k,
    ) && after.keys[k][i] == h by {
        assert(index.files(i, h, k));
    }
}

/// After a key was inserted with a signature, the key is on record, and a
/// query with that signature finds it.
pub proof fn lemma_insert_then_found<K>(index: Index<K>, key: K, signature: Seq<u64>)
    requires
        index.wf(),
    ensures
        index.inserted(key, signature).keys.dom().contains(key),
        index.inserted(key, signature).candidates(signature).contains(key),
{
    let after = index.inserted(key, signature);
    assert(after.files(0, band(signature, after.params.r as nat, 0), key));
}

/// After a key was removed from an exact index, the key is not on record,
/// no bucket holds it, and no query finds it.
pub proof fn lemma_remove_then_absent<K>(index: Index<K>, key: K)
    requires
        index.wf(),
        index.exact(),
        index.keys.dom().contains(key),
    ensures
        !index.removed(key).keys.dom().contains(key),
        forall|i: int, h: Seq<u64>| !#[trigger] index.removed(key).files(i, h, key),
        forall|signature: Seq<u64>| !#[trigger] index.removed(key).candidates(signature).contains(key),
{
    let after = index.removed(key);
    assert forall|i: int, h: Seq<u64>| !#[trigger] after.files(i, h, key) by {
        if after.files(i, h, key) {
            assert(index.files(i, h, key));
        }
    }
}

/// In an exact index a query finds the keys on record that share a band with
/// the signature, and no others.
pub proof fn lemma_candidates_share_a_band<K>(index: Index<K>, signature: Seq<u64>)
    requires
        index.wf(),
        index.exact(),
    ensures
        forall|k: K|
            #[trigger] index.candidates(signature).contains(k) <==> (index.keys.dom().contains(k)
                && exists|i: int|
                0 <= i < index.params.b && #[trigger] index.keys[k][i] == band(
                    signature,
                    index.params.r as nat,
                    i,
                )),
{
    let r = index.params.r as nat;
    assert forall|k: K|
        #[trigger] index.candidates(signature).contains(k) <==> (index.keys.dom().contains(k)
            && exists|i: int|
            0 <= i < index.params.b && #[trigger] index.keys[k][i] == band(signature, r, i)) by {
        if index.candidates(signature).contains(k) {
            let i = choose|i: int|
                0 <= i < index.params.b && #[trigger] index.files(i, band(signature, r, i), k);
            assert(index.keys[k][i] == band(signature, r, i));
        }
        if index.keys.dom().contains(k) && exists|i: int|
            0 <= i < index.params.b && #[trigger] index.keys[k][i] == band(signature, r, i) {
            let i = choose|i: int|
                0 <= i < index.params.b && #[trigger] index.keys[k][i] == band(signature, r, i);
            assert(index.files(i, index.keys[k][i], k));
        }
    }
}

/// The sum of the sizes that a list of buckets gives.
pub open spec fn total(counts: Seq<(HashValuePart, usize)>) -> nat
    decreases counts.len(),
{
    if counts.len() == 0 {
        0
    } else {
        total(counts.drop_last()) + counts.last().1 as nat
    }
}

/// The keys in the first `n` of the listed buckets of a table.
pub open spec fn listed_keys<K>(
    counts: Seq<(HashValuePart, usize)>,
    table: Map<Seq<u64>, Set<K>>,
    n: int,
) -> Set<K> {
    Set::new(|k: K| exists|j: int| 0 <= j < n && #[trigger] table[counts[j].0@].contains(k))
}

/// In an exact index the first `n` listed buckets of a band hold as many
/// keys as their sizes add up to: no key is in two of them.
proof fn lemma_listed_total<K>(index: Index<K>, i: int, counts: Seq<(HashValuePart, usize)>, n: int)
    requires
        index.wf(),
        index.exact(),
        0 <= i < index.params.b,
        counts_of(counts, index.tables[i]),
        0 <= n <= counts.len(),
    ensures
        listed_keys(counts, index.tables[i], n).finite(),
        listed_keys(counts, index.tables[i], n).len() == total(counts.take(n)),
    decreases n,
{
    let table = index.tables[i];
    if n == 0 {
        assert(listed_keys(counts, table, 0) =~= Set::<K>::empty());
        assert(counts.take(0).len() == 0);
    } else {
        lemma_listed_total(index, i, counts, n - 1);
        let before = listed_keys(counts, table, n - 1);
        let h = counts[n - 1].0@;
        let bucket = table[h];
        assert(table.dom().contains(h));
        assert(bucket.finite());
        assert(listed_keys(counts, table, n) =~= before + bucket) by {
            assert forall|k: K| listed_keys(counts, table, n).contains(k) <==> (before.contains(k)
                || bucket.contains(k)) by {
                if listed_keys(counts, table, n).contains(k) {
                    let j = choose|j: int| 0 <= j < n && #[trigger] table[counts[j].0@].contains(k);
                    if j < n - 1 {
                        assert(before.contains(k));
                    }
                }
                if before.contains(k) {
                    let j = choose|j: int| 0 <= j < n - 1 && #[trigger] table[counts[j].0@].contains(k);
                    assert(0 <= j < n);
                }
                if bucket.contains(k) {
                    assert(table[counts[n - 1].0@].contains(k));
                }
            }
        }
        assert(before.disjoint(bucket)) by {
            assert forall|k: K| before.contains(k) implies !bucket.contains(k) by {
                let j = choose|j: int| 0 <= j < n - 1 && #[trigger] table[counts[j].0@].contains(k);
                assert(table.dom().contains(counts[j].0@));
                assert(index.files(i, counts[j].0@, k));
                if bucket.contains(k) {
                    assert(index.files(i, h, k));
                    assert(counts[j].0@ != counts[n - 1].0@);
                }
            }
        }
        vstd::set_lib::lemma_set_disjoint_lens(before, bucket);
        assert(counts.take(n).drop_last() =~= counts.take(n - 1));
        assert(counts.take(n).last() == counts[n - 1]);
    }
}

/// In an exact index the sizes of the buckets of a band add up to the number
/// of keys on record: every key is in one bucket of the band, and in one only.
pub proof fn lemma_counts_total<K>(index: Index<K>, i: int, counts: Seq<(HashValuePart, usize)>)
    requires
        index.wf(),
        index.exact(),
        0 <= i < index.params.b,
        counts_of(counts, index.tables[i]),
    ensures
        total(counts) == index.keys.dom().len(),
{
    let table = index.tables[i];
    let n = counts.len() as int;
    lemma_listed_total(index, i, counts, n);
    assert(counts.take(n) =~= counts);
    assert(listed_keys(counts, table, n) =~= index.keys.dom()) by {
        assert forall|k: K| listed_keys(counts, table, n).contains(k) <==> index.keys.dom().contains(
            k,
        ) by {
            if listed_keys(counts, table, n).contains(k) {
                let j = choose|j: int| 0 <= j < n && #[trigger] table[counts[j].0@].contains(k);
                assert(table.dom().contains(counts[j].0@));
                assert(index.files(i, counts[j].0@, k));
            }
            if index.keys.dom().contains(k) {
                let h = index.keys[k][i];
                assert(index.files(i, h, k));
                let j = choose|j: int| 0 <= j < counts.len() && (#[trigger] counts[j]).0@ == h;
                assert(table[counts[j].0@].contains(k));
            }
        }
    }
}

/// What an index has to know of the two error weights. The weights are
/// real numbers and stay with the caller, who looks at them and reports here.
#[derive(Clone, Copy, Debug, PartialEq, Eq, Structural)]
pub struct Weights {
    /// Whether both weights lie between zero and one.
    pub within_unit_interval: bool,
    /// Whether the two weights add up to one.
    pub sum_is_one: bool,
}

/// What an index has to know of the similarity threshold. The threshold is a
/// real number and stays with the caller, who looks at it and reports here.
#[derive(Clone, Copy, Debug, PartialEq, Eq, Structural)]
pub struct Threshold {
    /// Whether the threshold lies between zero and one.
    pub within_unit_interval: bool,
}

/// Why an index cannot be made from the settings, if it cannot. The
/// threshold is looked at first, then the signature length, then the weights:
/// their range before their sum. Settings that are not given have their
/// defaults, which are in order.
pub open spec fn refusal(num_perm: usize, weights: Option<Weights>, threshold: Option<Threshold>) -> Option<
    MinHashingError,
> {
    if threshold matches Some(t) && !t.within_unit_interval {
        Some(MinHashingError::WrongThresholdInterval)
    } else if num_perm < 2 {
        Some(MinHashingError::NumPermFuncsTooLow)
    } else if weights matches Some(w) && !w.within_unit_interval {
        Some(MinHashingError::WrongWeightThreshold)
    } else if weights matches Some(w) && !w.sum_is_one {
        Some(MinHashingError::UnexpectedSumWeight)
    } else {
        None
    }
}

/// A banded locality-sensitive index of sketches under keys of type `KeyType`.
#[derive(Clone)]
pub struct MinHashLsh<KeyType: Eq + Hash + Clone> {
    num_perm: usize,
    params: LshParams,
    hash_tables: Vec<BandTable<KeyType>>,
    hash_ranges: Vec<(usize, usize)>,
    keys: KeyTable<KeyType>,
}

impl<KeyType: Eq + Hash + Clone> View for MinHashLsh<KeyType> {
    type V = Index<KeyType>;

    closed spec fn view(&self) -> Index<KeyType> {
        Index {
            num_perm: self.num_perm as nat,
            params: self.params,
            tables: Seq::new(self.hash_tables@.len(), |i: int| self.hash_tables@[i]@),
            keys: self.keys@,
        }
    }
}

/// Adds the keys of `members` to `found`.
fn merge_into<K: Eq + Hash + Clone>(found: &mut HashSet<K>, members: &HashSet<K>)
    requires
        key_laws::<K>(),
    ensures
        final(found)@ == old(found)@.union(members@),
{
    let ghost start = found@;
    for k in it: members.iter()
        invariant
            key_laws::<K>(),
            it.seq().unref().to_set() == members@,
            forall|x: K| start.contains(x) ==> found@.contains(x),
            forall|x: K| #[trigger] found@.contains(x) ==> start.contains(x) || members@.contains(x),
            forall|j: int| 0 <= j < it.index() ==> found@.contains(#[trigger] it.seq().unref()[j]),
    {
        let copy = k.clone();
        assert(cloned(*k, copy));
        assert(it.seq().unref()[it.index() as int] == *k);
        assert(it.seq().unref().to_set().contains(*k));
        found.insert(copy);
    }
    assert(found@ =~= start.union(members@));
}

impl<KeyType: Eq + Hash + Clone> MinHashLsh<KeyType> {
    /// The representation is sound: a table and a range for each band, and
    /// the content is well-formed.
    pub closed spec fn wf(&self) -> bool {
        &&& self.hash_tables@.len() == self.params.b
        &&& self.hash_ranges@.len() == self.params.b
        &&& forall|i: int| 0 <= i < self.hash_tables@.len() ==> (#[trigger] self.hash_tables@[i]).wf()
        &&& forall|i: int|
            0 <= i < self.hash_ranges@.len() ==> (#[trigger] self.hash_ranges@[i]).0 == i
                * self.params.r && self.hash_ranges@[i].1 == (i + 1) * self.params.r
        &&& self@.wf()
    }

    /// Band `i` lies within the signatures that the index takes.
    proof fn lemma_range(&self, i: int)
        requires
            self.wf(),
            0 <= i < self.params.b,
        ensures
            self.hash_ranges@[i].0 == i * self.params.r,
            self.hash_ranges@[i].1 == (i + 1) * self.params.r,
            i * self.params.r <= (i + 1) * self.params.r <= self.num_perm,
    {
        assert(self@.params.fits(self@.num_perm as int));
        assert(i * self.params.r <= (i + 1) * self.params.r && (i + 1) * self.params.r
            <= self.params.b * self.params.r) by (nonlinear_arith)
            requires
                0 <= i,
                i + 1 <= self.params.b,
                self.params.r >= 0,
        ;
    }

    /// A well-formed index has well-formed content.
    pub proof fn lemma_wf(&self)
        requires
            self.wf(),
        ensures
            self@.wf(),
    {
    }

    /// An index without keys for signatures of `num_perm` slots, in the band
    /// layout that has the smallest score. `weights` and `threshold` say what
    /// the caller found of the settings that the scores were computed from;
    /// `scores[b - 1][r - 1]` is the score of `b` bands of `r` rows. Settings
    /// out of range are refused, and so are signatures of fewer than two
    /// slots. Some layout must have a finite score where nothing is refused.
    pub fn new(
        num_perm: usize,
        weights: Option<Weights>,
        threshold: Option<Threshold>,
        scores: &Vec<Vec<u64>>,
    ) -> (outcome: Result<MinHashLsh<KeyType>, MinHashingError>)
        requires
            refusal(num_perm, weights, threshold) is None ==> !none_finite(num_perm as int, scores@),
        ensures
            match refusal(num_perm, weights, threshold) {
                Some(e) => outcome matches Err(err) && err == e,
                None => outcome matches Ok(index) && index.wf() && index@.exact() && is_optimal(
                    num_perm as int,
                    scores@,
                    index@.params,
                ) && index@ == Index::<KeyType>::empty(num_perm as nat, index@.params),
            },
    {
        match threshold {
            Some(t) => {
                if !t.within_unit_interval {
                    return Err(MinHashingError::WrongThresholdInterval);
                }
            },
            None => {},
        }
        if num_perm < 2 {
            return Err(MinHashingError::NumPermFuncsTooLow);
        }
        match weights {
            Some(w) => {
                if !w.within_unit_interval {
                    return Err(MinHashingError::WrongWeightThreshold);
                }
                if !w.sum_is_one {
                    return Err(MinHashingError::UnexpectedSumWeight);
                }
            },
            None => {},
        }
        match LshParams::find_optimal_params(num_perm, scores) {
            Some(params) => Self::with_params(num_perm, params),
            None => unreached(),
        }
    }

    /// An index without keys for signatures of `num_perm` slots, cut into the
    /// bands of `params`. Signatures of fewer than two slots are refused.
    pub fn with_params(num_perm: usize, params: LshParams) -> (outcome: Result<
        MinHashLsh<KeyType>,
        MinHashingError,
    >)
        requires
            params.fits(num_perm as int),
        ensures
            match outcome {
                Err(e) => num_perm < 2 && e == MinHashingError::NumPermFuncsTooLow,
                Ok(index) => num_perm >= 2 && index.wf() && index@.exact() && index@
                    == Index::<KeyType>::empty(num_perm as nat, params),
            },
    {
        if num_perm < 2 {
            return Err(MinHashingError::NumPermFuncsTooLow);
        }
        let mut hash_tables: Vec<BandTable<KeyType>> = Vec::new();
        let mut hash_ranges: Vec<(usize, usize)> = Vec::new();
        let mut i: usize = 0;
        let mut start: usize = 0;
        while i < params.b
            invariant
                params.fits(num_perm as int),
                i <= params.b,
                start == i * params.r,
                hash_tables@.len() == i,
                hash_ranges@.len() == i,
                forall|l: int|
                    0 <= l < i ==> (#[trigger] hash_tables@[l]).wf() && hash_tables@[l]@ == Map::<
                        Seq<u64>,
                        Set<KeyType>,
                    >::empty(),
                forall|l: int|
                    0 <= l < i ==> (#[trigger] hash_ranges@[l]).0 == l * params.r
                        && hash_ranges@[l].1 == (l + 1) * params.r,
            decreases params.b - i,
        {
            assert((i + 1) * params.r <= params.b * params.r && (i + 1) * params.r == i * params.r
                + params.r) by (nonlinear_arith)
                requires
                    i + 1 <= params.b,
            ;
            let end: usize = start + params.r;
            hash_tables.push(BandTable::new());
            hash_ranges.push((start, end));
            start = end;
            i = i + 1;
        }
        let index = MinHashLsh { num_perm, params, hash_tables, hash_ranges, keys: KeyTable::new() };
        proof {
            assert(index@.tables =~= Index::<KeyType>::empty(num_perm as nat, params).tables);
            lemma_empty_wf::<KeyType>(num_perm as nat, params);
        }
        Ok(index)
    }

    /// The band layout of the index.
    pub fn params(&self) -> (params: LshParams)
        ensures
            params == self@.params,
    {
        self.params
    }

    /// The length of the signatures that the index takes.
    pub fn num_perm(&self) -> (num_perm: usize)
        ensures
            num_perm == self@.num_perm,
    {
        self.num_perm
    }

    /// Whether no band table holds a bucket.
    pub fn is_empty(&self) -> (empty: bool)
        requires
            self.wf(),
        ensures
            empty == (forall|i: int|
                0 <= i < self@.tables.len() ==> #[trigger] self@.tables[i] == Map::<
                    Seq<u64>,
                    Set<KeyType>,
                >::empty()),
    {
        let mut i: usize = 0;
        while i < self.hash_tables.len()
            invariant
                self.wf(),
                i <= self.hash_tables@.len(),
                forall|l: int|
                    0 <= l < i ==> #[trigger] self@.tables[l] == Map::<Seq<u64>, Set<KeyType>>::empty(),
            decreases self.hash_tables@.len() - i,
        {
            if self.hash_tables[i].len() != 0 {
                assert(self@.tables[i as int] != Map::<Seq<u64>, Set<KeyType>>::empty());
                return false;
            }
            assert(self@.tables[i as int] == Map::<Seq<u64>, Set<KeyType>>::empty());
            i = i + 1;
        }
        true
    }

    /// Whether the key is on record.
    pub fn contains_key(&self, key: &KeyType) -> (found: bool)
        requires
            self.wf(),
            key_laws::<KeyType>(),
        ensures
            found == self@.keys.dom().contains(*key),
    {
        self.keys.contains_key(key)
    }

    /// The number of keys on record.
    pub fn len(&self) -> (count: usize)
        requires
            self.wf(),
            key_laws::<KeyType>(),
        ensures
            count == self@.keys.dom().len(),
    {
        self.keys.len()
    }

    /// The band keys that a key was last inserted with, if it is on record.
    pub fn band_keys(&self, key: &KeyType) -> (found: Option<&Vec<HashValuePart>>)
        requires
            self.wf(),
            key_laws::<KeyType>(),
        ensures
            match found {
                Some(parts) => self@.keys.dom().contains(*key) && parts_view(parts@)
                    == self@.keys[*key],
                None => !self@.keys.dom().contains(*key),
            },
    {
        self.keys.get(key)
    }

    /// The keys filed in band `band_index` under `band_key`, if there are any.
    pub fn bucket(&self, band_index: usize, band_key: &HashValuePart) -> (found: Option<
        &HashSet<KeyType>,
    >)
        requires
            self.wf(),
        ensures
            match found {
                Some(members) => band_index < self@.tables.len()
                    && self@.tables[band_index as int].dom().contains(band_key@)
                    && members@ == self@.tables[band_index as int][band_key@],
                None => band_index >= self@.tables.len()
                    || !self@.tables[band_index as int].dom().contains(band_key@),
            },
    {
        if band_index >= self.hash_tables.len() {
            return None;
        }
        self.hash_tables[band_index].get(&band_key.0)
    }

    /// The sizes of the buckets: for each band, each band key in use with the
    /// number of keys filed under it.
    pub fn get_counts(&self) -> (counts: Vec<Vec<(HashValuePart, usize)>>)
        requires
            self.wf(),
            key_laws::<KeyType>(),
        ensures
            counts@.len() == self@.params.b,
            forall|i: int|
                0 <= i < counts@.len() ==> counts_of((#[trigger] counts@[i])@, self@.tables[i]),
            self@.exact() ==> forall|i: int|
                0 <= i < counts@.len() ==> total((#[trigger] counts@[i])@) == self@.keys.dom().len(),
    {
        let mut counts: Vec<Vec<(HashValuePart, usize)>> = Vec::new();
        let mut i: usize = 0;
        while i < self.hash_tables.len()
            invariant
                self.wf(),
                key_laws::<KeyType>(),
                i <= self.hash_tables@.len(),
                counts@.len() == i,
                forall|l: int| 0 <= l < i ==> counts_of((#[trigger] counts@[l])@, self@.tables[l]),
                self@.exact() ==> forall|l: int|
                    0 <= l < i ==> total((#[trigger] counts@[l])@) == self@.keys.dom().len(),
            decreases self.hash_tables@.len() - i,
        {
            let band_counts = self.hash_tables[i].counts();
            proof {
                if self@.exact() {
                    lemma_counts_total(self@, i as int, band_counts@);
                }
            }
            counts.push(band_counts);
            i = i + 1;
        }
        counts
    }

    /// Files `key` under every band of the sketch, and records those bands
    /// for the key. A key that is on record already keeps its place in the
    /// buckets that the old record names; only the record is replaced. A
    /// sketch of another length is refused, and nothing changes.
    pub fn insert(&mut self, key: KeyType, min_hash: &MinHash) -> (outcome: Result<
        (),
        MinHashingError,
    >)
        requires
            old(self).wf(),
            key_laws::<KeyType>(),
        ensures
            final(self).wf(),
            match outcome {
                Err(e) => e == MinHashingError::DifferentNumPermFuncs && min_hash@.signature.len()
                    != old(self)@.num_perm && final(self)@ == old(self)@,
                Ok(_) => min_hash@.signature.len() == old(self)@.num_perm && final(self)@ == old(
                    self,
                )@.inserted(key, min_hash@.signature),
            },
            old(self)@.exact() && !old(self)@.keys.dom().contains(key) ==> final(self)@.exact(),
            outcome is Ok ==> final(self)@.keys.dom().contains(key) && final(self)@.candidates(
                min_hash@.signature,
            ).contains(key),
    {
        let signature = min_hash.signature();
        if signature.len() != self.num_perm {
            return Err(MinHashingError::DifferentNumPermFuncs);
        }
        let ghost goal = old(self)@.inserted(key, signature@);
        let ghost r = self.params.r as nat;
        let mut hash_value_parts: Vec<HashValuePart> = Vec::new();
        let mut i: usize = 0;
        while i < self.hash_tables.len()
            invariant
                old(self).wf(),
                key_laws::<KeyType>(),
                signature@.len() == self.num_perm,
                r == self.params.r,
                self.num_perm == old(self).num_perm,
                self.params == old(self).params,
                self.hash_ranges == old(self).hash_ranges,
                self.keys == old(self).keys,
                self.hash_tables@.len() == old(self).hash_tables@.len(),
                i <= self.hash_tables@.len(),
                hash_value_parts@.len() == i,
                forall|l: int| 0 <= l < i ==> (#[trigger] hash_value_parts@[l])@ == band(signature@, r, l),
                forall|l: int| 0 <= l < self.hash_tables@.len() ==> (#[trigger] self.hash_tables@[l]).wf(),
                forall|l: int|
                    0 <= l < i ==> (#[trigger] self.hash_tables@[l])@ == table_with(
                        old(self).hash_tables@[l]@,
                        band(signature@, r, l),
                        key,
                    ),
                forall|l: int|
                    i <= l < self.hash_tables@.len() ==> (#[trigger] self.hash_tables@[l])@ == old(
                        self,
                    ).hash_tables@[l]@,
            decreases self.hash_tables@.len() - i,
        {
            let (start, end) = self.hash_ranges[i];
            proof {
                old(self).lemma_range(i as int);
            }
            let recorded = copy_range(signature, start, end);
            let filed = copy_range(signature, start, end);
            hash_value_parts.push(HashValuePart(recorded));
            let copy = key.clone();
            assert(cloned(key, copy));
            self.hash_tables[i].insert(HashValuePart(filed), copy);
            i = i + 1;
        }
        proof {
            assert(parts_view(hash_value_parts@) =~= bands(
                signature@,
                self.params.b as nat,
                self.params.r as nat,
            ));
        }
        self.keys.insert(key, hash_value_parts);
        proof {
            assert(self@.tables =~= goal.tables);
            assert(self@ == goal);
            lemma_inserted_wf(old(self)@, key, signature@);
            lemma_insert_then_found(old(self)@, key, signature@);
            if old(self)@.exact() && !old(self)@.keys.dom().contains(key) {
                lemma_inserted_exact(old(self)@, key, signature@);
            }
        }
        Ok(())
    }

    /// Takes `key` out of the bucket that its record names in each band,
    /// drops the buckets that this leaves empty, and drops the record. A key
    /// that is not on record is refused, and nothing changes.
    pub fn remove(&mut self, key: &KeyType) -> (outcome: Result<(), MinHashingError>)
        requires
            old(self).wf(),
            key_laws::<KeyType>(),
        ensures
            final(self).wf(),
            match outcome {
                Err(e) => e == MinHashingError::KeyDoesNotExist && !old(self)@.keys.dom().contains(
                    *key,
                ) && final(self)@ == old(self)@,
                Ok(_) => old(self)@.keys.dom().contains(*key) && final(self)@ == old(
                    self,
                )@.removed(*key),
            },
            old(self)@.exact() ==> final(self)@.exact(),
            outcome is Ok ==> !final(self)@.keys.dom().contains(*key),
            outcome is Ok && old(self)@.exact() ==> forall|signature: Seq<u64>|
                !#[trigger] final(self)@.candidates(signature).contains(*key),
    {
        let ghost goal = old(self)@.removed(*key);
        let ghost recorded = old(self)@.keys[*key];
        match self.keys.get(key) {
            None => {
                return Err(MinHashingError::KeyDoesNotExist);
            },
            Some(hash_value_parts) => {
                assert(hash_value_parts@.len() == self.hash_tables@.len()) by {
                    assert(old(self)@.keys[*key].len() == old(self)@.params.b);
                }
                let mut i: usize = 0;
                while i < self.hash_tables.len()
                    invariant
                        old(self).wf(),
                        key_laws::<KeyType>(),
                        parts_view(hash_value_parts@) == recorded,
                        hash_value_parts@.len() == self.hash_tables@.len(),
                        self.num_perm == old(self).num_perm,
                        self.params == old(self).params,
                        self.hash_ranges == old(self).hash_ranges,
                        self.keys == old(self).keys,
                        self.hash_tables@.len() == old(self).hash_tables@.len(),
                        i <= self.hash_tables@.len(),
                        forall|l: int|
                            0 <= l < self.hash_tables@.len() ==> (#[trigger] self.hash_tables@[l]).wf(),
                        forall|l: int|
                            0 <= l < i ==> (#[trigger] self.hash_tables@[l])@ == table_without(
                                old(self).hash_tables@[l]@,
                                recorded[l],
                                *key,
                            ),
                        forall|l: int|
                            i <= l < self.hash_tables@.len() ==> (#[trigger] self.hash_tables@[l])@
                                == old(self).hash_tables@[l]@,
                    decreases self.hash_tables@.len() - i,
                {
                    assert(hash_value_parts@[i as int]@ == parts_view(hash_value_parts@)[i as int]);
                    self.hash_tables[i].remove(&hash_value_parts[i].0, key);
                    i = i + 1;
                }
            },
        }
        self.keys.remove(key);
        proof {
            assert(self@.tables =~= goal.tables);
            assert(self@ == goal);
            lemma_removed_wf(old(self)@, *key);
            if old(self)@.exact() {
                lemma_removed_exact(old(self)@, *key);
                lemma_remove_then_absent(old(self)@, *key);
            }
        }
        Ok(())
    }

    /// The keys that share a band with the sketch: the union, over the
    /// bands, of the bucket under the band key that the sketch has there. A
    /// sketch of another length is refused.
    pub fn query(&self, min_hash: &MinHash) -> (outcome: Result<HashSet<KeyType>, MinHashingError>)
        requires
            self.wf(),
            key_laws::<KeyType>(),
        ensures
            match outcome {
                Err(e) => e == MinHashingError::DifferentNumPermFuncs && min_hash@.signature.len()
                    != self@.num_perm,
                Ok(found) => min_hash@.signature.len() == self@.num_perm && found@
                    == self@.candidates(min_hash@.signature),
            },
    {
        let signature = min_hash.signature();
        if signature.len() != self.num_perm {
            return Err(MinHashingError::DifferentNumPermFuncs);
        }
        let mut found: HashSet<KeyType> = HashSet::new();
        let mut i: usize = 0;
        assert(found@ =~= self@.candidates_upto(signature@, 0));
        while i < self.hash_tables.len()
            invariant
                self.wf(),
                key_laws::<KeyType>(),
                signature@.len() == self.num_perm,
                i <= self.hash_tables@.len(),
                found@ == self@.candidates_upto(signature@, i as int),
            decreases self.hash_tables@.len() - i,
        {
            let (start, end) = self.hash_ranges[i];
            proof {
                self.lemma_range(i as int);
            }
            let part = copy_range(signature, start, end);
            let ghost before = found@;
            match self.hash_tables[i].get(&part) {
                Some(members) => {
                    merge_into(&mut found, members);
                },
                None => {},
            }
            proof {
                let h = band(signature@, self@.params.r as nat, i as int);
                assert(part@ == h);
                assert forall|k: KeyType|
                    found@.contains(k) <==> self@.candidates_upto(
                        signature@,
                        i + 1,
                    ).contains(k) by {
                    if self@.candidates_upto(signature@, i + 1).contains(k) {
                        let l = choose|l: int|
                            0 <= l < i + 1 && #[trigger] self@.files(
                                l,
                                band(signature@, self@.params.r as nat, l),
                                k,
                            );
                        if l < i {
                            assert(self@.candidates_upto(signature@, i as int).contains(k));
                        }
                    }
                    if before.contains(k) {
                        let l = choose|l: int|
                            0 <= l < i && #[trigger] self@.files(
                                l,
                                band(signature@, self@.params.r as nat, l),
                                k,
                            );
                        assert(0 <= l < i + 1);
                    }
                    if self@.files(i as int, h, k) {
                        assert(self@.candidates_upto(signature@, i + 1).contains(k));
                    }
                }
                assert(found@ =~= self@.candidates_upto(signature@, i + 1));
            }
            i = i + 1;
        }
        Ok(found)
    }
}

} // verus!
