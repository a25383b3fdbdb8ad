//! MinHash sketches: a signature of fixed length that is lowered, slot by
//! slot, as elements are fed in.
//!
//! Elements are hashed with the standard library's `DefaultHasher`, of which
//! the low 32 bits are kept.

use crate::error::MinHashingError;
use rand::distributions::Uniform;
use rand::rngs::SmallRng;
use rand::{thread_rng, Rng, SeedableRng};
use std::collections::hash_map::DefaultHasher;
use std::hash::{Hash, Hasher};
use vstd::prelude::*;

verus! {

/// The modulus of every permutation function: two to the 61st, less one.
pub const MERSENNE_PRIME: u64 = 2305843009213693951;

/// The largest value of a signature slot: two to the 32nd, less one.
pub const MAX_HASH: u64 = 4294967295;

/// The value of the permutation function `(a, b)` at the element hash `h`:
/// the low 32 bits of `(a * h + b) mod MERSENNE_PRIME`.
pub open spec fn permute(a: u64, b: u64, h: u64) -> u64 {
    (((a * h + b) % (MERSENNE_PRIME as int)) % 4294967296) as u64
}

/// What is kept of an element's 64-bit hash: its low 32 bits.
pub open spec fn low_bits(hash: u64) -> u64 {
    (hash % 4294967296) as u64
}

/// The smaller of two slot values.
pub open spec fn lower(x: u64, y: u64) -> u64 {
    if y < x { y } else { x }
}

/// The signature after the element hash `h` has gone through every
/// permutation function: slot by slot the smaller of the old value and the
/// permuted hash.
pub open spec fn absorb(signature: Seq<u64>, permutations: Seq<(u64, u64)>, h: u64) -> Seq<u64> {
    Seq::new(
        signature.len(),
        |i: int| lower(signature[i], permute(permutations[i].0, permutations[i].1, h)),
    )
}

/// On how many positions two signatures agree, as far as both reach.
pub open spec fn count_matches(left: Seq<u64>, right: Seq<u64>) -> nat
    decreases left.len(),
{
    if left.len() == 0 || right.len() != left.len() {
        0
    } else {
        count_matches(left.drop_last(), right.drop_last()) + if left.last() == right.last() {
            1nat
        } else {
            0nat
        }
    }
}

/// Consecutive draws taken two by two: pair `i` is made of draws `2i` and `2i + 1`.
pub open spec fn paired(draws: Seq<u64>) -> Seq<(u64, u64)> {
    Seq::new((draws.len() / 2) as nat, |i: int| (draws[2 * i], draws[2 * i + 1]))
}

/// The `count` numbers below `bound` that a `SmallRng` seeded with `seed`
/// hands out first. Which generator `SmallRng` is depends on the word size of
/// the target, so these are the draws on the target that the library is built
/// for.
pub uninterp spec fn seeded_draws(seed: u64, bound: u64, count: nat) -> Seq<u64>;

/// The estimate of a Jaccard similarity, as the fraction `matches / num_perm`.
#[derive(Clone, Copy, Debug, PartialEq, Eq, Structural)]
pub struct JaccardEstimate {
    /// The number of slots on which the two signatures agree.
    pub matches: usize,
    /// The number of slots compared.
    pub num_perm: usize,
}

/// The signature of a sketch.
#[derive(Clone, Debug)]
pub struct HashValues(pub Vec<u64>);

/// A MinHash sketch.
#[derive(Clone)]
pub struct MinHash {
    seed: Option<u64>,
    num_perm: usize,
    pub hash_values: HashValues,
    permutations: Vec<(u64, u64)>,
}

/// The mathematical content of a [`MinHash`].
pub struct Sketch {
    pub seed: Option<u64>,
    pub num_perm: nat,
    pub signature: Seq<u64>,
    pub permutations: Seq<(u64, u64)>,
}

impl Sketch {
    /// Signature and permutations have `num_perm` entries, none above `MAX_HASH`.
    pub open spec fn wf(self) -> bool {
        &&& self.num_perm >= 2
        &&& self.signature.len() == self.num_perm
        &&& self.permutations.len() == self.num_perm
        &&& forall|i: int| 0 <= i < self.signature.len() ==> #[trigger] self.signature[i] <= MAX_HASH
        &&& forall|i: int|
            0 <= i < self.permutations.len() ==> (#[trigger] self.permutations[i]).0 <= MAX_HASH
                && self.permutations[i].1 <= MAX_HASH
    }

    /// The sketch of the empty set: every slot at `MAX_HASH`.
    pub open spec fn empty(num_perm: nat, seed: Option<u64>, permutations: Seq<(u64, u64)>) -> Sketch {
        Sketch { seed, num_perm, signature: Seq::new(num_perm, |i: int| MAX_HASH), permutations }
    }

    /// The permutation functions that the seed `seed` gives to a sketch of
    /// `num_perm` slots.
    pub open spec fn seeded_permutations(num_perm: nat, seed: u64) -> Seq<(u64, u64)> {
        paired(seeded_draws(seed, MAX_HASH, 2 * num_perm))
    }

    /// The sketch after an element whose 64-bit hash is `hash` was fed in.
    pub open spec fn updated(self, hash: u64) -> Sketch {
        Sketch { signature: absorb(self.signature, self.permutations, low_bits(hash)), ..self }
    }

    /// The estimate of the similarity of the two sketched sets, or why the
    /// two sketches cannot be compared.
    pub open spec fn jaccard(self, other: Sketch) -> Result<JaccardEstimate, MinHashingError> {
        if self.seed != other.seed {
            Err(MinHashingError::DifferentSeeds)
        } else if self.signature.len() != other.signature.len() {
            Err(MinHashingError::DifferentNumPermFuncs)
        } else {
            Ok(
                (JaccardEstimate {
                    matches: count_matches(self.signature, other.signature) as usize,
                    num_perm: self.signature.len() as usize,
                }),
            )
        }
    }
}

impl View for MinHash {
    type V = Sketch;

    closed spec fn view(&self) -> Sketch {
        Sketch {
            seed: self.seed,
            num_perm: self.num_perm as nat,
            signature: self.hash_values.0@,
            permutations: self.permutations@,
        }
    }
}

/// No more positions agree than there are positions.
pub proof fn lemma_count_matches_bounded(left: Seq<u64>, right: Seq<u64>)
    ensures
        count_matches(left, right) <= left.len(),
    decreases left.len(),
{
    if left.len() != 0 && right.len() == left.len() {
        lemma_count_matches_bounded(left.drop_last(), right.drop_last());
    }
}

/// A signature agrees with itself on every position.
pub proof fn lemma_count_matches_self(signature: Seq<u64>)
    ensures
        count_matches(signature, signature) == signature.len(),
    decreases signature.len(),
{
    if signature.len() != 0 {
        lemma_count_matches_self(signature.drop_last());
    }
}

/// The estimate never counts more matches than slots: the estimated
/// similarity lies between zero and one.
pub proof fn lemma_jaccard_in_unit_interval(left: Sketch, right: Sketch)
    requires
        left.signature.len() <= usize::MAX,
    ensures
        left.jaccard(right) matches Ok(estimate) ==> 0 <= estimate.matches <= estimate.num_perm,
{
    lemma_count_matches_bounded(left.signature, right.signature);
}

/// A sketch compared with itself matches on every slot: its estimated
/// similarity with itself is one.
pub proof fn lemma_jaccard_self(sketch: Sketch)
    requires
        sketch.signature.len() <= usize::MAX,
    ensures
        sketch.jaccard(sketch) == Ok::<JaccardEstimate, MinHashingError>(
            (JaccardEstimate {
                matches: sketch.signature.len() as usize,
                num_perm: sketch.signature.len() as usize,
            }),
        ),
{
    lemma_count_matches_self(sketch.signature);
}

/// Feeding an element never raises a slot, and touches nothing but the signature.
pub proof fn lemma_update_monotone(sketch: Sketch, hash: u64)
    ensures
        sketch.updated(hash).signature.len() == sketch.signature.len(),
        forall|i: int|
            0 <= i < sketch.signature.len() ==> #[trigger] sketch.updated(hash).signature[i]
                <= sketch.signature[i],
        sketch.updated(hash).permutations == sketch.permutations,
        sketch.updated(hash).seed == sketch.seed,
        sketch.wf() ==> sketch.updated(hash).wf(),
{
}

/// Two elements fed in either order leave the same sketch.
pub proof fn lemma_update_commutes(sketch: Sketch, first: u64, second: u64)
    ensures
        sketch.updated(first).updated(second) == sketch.updated(second).updated(first),
{
    assert(sketch.updated(first).updated(second).signature =~= sketch.updated(second).updated(
        first,
    ).signature);
}

/// Draws `count` numbers from a `rand::rngs::SmallRng` made by
/// `SeedableRng::seed_from_u64(seed)`, through `Rng::sample_iter` over
/// `Uniform::new(0, bound)`. Claimed of them: the generator is deterministic,
/// so the draws are the ones named by `seeded_draws`; the iterator never
/// ends, so there are `count` of them; and the distribution leaves out its
/// upper end, so each lies below `bound`. `Uniform::new` panics on an empty
/// range, which `bound > 0` rules out.
#[verifier::external_body]
fn draw_seeded(seed: u64, bound: u64, count: usize) -> (draws: Vec<u64>)
    requires
        bound > 0,
    ensures
        draws@ == seeded_draws(seed, bound, count as nat),
        draws@.len() == count,
        forall|i: int| 0 <= i < draws@.len() ==> #[trigger] draws@[i] < bound,
{
    let rng = SmallRng::seed_from_u64(seed);
    rng.sample_iter(Uniform::new(0, bound)).take(count).collect()
}

/// Draws `count` numbers from a `rand::rngs::SmallRng` made by
/// `SeedableRng::from_rng(thread_rng())`, or by `SeedableRng::from_entropy()`
/// where that fails, through `Rng::sample_iter` over `Uniform::new(0, bound)`.
/// Nothing is claimed of the values but what holds of every outcome: there
/// are `count` of them and each lies below `bound`.
#[verifier::external_body]
fn draw_unseeded(bound: u64, count: usize) -> (draws: Vec<u64>)
    requires
        bound > 0,
    ensures
        draws@.len() == count,
        forall|i: int| 0 <= i < draws@.len() ==> #[trigger] draws@[i] < bound,
{
    let rng = match SmallRng::from_rng(thread_rng()) {
        Ok(rng) => rng,
        Err(_) => SmallRng::from_entropy(),
    };
    rng.sample_iter(Uniform::new(0, bound)).take(count).collect()
}

/// Feeds `value` to `hasher` through `std::hash::Hash::hash`. What the hasher
/// holds afterwards is decided by the `Hash` impl of `T`: nothing is claimed.
#[verifier::external_body]
fn feed<T: Hash>(value: &T, hasher: &mut DefaultHasher) {
    value.hash(hasher);
}

/// Takes consecutive draws two by two.
fn pair_up(draws: &Vec<u64>) -> (pairs: Vec<(u64, u64)>)
    ensures
        pairs@ == paired(draws@),
{
    let count: usize = draws.len() / 2;
    let mut pairs: Vec<(u64, u64)> = Vec::new();
    let mut i: usize = 0;
    while i < count
        invariant
            count == draws.len() / 2,
            i <= count,
            pairs@.len() == i,
            forall|j: int| 0 <= j < i ==> #[trigger] pairs@[j] == (draws@[2 * j], draws@[2 * j + 1]),
        decreases count - i,
    {
        pairs.push((draws[2 * i], draws[2 * i + 1]));
        i = i + 1;
    }
    assert(pairs@ =~= paired(draws@));
    pairs
}

impl MinHash {
    /// What `new` hands back for a given length and seed.
    pub open spec fn constructed(
        num_perm: usize,
        seed: Option<u64>,
        outcome: Result<MinHash, MinHashingError>,
    ) -> bool {
        match outcome {
            Err(e) => num_perm < 2 && e == MinHashingError::NumPermFuncsTooLow,
            Ok(sketch) => {
                &&& num_perm >= 2
                &&& sketch@.wf()
                &&& sketch@ == Sketch::empty(num_perm as nat, seed, sketch@.permutations)
                &&& forall|i: int|
                    0 <= i < sketch@.permutations.len() ==> (#[trigger] sketch@.permutations[i]).0
                        < MAX_HASH && sketch@.permutations[i].1 < MAX_HASH
                &&& seed matches Some(s) ==> sketch@.permutations == Sketch::seeded_permutations(
                    num_perm as nat,
                    s,
                )
            },
        }
    }

    /// Two sketches made with the same length and the same seed have the
    /// same signature and the same permutation functions.
    pub proof fn lemma_same_seed_same_sketch(
        num_perm: usize,
        seed: u64,
        first: MinHash,
        second: MinHash,
    )
        requires
            Self::constructed(num_perm, Some(seed), Ok(first)),
            Self::constructed(num_perm, Some(seed), Ok(second)),
        ensures
            first@.signature == second@.signature,
            first@.permutations == second@.permutations,
            first@ == second@,
    {
    }

    /// A sketch of the empty set with `num_perm` slots. With a seed the
    /// permutation functions are the ones that the seed names; without one
    /// they are drawn from the system's entropy. Fewer than two slots are
    /// refused.
    pub fn new(num_perm: usize, seed: Option<u64>) -> (outcome: Result<MinHash, MinHashingError>)
        requires
            2 * num_perm <= usize::MAX,
        ensures
            Self::constructed(num_perm, seed, outcome),
    {
        if num_perm < 2 {
            return Err(MinHashingError::NumPermFuncsTooLow);
        }
        let hash_values = Self::init_hash_values(num_perm);
        let permutations = Self::init_permutations(num_perm, seed);
        let sketch = MinHash { seed, num_perm, hash_values, permutations };
        assert(sketch@.signature =~= Seq::new(num_perm as nat, |i: int| MAX_HASH));
        Ok(sketch)
    }

    fn init_hash_values(num_perm: usize) -> (values: HashValues)
        ensures
            values.0@ == Seq::new(num_perm as nat, |i: int| MAX_HASH),
    {
        let mut slots: Vec<u64> = Vec::new();
        let mut i: usize = 0;
        while i < num_perm
            invariant
                i <= num_perm,
                slots@.len() == i,
                forall|j: int| 0 <= j < i ==> #[trigger] slots@[j] == MAX_HASH,
            decreases num_perm - i,
        {
            slots.push(MAX_HASH);
            i = i + 1;
        }
        assert(slots@ =~= Seq::new(num_perm as nat, |i: int| MAX_HASH));
        HashValues(slots)
    }

    fn init_permutations(num_perm: usize, seed: Option<u64>) -> (permutations: Vec<(u64, u64)>)
        requires
            2 * num_perm <= usize::MAX,
        ensures
            permutations@.len() == num_perm,
            forall|i: int|
                0 <= i < permutations@.len() ==> (#[trigger] permutations@[i]).0 < MAX_HASH
                    && permutations@[i].1 < MAX_HASH,
            seed matches Some(s) ==> permutations@ == Sketch::seeded_permutations(
                num_perm as nat,
                s,
            ),
    {
        let draws = match seed {
            Some(s) => draw_seeded(s, MAX_HASH, 2 * num_perm),
            None => draw_unseeded(MAX_HASH, 2 * num_perm),
        };
        pair_up(&draws)
    }

    /// The seed that the sketch was made with.
    pub fn seed(&self) -> (seed: Option<u64>)
        ensures
            seed == self@.seed,
    {
        self.seed
    }

    /// The number of slots of the signature.
    pub fn num_perm(&self) -> (num_perm: usize)
        ensures
            num_perm == self@.num_perm,
    {
        self.num_perm
    }

    /// The permutation functions, one pair `(a, b)` for each slot.
    pub fn permutations(&self) -> (permutations: &Vec<(u64, u64)>)
        ensures
            permutations@ == self@.permutations,
    {
        &self.permutations
    }

    /// The signature, one value for each slot.
    pub fn signature(&self) -> (signature: &Vec<u64>)
        ensures
            signature@ == self@.signature,
    {
        &self.hash_values.0
    }

    /// Feeds an element to the sketch: hashes it, and lowers every slot to the
    /// permuted hash where that is smaller. Which hash the element has is up
    /// to its `Hash` impl; whatever it is, the sketch is the old one updated
    /// with it, and no slot has risen.
    pub fn update<T: Hash>(&mut self, value_to_be_hashed: &T)
        requires
            old(self)@.wf(),
        ensures
            exists|hash: u64| final(self)@ == old(self)@.updated(hash),
            final(self)@.wf(),
            final(self)@.seed == old(self)@.seed,
            final(self)@.num_perm == old(self)@.num_perm,
            final(self)@.permutations == old(self)@.permutations,
            final(self)@.signature.len() == old(self)@.signature.len(),
            forall|i: int|
                0 <= i < old(self)@.signature.len() ==> #[trigger] final(self)@.signature[i] <= old(
                    self,
                )@.signature[i],
    {
        let mut hasher = DefaultHasher::new();
        feed(value_to_be_hashed, &mut hasher);
        let hash = hasher.finish();
        self.update_hash(hash);
        proof {
            lemma_update_monotone(old(self)@, hash);
        }
    }

    /// Feeds an element to the sketch by its 64-bit hash, of which the low
    /// 32 bits count.
    pub fn update_hash(&mut self, hash: u64)
        requires
            old(self)@.wf(),
        ensures
            final(self)@ == old(self)@.updated(hash),
            final(self)@.wf(),
            forall|i: int|
                0 <= i < old(self)@.signature.len() ==> #[trigger] final(self)@.signature[i] <= old(
                    self,
                )@.signature[i],
    {
        let hash_value: u64 = hash & MAX_HASH;
        assert(hash & 4294967295 == hash % 4294967296) by (bit_vector);
        let ghost before = self@;
        let mut i: usize = 0;
        while i < self.num_perm
            invariant
                before.wf(),
                hash_value == low_bits(hash),
                i <= self.num_perm,
                self@.seed == before.seed,
                self@.num_perm == before.num_perm,
                self@.permutations == before.permutations,
                self@.signature.len() == before.signature.len(),
                forall|j: int|
                    0 <= j < i ==> #[trigger] self@.signature[j] == lower(
                        before.signature[j],
                        permute(before.permutations[j].0, before.permutations[j].1, hash_value),
                    ),
                forall|j: int|
                    i <= j < before.signature.len() ==> #[trigger] self@.signature[j]
                        == before.signature[j],
            decreases self.num_perm - i,
        {
            let (a, b) = self.permutations[i];
            assert(before.permutations[i as int].0 <= MAX_HASH);
            assert(a * hash_value <= 4294967295 * 4294967295) by (nonlinear_arith)
                requires
                    a <= 4294967295,
                    hash_value <= 4294967295,
            ;
            let mixed: u64 = (a * hash_value + b) % MERSENNE_PRIME;
            let permuted: u64 = mixed & MAX_HASH;
            assert(mixed & 4294967295 == mixed % 4294967296) by (bit_vector);
            if permuted < self.hash_values.0[i] {
                self.hash_values.0[i] = permuted;
            }
            i = i + 1;
        }
        assert(self@.signature =~= before.updated(hash).signature);
        proof {
            lemma_update_monotone(before, hash);
        }
    }

    /// Estimates the Jaccard similarity of the two sketched sets: the number
    /// of slots on which the signatures agree, out of the number of slots.
    /// Sketches with different seeds, or with signatures of different
    /// lengths, are not compared.
    pub fn jaccard(&self, other_minhash: &MinHash) -> (outcome: Result<
        JaccardEstimate,
        MinHashingError,
    >)
        ensures
            outcome == self@.jaccard(other_minhash@),
            outcome matches Ok(estimate) ==> estimate.matches <= estimate.num_perm,
    {
        if other_minhash.seed != self.seed {
            return Err(MinHashingError::DifferentSeeds);
        }
        if other_minhash.hash_values.0.len() != self.hash_values.0.len() {
            return Err(MinHashingError::DifferentNumPermFuncs);
        }
        let len: usize = self.hash_values.0.len();
        let mut matches: usize = 0;
        let mut i: usize = 0;
        while i < len
            invariant
                len == self.hash_values.0@.len(),
                len == other_minhash.hash_values.0@.len(),
                i <= len,
                matches <= i,
                matches == count_matches(
                    self.hash_values.0@.take(i as int),
                    other_minhash.hash_values.0@.take(i as int),
                ),
            decreases len - i,
        {
            proof {
                let left = self.hash_values.0@.take(i + 1);
                let right = other_minhash.hash_values.0@.take(i + 1);
                assert(left.drop_last() =~= self.hash_values.0@.take(i as int));
                assert(right.drop_last() =~= other_minhash.hash_values.0@.take(i as int));
            }
            if self.hash_values.0[i] == other_minhash.hash_values.0[i] {
                matches = matches + 1;
            }
            i = i + 1;
        }
        assert(self.hash_values.0@.take(len as int) =~= self.hash_values.0@);
        assert(other_minhash.hash_values.0@.take(len as int) =~= other_minhash.hash_values.0@);
        Ok(JaccardEstimate { matches, num_perm: len })
    }
}

} // verus!
