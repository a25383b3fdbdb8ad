//! The band layout of an index, and the search for the layout with the
//! smallest weighted error.
//!
//! The errors themselves are integrals over probabilities. The search takes
//! them as scores: unsigned integers ordered as the errors are, with
//! `NO_SCORE` for an error that is not a finite number.

use vstd::prelude::*;

verus! {

/// The score of a layout whose error is not a finite number. Such a layout is
/// never chosen.
pub const NO_SCORE: u64 = 18446744073709551615;

/// A band layout: `b` bands of `r` rows each.
#[derive(Clone, Copy, Debug, PartialEq, Eq, Structural)]
pub struct LshParams {
    pub b: usize,
    pub r: usize,
}

/// Whether `b` bands of `r` rows are a layout that the search looks at for
/// signatures of `num_perm` slots.
pub open spec fn candidate(num_perm: int, b: int, r: int) -> bool {
    1 <= b <= num_perm && 1 <= r <= num_perm / b
}

/// The score that the table gives to `b` bands of `r` rows: the entry of row
/// `b - 1` at `r - 1`, and `NO_SCORE` where the table has none.
pub open spec fn score_at(scores: Seq<Vec<u64>>, b: int, r: int) -> u64 {
    if 1 <= b <= scores.len() && 1 <= r <= scores[b - 1]@.len() {
        scores[b - 1]@[r - 1]
    } else {
        NO_SCORE
    }
}

/// Whether the layout `(b1, r1)` is looked at before `(b2, r2)`: bands
/// ascend, and rows ascend within one number of bands.
pub open spec fn precedes(b1: int, r1: int, b2: int, r2: int) -> bool {
    b1 < b2 || (b1 == b2 && r1 < r2)
}

/// Whether `params` is the first candidate layout, in the order of the
/// search, among those of the smallest score, and that score is finite.
pub open spec fn is_optimal(num_perm: int, scores: Seq<Vec<u64>>, params: LshParams) -> bool {
    &&& candidate(num_perm, params.b as int, params.r as int)
    &&& score_at(scores, params.b as int, params.r as int) < NO_SCORE
    &&& forall|b: int, r: int|
        candidate(num_perm, b, r) ==> score_at(scores, params.b as int, params.r as int)
            <= #[trigger] score_at(scores, b, r)
    &&& forall|b: int, r: int|
        candidate(num_perm, b, r) && precedes(b, r, params.b as int, params.r as int)
            ==> score_at(scores, params.b as int, params.r as int) < #[trigger] score_at(
            scores,
            b,
            r,
        )
}

/// Whether no candidate layout has a finite score.
pub open spec fn none_finite(num_perm: int, scores: Seq<Vec<u64>>) -> bool {
    forall|b: int, r: int|
        candidate(num_perm, b, r) ==> #[trigger] score_at(scores, b, r) == NO_SCORE
}

/// The candidate layouts are those of at least one band and at least one row
/// that fit into the signature.
pub proof fn lemma_candidate_fits(num_perm: int, b: int, r: int)
    ensures
        candidate(num_perm, b, r) <==> (b >= 1 && r >= 1 && b * r <= num_perm),
{
    if b >= 1 {
        assert(r <= num_perm / b <==> b * r <= num_perm) by (nonlinear_arith)
            requires
                b >= 1,
        ;
        if r >= 1 && b * r <= num_perm {
            assert(b <= b * r) by (nonlinear_arith)
                requires
                    b >= 1,
                    r >= 1,
            ;
        }
    }
}

/// At most one layout is optimal.
pub proof fn lemma_optimal_unique(
    num_perm: int,
    scores: Seq<Vec<u64>>,
    first: LshParams,
    second: LshParams,
)
    requires
        is_optimal(num_perm, scores, first),
        is_optimal(num_perm, scores, second),
    ensures
        first == second,
{
    let s1 = score_at(scores, first.b as int, first.r as int);
    let s2 = score_at(scores, second.b as int, second.r as int);
    assert(s1 <= s2);
    assert(s2 <= s1);
    if precedes(first.b as int, first.r as int, second.b as int, second.r as int) {
        assert(s2 < s1);
    }
    if precedes(second.b as int, second.r as int, first.b as int, first.r as int) {
        assert(s1 < s2);
    }
}

/// Reads the score of a layout from the table.
fn lookup(scores: &Vec<Vec<u64>>, b: usize, r: usize) -> (score: u64)
    ensures
        score == score_at(scores@, b as int, r as int),
{
    if 1 <= b && b <= scores.len() {
        let row = &scores[b - 1];
        if 1 <= r && r <= row.len() {
            return row[r - 1];
        }
    }
    NO_SCORE
}

impl LshParams {
    /// Whether the layout has a band and a row at least and fits into a
    /// signature of `num_perm` slots.
    pub open spec fn fits(self, num_perm: int) -> bool {
        self.b >= 1 && self.r >= 1 && self.b * self.r <= num_perm
    }

    /// Searches the layouts `(b, r)` with `b >= 1`, `r >= 1` and
    /// `b * r <= num_perm`, bands ascending and rows ascending within them, for
    /// the smallest score; of several with that score the first one wins.
    /// `scores[b - 1][r - 1]` is the score of `(b, r)`. Where no layout has a
    /// finite score there is no answer.
    pub fn find_optimal_params(num_perm: usize, scores: &Vec<Vec<u64>>) -> (found: Option<
        LshParams,
    >)
        ensures
            match found {
                Some(params) => is_optimal(num_perm as int, scores@, params) && params.fits(
                    num_perm as int,
                ),
                None => none_finite(num_perm as int, scores@),
            },
    {
        let mut min_score: u64 = NO_SCORE;
        let mut opt: Option<LshParams> = None;
        let mut b: usize = 0;
        while b < num_perm
            invariant
                b <= num_perm,
                opt is None ==> min_score == NO_SCORE,
                opt matches Some(p) ==> {
                    &&& candidate(num_perm as int, p.b as int, p.r as int)
                    &&& p.b <= b
                    &&& score_at(scores@, p.b as int, p.r as int) == min_score
                    &&& min_score < NO_SCORE
                },
                forall|b1: int, r1: int|
                    candidate(num_perm as int, b1, r1) && b1 <= b ==> min_score
                        <= #[trigger] score_at(scores@, b1, r1),
                forall|b1: int, r1: int|
                    opt matches Some(p) && candidate(num_perm as int, b1, r1) && precedes(
                        b1,
                        r1,
                        p.b as int,
                        p.r as int,
                    ) ==> min_score < #[trigger] score_at(scores@, b1, r1),
            decreases num_perm - b,
        {
            let bands: usize = b + 1;
            let max_r: usize = num_perm / bands;
            let mut r: usize = 0;
            while r < max_r
                invariant
                    b < num_perm,
                    bands == b + 1,
                    max_r == num_perm / bands,
                    r <= max_r,
                    opt is None ==> min_score == NO_SCORE,
                    opt matches Some(p) ==> {
                        &&& candidate(num_perm as int, p.b as int, p.r as int)
                        &&& (p.b <= b || (p.b == bands && p.r <= r))
                        &&& score_at(scores@, p.b as int, p.r as int) == min_score
                        &&& min_score < NO_SCORE
                    },
                    forall|b1: int, r1: int|
                        candidate(num_perm as int, b1, r1) && (b1 <= b || (b1 == bands && r1 <= r))
                            ==> min_score <= #[trigger] score_at(scores@, b1, r1),
                    forall|b1: int, r1: int|
                        opt matches Some(p) && candidate(num_perm as int, b1, r1) && precedes(
                            b1,
                            r1,
                            p.b as int,
                            p.r as int,
                        ) ==> min_score < #[trigger] score_at(scores@, b1, r1),
                decreases max_r - r,
            {
                let rows: usize = r + 1;
                let score = lookup(scores, bands, rows);
                if score < min_score {
                    min_score = score;
                    opt = Some(LshParams { b: bands, r: rows });
                }
                r = rows;
            }
            b = bands;
        }
        proof {
            if let Some(p) = opt {
                lemma_candidate_fits(num_perm as int, p.b as int, p.r as int);
            }
        }
        opt
    }
}

} // verus!
