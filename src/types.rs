use vstd::prelude::*;

verus! {

/// Dense identifier of a point, in `[0, N)`.
pub type PointOffsetType = u32;

/// Similarity between two points: higher is closer.
pub type ScoreType = i64;

/// A point together with its score against some query.
#[derive(Clone, Copy, Debug, PartialEq, Eq, Structural)]
pub struct ScoredPointOffset {
    pub idx: PointOffsetType,
    pub score: ScoreType,
}

/// The total order on scored points: by score, ties broken by id.
pub open spec fn scored_lt(a: ScoredPointOffset, b: ScoredPointOffset) -> bool {
    a.score < b.score || (a.score == b.score && a.idx < b.idx)
}

/// Executable form of `scored_lt`.
pub fn scored_less(a: ScoredPointOffset, b: ScoredPointOffset) -> (r: bool)
    ensures
        r == scored_lt(a, b),
{
    a.score < b.score || (a.score == b.score && a.idx < b.idx)
}

/// Pairwise similarities of `num_points` points, held as a dense row-major
/// matrix: the score of `(a, b)` is at `a * num_points + b`.
pub struct PointsScorer {
    num_points: usize,
    scores: Vec<ScoreType>,
}

pub proof fn lemma_cell_in_matrix(a: nat, b: nat, n: nat)
    requires
        a < n,
        b < n,
    ensures
        a * n + b < n * n,
{
    assert(a * n + b < n * n) by (nonlinear_arith)
        requires
            a < n,
            b < n,
    ;
}

impl PointsScorer {
    /// Number of points scored.
    pub closed spec fn size(&self) -> nat {
        self.num_points as nat
    }

    /// The score of `a` against `b`.
    pub closed spec fn score_of(&self, a: int, b: int) -> ScoreType {
        self.scores@[a * self.num_points + b]
    }

    pub closed spec fn wf(&self) -> bool {
        self.scores@.len() == self.num_points * self.num_points && self.num_points
            * self.num_points <= usize::MAX
    }

    /// Builds a scorer from a row-major matrix; `None` unless the matrix is
    /// square with side `num_points`.
    pub fn new(num_points: usize, scores: Vec<ScoreType>) -> (r: Option<PointsScorer>)
        ensures
            r is None <==> scores@.len() != num_points * num_points,
            r matches Some(s) ==> s.wf() && s.size() == num_points && (forall|a: int, b: int|
                0 <= a < num_points && 0 <= b < num_points ==> #[trigger] s.score_of(a, b)
                    == scores@[a * num_points + b]),
    {
        if num_points.checked_mul(num_points) == Some(scores.len()) {
            Some(PointsScorer { num_points, scores })
        } else {
            None
        }
    }

    pub fn score_internal(&self, a: PointOffsetType, b: PointOffsetType) -> (r: ScoreType)
        requires
            self.wf(),
            a < self.size(),
            b < self.size(),
        ensures
            r == self.score_of(a as int, b as int),
    {
        proof {
            lemma_cell_in_matrix(a as nat, b as nat, self.num_points as nat);
        }
        self.scores[a as usize * self.num_points + b as usize]
    }
}

} // verus!
