//! Duplicate detection: a reference-frame sweep over pairwise dissimilarity
//! scores.
//!
//! Frame `0` is the first reference.  Every kept frame is compared, in
//! order, against every later frame that is still live; a frame whose score
//! against the reference falls strictly below the threshold is discarded and
//! never acts as a reference itself, nor is it re-evaluated against a later
//! reference — the first reference that claims a frame wins.
//!
//! The metric itself is external to this crate.  Scores arrive one pair at a
//! time through [`Detector::step`], so the caller computes a score only when
//! the engine actually needs one; [`detect`] runs the same sweep over a
//! score matrix held in memory and carries the full correctness statement.

use vstd::prelude::*;

verus! {

/// `scores` is an `n` by `n` matrix; only entries above the diagonal
/// (`i < j`) are ever consulted.
pub open spec fn square_matrix(scores: Seq<Seq<u64>>, n: nat) -> bool {
    &&& scores.len() == n
    &&& forall|i: int| 0 <= i < n ==> (#[trigger] scores[i]).len() == n
}

/// Keep flags of the first `n` frames, decided frame by frame: a frame is
/// kept (flag `true`) unless some earlier kept frame scores strictly below
/// the threshold against it.
pub open spec fn keep_flags(scores: Seq<Seq<u64>>, threshold: u64, n: nat) -> Seq<bool>
    decreases n,
{
    if n == 0 {
        Seq::empty()
    } else {
        let prev = keep_flags(scores, threshold, (n - 1) as nat);
        prev.push(forall|i: int| 0 <= i < n - 1 && prev[i] ==> scores[i][n - 1] >= threshold)
    }
}

/// A frame is kept exactly when no earlier kept frame scores strictly below
/// the threshold against it (see [`lemma_kept_characterization`]).  Every
/// discarded frame is therefore a near-duplicate of some earlier kept
/// frame, and the earliest frame of each duplicate run is the one that
/// survives.  Positions before the sequence are vacuously kept.
pub open spec fn kept(scores: Seq<Seq<u64>>, threshold: u64, j: int) -> bool {
    j < 0 || keep_flags(scores, threshold, (j + 1) as nat)[j]
}

pub proof fn lemma_keep_flags_len(scores: Seq<Seq<u64>>, threshold: u64, n: nat)
    ensures
        keep_flags(scores, threshold, n).len() == n,
    decreases n,
{
    if n > 0 {
        lemma_keep_flags_len(scores, threshold, (n - 1) as nat);
    }
}

/// The flag of one frame does not depend on how many later frames the
/// flags were computed for.
pub proof fn lemma_keep_flags_elem(scores: Seq<Seq<u64>>, threshold: u64, n: nat, k: int)
    requires
        0 <= k < n,
    ensures
        keep_flags(scores, threshold, n)[k] == kept(scores, threshold, k),
    decreases n,
{
    lemma_keep_flags_len(scores, threshold, n);
    lemma_keep_flags_len(scores, threshold, (n - 1) as nat);
    if k < n - 1 {
        lemma_keep_flags_elem(scores, threshold, (n - 1) as nat, k);
    }
}

/// The defining property of [`kept`], stated in terms of `kept` itself.
pub proof fn lemma_kept_characterization(scores: Seq<Seq<u64>>, threshold: u64, j: int)
    requires
        j >= 0,
    ensures
        kept(scores, threshold, j) == (forall|i: int|
            0 <= i < j && #[trigger] kept(scores, threshold, i) ==> scores[i][j] >= threshold),
{
    let n = (j + 1) as nat;
    lemma_keep_flags_len(scores, threshold, n);
    lemma_keep_flags_len(scores, threshold, j as nat);
    let prev = keep_flags(scores, threshold, j as nat);
    assert(keep_flags(scores, threshold, n) == prev.push(
        forall|i: int| 0 <= i < j && prev[i] ==> scores[i][j] >= threshold,
    ));
    assert forall|i: int| 0 <= i < j implies prev[i] == kept(scores, threshold, i) by {
        lemma_keep_flags_elem(scores, threshold, j as nat, i);
    }
    if kept(scores, threshold, j) {
        assert(forall|i: int| 0 <= i < j && prev[i] ==> scores[i][j] >= threshold);
        assert forall|i: int|
            0 <= i < j && #[trigger] kept(scores, threshold, i) implies scores[i][j]
            >= threshold by {
            assert(prev[i]);
        }
    } else {
        let i = choose|i: int| !(0 <= i < j && prev[i] ==> scores[i][j] >= threshold);
        assert(0 <= i < j && kept(scores, threshold, i) && scores[i][j] < threshold);
    }
}

/// The indices the sweep discards: everything that is not kept.
pub open spec fn discard_set(scores: Seq<Seq<u64>>, threshold: u64, n: nat) -> Set<int> {
    Set::new(|j: int| 0 <= j < n && !kept(scores, threshold, j))
}

/// A pair the sweep still has to score: both frames live, target after
/// reference.
pub open spec fn comparable(d: Seq<bool>, a: int, b: int) -> bool {
    &&& 0 <= a < b < d.len()
    &&& !d[a]
    &&& !d[b]
}

/// `(a0, b0)` comes strictly before `(a1, b1)` in the sweep's order:
/// references ascend, and targets ascend within one reference.
pub open spec fn lex_before(a0: int, b0: int, a1: int, b1: int) -> bool {
    a0 < a1 || (a0 == a1 && b0 < b1)
}

/// `(i1, j1)` is where the sweep stands after leaving `(i0, j0)` with flags
/// `d`: the earliest comparable pair after `(i0, j0)`, or past the end when
/// none is left.
pub open spec fn next_position_after(d: Seq<bool>, i0: int, j0: int, i1: int, j1: int) -> bool {
    if exists|a: int, b: int| #[trigger] comparable(d, a, b) && lex_before(i0, j0, a, b) {
        &&& comparable(d, i1, j1)
        &&& lex_before(i0, j0, i1, j1)
        &&& forall|a: int, b: int|
            #[trigger] comparable(d, a, b) && lex_before(i0, j0, a, b) ==> !lex_before(
                a,
                b,
                i1,
                j1,
            )
    } else {
        i1 == d.len() && j1 == d.len()
    }
}

/// The engine's incremental state.  The caller asks for the current pair,
/// scores it with the external metric, and hands the score back through
/// [`Detector::step`]; the engine never sees a descriptor.
pub struct Detector {
    /// Encoded dissimilarity threshold; a pair is a duplicate when its score
    /// is strictly below it.
    pub threshold: u64,
    /// Reference index of the pair under comparison; equal to the frame
    /// count once the sweep is finished.
    pub i: usize,
    /// Target index of the pair under comparison.
    pub j: usize,
    /// One discard flag per frame.
    pub discarded: Vec<bool>,
}

impl Detector {
    /// Number of frames under consideration.
    pub open spec fn n(self) -> int {
        self.discarded@.len() as int
    }

    /// The sweep has scored every pair it ever will.
    pub open spec fn done_spec(self) -> bool {
        self.i >= self.n()
    }

    /// Either finished, or standing at a pair that needs a score.
    pub open spec fn wf(self) -> bool {
        if self.done_spec() {
            self.i == self.n() && self.j == self.n()
        } else {
            comparable(self.discarded@, self.i as int, self.j as int)
        }
    }

    /// Starts a sweep over `n` frames.  With fewer than two frames there is
    /// no pair to score and the sweep is born finished.
    pub fn new(n: usize, threshold: u64) -> (r: Detector)
        ensures
            r.wf(),
            r.threshold == threshold,
            r.n() == n,
            r.discarded@ == Seq::new(n as nat, |k: int| false),
            n >= 2 ==> r.i == 0 && r.j == 1,
            n < 2 ==> r.done_spec(),
    {
        let mut discarded: Vec<bool> = Vec::new();
        let mut k: usize = 0;
        while k < n
            invariant
                k <= n,
                discarded@ =~= Seq::new(k as nat, |q: int| false),
            decreases n - k,
        {
            discarded.push(false);
            k = k + 1;
        }
        if n >= 2 {
            Detector { threshold, i: 0, j: 1, discarded }
        } else {
            Detector { threshold, i: n, j: n, discarded }
        }
    }

    /// True once no pair is left to score.
    pub fn done(&self) -> (r: bool)
        ensures
            r == self.done_spec(),
    {
        self.i >= self.discarded.len()
    }

    /// The pair whose score the engine is waiting for.
    pub fn current(&self) -> (r: (usize, usize))
        requires
            self.wf(),
            !self.done_spec(),
        ensures
            r.0 == self.i,
            r.1 == self.j,
            comparable(self.discarded@, r.0 as int, r.1 as int),
    {
        (self.i, self.j)
    }

    /// Records the score of the current pair and moves to the next pair
    /// that needs one.  A score strictly below the threshold discards the
    /// target; the sweep then advances to the earliest comparable pair, or
    /// finishes when none is left.
    pub fn step(&mut self, score: u64)
        requires
            old(self).wf(),
            !old(self).done_spec(),
        ensures
            final(self).wf(),
            final(self).threshold == old(self).threshold,
            final(self).n() == old(self).n(),
            final(self).discarded@ == (if score < old(self).threshold {
                old(self).discarded@.update(old(self).j as int, true)
            } else {
                old(self).discarded@
            }),
            next_position_after(
                final(self).discarded@,
                old(self).i as int,
                old(self).j as int,
                final(self).i as int,
                final(self).j as int,
            ),
            lex_before(
                old(self).i as int,
                old(self).j as int,
                final(self).i as int,
                final(self).j as int,
            ),
    {
        let n = self.discarded.len();
        let i0 = self.i;
        let j0 = self.j;
        if score < self.threshold {
            self.discarded.set(j0, true);
        }
        let ghost d1 = self.discarded@;
        assert(!d1[i0 as int]);

        // Look for the current reference's next live target.
        let mut j: usize = j0 + 1;
        while j < n && self.discarded[j]
            invariant
                j0 < j <= n,
                n == d1.len(),
                self.discarded@ == d1,
                forall|k: int| j0 < k < j ==> d1[k],
            decreases n - j,
        {
            j = j + 1;
        }
        if j < n {
            self.j = j;
            assert(comparable(d1, i0 as int, j as int));
            assert forall|a: int, b: int|
                comparable(d1, a, b) && lex_before(i0 as int, j0 as int, a, b) implies !lex_before(
                a,
                b,
                i0 as int,
                j as int,
            ) by {
                if lex_before(a, b, i0 as int, j as int) {
                    assert(a == i0 && j0 < b < j);
                    assert(d1[b]);
                }
            }
            return ;
        }
        assert(forall|k: int| j0 < k < n ==> d1[k]);

        // The current reference is exhausted: look for the next live
        // reference, then for its first live target.
        let mut i2: usize = i0 + 1;
        while i2 < n && self.discarded[i2]
            invariant
                i0 < i2 <= n,
                n == d1.len(),
                self.discarded@ == d1,
                forall|k: int| i0 < k < i2 ==> d1[k],
            decreases n - i2,
        {
            i2 = i2 + 1;
        }
        if i2 < n {
            let mut j2: usize = i2 + 1;
            while j2 < n && self.discarded[j2]
                invariant
                    i2 < j2 <= n,
                    n == d1.len(),
                    self.discarded@ == d1,
                    forall|k: int| i2 < k < j2 ==> d1[k],
                decreases n - j2,
            {
                j2 = j2 + 1;
            }
            if j2 < n {
                self.i = i2;
                self.j = j2;
                assert(comparable(d1, i2 as int, j2 as int));
                assert forall|a: int, b: int|
                    comparable(d1, a, b) && lex_before(i0 as int, j0 as int, a, b)
                    implies !lex_before(a, b, i2 as int, j2 as int) by {
                    if lex_before(a, b, i2 as int, j2 as int) {
                        if a == i0 {
                            assert(j0 < b < n);
                            assert(d1[b]);
                        } else if a < i2 {
                            assert(d1[a]);
                        } else {
                            assert(a == i2 && i2 < b < j2);
                            assert(d1[b]);
                        }
                    }
                }
                return ;
            }
            // No live target after the next reference: nothing is live past
            // it, so no reference after it has a target either.
            self.i = n;
            self.j = n;
            assert forall|a: int, b: int|
                !(comparable(d1, a, b) && lex_before(i0 as int, j0 as int, a, b)) by {
                if comparable(d1, a, b) && lex_before(i0 as int, j0 as int, a, b) {
                    if a == i0 {
                        assert(d1[b]);
                    } else if a < i2 {
                        assert(d1[a]);
                    } else {
                        assert(i2 < b < n);
                        assert(d1[b]);
                    }
                }
            }
            return ;
        }
        // Nothing live after the current reference at all.
        self.i = n;
        self.j = n;
        assert forall|a: int, b: int|
            !(comparable(d1, a, b) && lex_before(i0 as int, j0 as int, a, b)) by {
            if comparable(d1, a, b) && lex_before(i0 as int, j0 as int, a, b) {
                if a == i0 {
                    assert(d1[b]);
                } else {
                    assert(d1[a]);
                }
            }
        }
    }

    /// The discard flags, one per frame, in frame order.
    pub fn into_flags(self) -> (r: Vec<bool>)
        ensures
            r@ == self.discarded@,
    {
        self.discarded
    }
}

/// Frame `k` has been discarded once the sweep stands at `(i, j)` exactly
/// when some kept frame before it scored below the threshold against it in
/// a comparison the sweep has already made.
spec fn marked(scores: Seq<Seq<u64>>, threshold: u64, i: int, j: int, k: int) -> bool {
    exists|a: int|
        {
            &&& 0 <= a < k
            &&& #[trigger] kept(scores, threshold, a)
            &&& scores[a][k] < threshold
            &&& (a < i || (a == i && k < j))
        }
}

/// A frame is discarded exactly when some earlier kept frame scores below
/// the threshold against it: the negation of [`kept`]'s defining clause.
pub proof fn lemma_not_kept_characterization(scores: Seq<Seq<u64>>, threshold: u64, j: int)
    requires
        j >= 0,
    ensures
        !kept(scores, threshold, j) <==> exists|i: int|
            0 <= i < j && #[trigger] kept(scores, threshold, i) && scores[i][j] < threshold,
{
    lemma_kept_characterization(scores, threshold, j);
    if exists|i: int|
        0 <= i < j && #[trigger] kept(scores, threshold, i) && scores[i][j] < threshold {
        let i = choose|i: int|
            0 <= i < j && #[trigger] kept(scores, threshold, i) && scores[i][j] < threshold;
        assert(!(0 <= i < j && kept(scores, threshold, i) ==> scores[i][j] >= threshold));
    }
    if !kept(scores, threshold, j) {
        let i = choose|i: int|
            !(0 <= i < j && #[trigger] kept(scores, threshold, i) ==> scores[i][j] >= threshold);
        assert(0 <= i < j && kept(scores, threshold, i) && scores[i][j] < threshold);
    }
}

/// Whatever has discarded a frame also shows that the frame is not kept.
proof fn lemma_marked_implies_not_kept(
    scores: Seq<Seq<u64>>,
    threshold: u64,
    i: int,
    j: int,
    k: int,
)
    requires
        marked(scores, threshold, i, j, k),
    ensures
        !kept(scores, threshold, k),
{
    let a = choose|a: int|
        {
            &&& 0 <= a < k
            &&& #[trigger] kept(scores, threshold, a)
            &&& scores[a][k] < threshold
            &&& (a < i || (a == i && k < j))
        };
    assert(kept(scores, threshold, a) && scores[a][k] < threshold);
    lemma_not_kept_characterization(scores, threshold, k);
}

/// A discard, once made, survives every later sweep position.
proof fn lemma_marked_monotone(
    scores: Seq<Seq<u64>>,
    threshold: u64,
    i0: int,
    j0: int,
    i1: int,
    j1: int,
    k: int,
)
    requires
        marked(scores, threshold, i0, j0, k),
        i0 < i1 || (i0 == i1 && j0 <= j1),
    ensures
        marked(scores, threshold, i1, j1, k),
{
    let a = choose|a: int|
        {
            &&& 0 <= a < k
            &&& #[trigger] kept(scores, threshold, a)
            &&& scores[a][k] < threshold
            &&& (a < i0 || (a == i0 && k < j0))
        };
    assert(a < i1 || (a == i1 && k < j1));
}

/// One scored pair moves the flags from matching the sweep's old position
/// to matching its new one: marking the target (when the score is below the
/// threshold) and skipping dead pairs changes nothing else.
proof fn lemma_sweep_advance(
    m: Seq<Seq<u64>>,
    threshold: u64,
    d0: Seq<bool>,
    i0: int,
    j0: int,
    d1: Seq<bool>,
    i1: int,
    j1: int,
)
    requires
        comparable(d0, i0, j0),
        forall|k: int| 0 <= k < d0.len() ==> d0[k] == marked(m, threshold, i0, j0, k),
        d1 == (if m[i0][j0] < threshold {
            d0.update(j0, true)
        } else {
            d0
        }),
        next_position_after(d1, i0, j0, i1, j1),
    ensures
        forall|k: int| 0 <= k < d1.len() ==> d1[k] == marked(m, threshold, i1, j1, k),
{
    let n = d0.len() as int;
    let score = m[i0][j0];
    assert(kept(m, threshold, i0)) by {
        if !kept(m, threshold, i0) {
            lemma_not_kept_characterization(m, threshold, i0);
            let a = choose|a: int|
                0 <= a < i0 && #[trigger] kept(m, threshold, a) && m[a][i0] < threshold;
            assert(marked(m, threshold, i0, j0, i0));
        }
    }
    // After scoring the current pair, the flags match position (i0, j0 + 1).
    assert forall|k: int| 0 <= k < n implies d1[k] == marked(m, threshold, i0, j0 + 1, k) by {
        if k != j0 {
            if marked(m, threshold, i0, j0, k) {
                lemma_marked_monotone(m, threshold, i0, j0, i0, j0 + 1, k);
            }
            if marked(m, threshold, i0, j0 + 1, k) {
                let a = choose|a: int|
                    {
                        &&& 0 <= a < k
                        &&& #[trigger] kept(m, threshold, a)
                        &&& m[a][k] < threshold
                        &&& (a < i0 || (a == i0 && k < j0 + 1))
                    };
                assert(marked(m, threshold, i0, j0, k));
            }
        } else {
            if score < threshold {
                assert(marked(m, threshold, i0, j0 + 1, j0));
            } else {
                if marked(m, threshold, i0, j0 + 1, j0) {
                    let a = choose|a: int|
                        {
                            &&& 0 <= a < j0
                            &&& #[trigger] kept(m, threshold, a)
                            &&& m[a][j0] < threshold
                            &&& (a < i0 || (a == i0 && j0 < j0 + 1))
                        };
                    if a == i0 {
                        assert(false);
                    } else {
                        assert(marked(m, threshold, i0, j0, j0));
                        assert(false);
                    }
                }
            }
        }
    }
    // Skipping over dead pairs to the next position adds no discards.
    if exists|a: int, b: int| #[trigger] comparable(d1, a, b) && lex_before(i0, j0, a, b) {
        assert forall|k: int| 0 <= k < n implies d1[k] == marked(m, threshold, i1, j1, k) by {
            if marked(m, threshold, i0, j0 + 1, k) {
                lemma_marked_monotone(m, threshold, i0, j0 + 1, i1, j1, k);
            }
            if marked(m, threshold, i1, j1, k) && !marked(m, threshold, i0, j0 + 1, k) {
                let a = choose|a: int|
                    {
                        &&& 0 <= a < k
                        &&& #[trigger] kept(m, threshold, a)
                        &&& m[a][k] < threshold
                        &&& (a < i1 || (a == i1 && k < j1))
                    };
                assert(!d1[a]) by {
                    if d1[a] {
                        lemma_marked_implies_not_kept(m, threshold, i0, j0 + 1, a);
                    }
                }
                assert(lex_before(i0, j0, a, k));
                assert(d1[k]) by {
                    if !d1[k] {
                        assert(comparable(d1, a, k));
                        assert(lex_before(a, k, i1, j1));
                    }
                }
                assert(false);
            }
        }
    } else {
        assert(i1 == n && j1 == n);
        assert forall|k: int| 0 <= k < n implies d1[k] == marked(m, threshold, i1, j1, k) by {
            if marked(m, threshold, i0, j0 + 1, k) {
                lemma_marked_monotone(m, threshold, i0, j0 + 1, i1, j1, k);
            }
            if marked(m, threshold, i1, j1, k) && !marked(m, threshold, i0, j0 + 1, k) {
                let a = choose|a: int|
                    {
                        &&& 0 <= a < k
                        &&& #[trigger] kept(m, threshold, a)
                        &&& m[a][k] < threshold
                        &&& (a < i1 || (a == i1 && k < j1))
                    };
                assert(!d1[a]) by {
                    if d1[a] {
                        lemma_marked_implies_not_kept(m, threshold, i0, j0 + 1, a);
                    }
                }
                assert(lex_before(i0, j0, a, k));
                assert(d1[k]) by {
                    if !d1[k] {
                        assert(comparable(d1, a, k) && lex_before(i0, j0, a, k));
                    }
                }
                assert(false);
            }
        }
    }
}

/// Once the sweep has passed every pair, the discards are exactly the
/// frames that are not kept.
proof fn lemma_marked_at_end(scores: Seq<Seq<u64>>, threshold: u64, n: int, k: int)
    requires
        0 <= k < n,
    ensures
        marked(scores, threshold, n, n, k) <==> !kept(scores, threshold, k),
{
    lemma_not_kept_characterization(scores, threshold, k);
    if !kept(scores, threshold, k) {
        let a = choose|a: int|
            0 <= a < k && #[trigger] kept(scores, threshold, a) && scores[a][k] < threshold;
        assert(a < n);
    }
}

/// With threshold zero no score lies strictly below the threshold, so every
/// frame is kept and nothing is discarded.
pub proof fn lemma_zero_threshold_discards_nothing(scores: Seq<Seq<u64>>, n: nat)
    ensures
        forall|j: int| #[trigger] kept(scores, 0, j),
        discard_set(scores, 0, n) =~= Set::empty(),
{
    assert forall|j: int| #[trigger] kept(scores, 0, j) by {
        if j >= 0 {
            lemma_kept_characterization(scores, 0, j);
        }
    }
}

/// The first frame acts as a reference before anything else can claim it,
/// so it is never discarded, whatever the scores and the threshold.
pub proof fn lemma_first_frame_kept(scores: Seq<Seq<u64>>, threshold: u64)
    ensures
        kept(scores, threshold, 0),
        forall|n: nat| !(#[trigger] discard_set(scores, threshold, n)).contains(0),
{
    lemma_kept_characterization(scores, threshold, 0);
}

/// A constant sequence — every pair scores zero — collapses to its first
/// frame under any positive threshold: frame 0 is kept and every later
/// frame is discarded.
pub proof fn lemma_constant_sequence_keeps_only_first(
    scores: Seq<Seq<u64>>,
    threshold: u64,
    n: nat,
)
    requires
        threshold > 0,
        forall|i: int, j: int| #![trigger scores[i][j]] 0 <= i < j < n ==> scores[i][j] == 0,
    ensures
        forall|j: int| 0 <= j < n ==> (#[trigger] kept(scores, threshold, j) <==> j == 0),
        discard_set(scores, threshold, n) =~= Set::new(|j: int| 1 <= j < n),
{
    lemma_kept_characterization(scores, threshold, 0);
    assert forall|j: int| 1 <= j < n implies !(#[trigger] kept(scores, threshold, j)) by {
        lemma_not_kept_characterization(scores, threshold, j);
        assert(scores[0][j] == 0);
        assert(kept(scores, threshold, 0) && scores[0][j] < threshold);
    }
}

/// The score matrix a vector of rows stands for.
pub open spec fn matrix_view(scores: Seq<Vec<u64>>) -> Seq<Seq<u64>> {
    scores.map(|i: int, row: Vec<u64>| row@)
}

/// Runs the whole sweep over a score matrix held in memory and returns the
/// discard flags: `r[k]` is true exactly when frame `k` is a duplicate of
/// an earlier kept frame.
pub fn detect(scores: &Vec<Vec<u64>>, threshold: u64) -> (r: Vec<bool>)
    requires
        square_matrix(matrix_view(scores@), scores@.len() as nat),
    ensures
        r@.len() == scores@.len(),
        forall|k: int|
            0 <= k < r@.len() ==> r@[k] == !kept(matrix_view(scores@), threshold, k),
        forall|k: int|
            #![trigger r@[k]]
            0 <= k < r@.len() ==> (r@[k] <==> discard_set(
                matrix_view(scores@),
                threshold,
                scores@.len() as nat,
            ).contains(k)),
{
    let ghost m = matrix_view(scores@);
    let n = scores.len();
    let mut det = Detector::new(n, threshold);
    proof {
        assert forall|k: int| 0 <= k < n implies !marked(m, threshold, det.i as int, det.j as int, k) by {
            if marked(m, threshold, det.i as int, det.j as int, k) {
                let a = choose|a: int|
                    {
                        &&& 0 <= a < k
                        &&& #[trigger] kept(m, threshold, a)
                        &&& m[a][k] < threshold
                        &&& (a < det.i as int || (a == det.i as int && k < det.j as int))
                    };
                if n >= 2 {
                    assert(a == 0 && k < 1);
                    assert(false);
                } else {
                    assert(k == 0 && a < 0);
                    assert(false);
                }
            }
        }
    }
    while !det.done()
        invariant
            det.wf(),
            det.threshold == threshold,
            det.n() == n,
            n == scores@.len(),
            m == matrix_view(scores@),
            square_matrix(m, n as nat),
            forall|k: int|
                0 <= k < n ==> det.discarded@[k] == marked(
                    m,
                    threshold,
                    det.i as int,
                    det.j as int,
                    k,
                ),
        decreases n - det.i, n - det.j,
    {
        let (ci, cj) = det.current();
        proof {
            assert(m[ci as int] == scores@[ci as int]@);
        }
        let row = &scores[ci];
        let score = row[cj];
        let ghost d0 = det.discarded@;
        let ghost pi = det.i as int;
        let ghost pj = det.j as int;
        det.step(score);
        proof {
            lemma_sweep_advance(
                m,
                threshold,
                d0,
                pi,
                pj,
                det.discarded@,
                det.i as int,
                det.j as int,
            );
        }
    }
    proof {
        assert forall|k: int| 0 <= k < n implies det.discarded@[k] == !kept(m, threshold, k) by {
            lemma_marked_at_end(m, threshold, n as int, k);
        }
    }
    det.into_flags()
}

} // verus!
