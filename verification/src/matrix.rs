//! Online classification statistics: the confusion matrix.
//!
//! The matrix counts every (true class, predicted class) pair it has seen,
//! keeps a bounded history of per-sample correctness (oldest evicted
//! first), and reports running accuracy as an exact ratio of counted
//! samples — the sum of all cells always equals the number of samples
//! seen, and the diagonal the number predicted correctly.

use vstd::prelude::*;
use crate::batch::{ScoreBuffer, lemma_flat_index};
use crate::errors::TrainError;

verus! {

/// The sum of a sequence of counters.
pub open spec fn seq_sum(s: Seq<u64>) -> nat
    decreases s.len(),
{
    if s.len() == 0 {
        0
    } else {
        seq_sum(s.drop_last()) + s.last() as nat
    }
}

/// The diagonal sum of the first `k` classes of a flat `nc` by `nc`
/// count block.
pub open spec fn diag_sum(s: Seq<u64>, nc: int, k: int) -> nat
    decreases k,
{
    if k <= 0 {
        0
    } else {
        diag_sum(s, nc, k - 1) + s[(k - 1) * nc + (k - 1)] as nat
    }
}

/// How many of the paired samples have true class `t` and predicted
/// class `p`.
pub open spec fn pair_count(preds: Seq<usize>, truths: Seq<usize>, t: usize, p: usize) -> nat
    decreases preds.len(),
{
    if preds.len() == 0 || truths.len() == 0 {
        0
    } else {
        pair_count(preds.drop_last(), truths.drop_last(), t, p) + (if truths.last() == t
            && preds.last() == p {
            1nat
        } else {
            0nat
        })
    }
}

/// How many of the paired samples are predicted correctly.
pub open spec fn match_count(preds: Seq<usize>, truths: Seq<usize>) -> nat
    decreases preds.len(),
{
    if preds.len() == 0 || truths.len() == 0 {
        0
    } else {
        match_count(preds.drop_last(), truths.drop_last()) + (if preds.last() == truths.last() {
            1nat
        } else {
            0nat
        })
    }
}

/// A history bounded to its capacity: the oldest entries beyond the
/// bound are evicted, the most recent kept. `None` means unbounded.
pub open spec fn bound_history(h: Seq<bool>, cap: Option<usize>) -> Seq<bool> {
    match cap {
        None => h,
        Some(c) => if h.len() <= c {
            h
        } else {
            h.skip(h.len() - c)
        },
    }
}

/// The correctness of each paired sample, in order.
pub open spec fn outcomes(preds: Seq<usize>, truths: Seq<usize>) -> Seq<bool> {
    Seq::new(preds.len(), |i: int| preds[i] == truths[i])
}

/// Whether `k` is the arg-max of the scores `s`: no score is higher, and
/// every earlier score is strictly lower, so ties break to the lowest
/// index.
pub open spec fn is_first_max(s: Seq<i64>, k: int) -> bool {
    &&& 0 <= k < s.len()
    &&& forall|j: int| 0 <= j < s.len() ==> s[j] <= s[k]
    &&& forall|j: int| 0 <= j < k ==> s[j] < s[k]
}

/// The arg-max of the scores `s`: the lowest index holding the highest
/// score. Zero for an empty sequence.
pub open spec fn spec_argmax(s: Seq<i64>) -> int
    decreases s.len(),
{
    if s.len() <= 1 {
        0
    } else {
        let r = spec_argmax(s.drop_last());
        if s.last() > s[r] {
            s.len() - 1
        } else {
            r
        }
    }
}

/// The predicted class of every sample row of a score buffer: its arg-max.
pub open spec fn spec_predictions(out: Seq<Seq<i64>>) -> Seq<usize> {
    Seq::new(out.len(), |i: int| spec_argmax(out[i]) as usize)
}

/// The arg-max of a nonempty score row is its first maximum.
pub proof fn lemma_argmax_is_first_max(s: Seq<i64>)
    requires
        s.len() >= 1,
    ensures
        is_first_max(s, spec_argmax(s)),
    decreases s.len(),
{
    if s.len() > 1 {
        lemma_argmax_is_first_max(s.drop_last());
        let d = s.drop_last();
        let r = spec_argmax(d);
        assert(forall|j: int| 0 <= j < d.len() ==> d[j] == s[j]);
        if s.last() > s[r] {
            assert(s[s.len() - 1] == s.last());
        }
    }
}

/// A score row has only one first maximum.
pub proof fn lemma_first_max_unique(s: Seq<i64>, k1: int, k2: int)
    requires
        is_first_max(s, k1),
        is_first_max(s, k2),
    ensures
        k1 == k2,
{
    if k1 < k2 {
        assert(s[k1] < s[k2]);
        assert(s[k2] <= s[k1]);
    } else if k2 < k1 {
        assert(s[k2] < s[k1]);
        assert(s[k1] <= s[k2]);
    }
}

/// A running accuracy reading: `correct` samples out of `total` seen.
/// The quotient is left to the caller, so the core states it exactly.
#[derive(Clone, Copy, Debug, PartialEq, Eq, Structural)]
pub struct AccuracyRatio {
    pub correct: u64,
    pub total: u64,
}

/// A sum never falls below any one of its counters.
proof fn lemma_elem_le_seq_sum(s: Seq<u64>, i: int)
    requires
        0 <= i < s.len(),
    ensures
        s[i] as nat <= seq_sum(s),
    decreases s.len(),
{
    if i == s.len() - 1 {
    } else {
        lemma_elem_le_seq_sum(s.drop_last(), i);
    }
}

/// Updating one counter moves the sum by the difference.
proof fn lemma_seq_sum_update(s: Seq<u64>, i: int, v: u64)
    requires
        0 <= i < s.len(),
    ensures
        seq_sum(s.update(i, v)) + s[i] as nat == seq_sum(s) + v as nat,
    decreases s.len(),
{
    let t = s.update(i, v);
    if i == s.len() - 1 {
        assert(t.drop_last() =~= s.drop_last());
    } else {
        assert(t.drop_last() =~= s.drop_last().update(i, v));
        assert(t.last() == s.last());
        lemma_seq_sum_update(s.drop_last(), i, v);
    }
}

/// Flat cell indices are unique: a cell belongs to one (row, column) pair.
proof fn lemma_flat_cell_unique(nc: int, t1: int, p1: int, t2: int, p2: int)
    requires
        0 <= t1 < nc,
        0 <= p1 < nc,
        0 <= t2 < nc,
        0 <= p2 < nc,
        t1 * nc + p1 == t2 * nc + p2,
    ensures
        t1 == t2 && p1 == p2,
{
    assert(t1 == t2 && p1 == p2) by (nonlinear_arith)
        requires
            0 <= t1 < nc,
            0 <= p1 < nc,
            0 <= t2 < nc,
            0 <= p2 < nc,
            t1 * nc + p1 == t2 * nc + p2,
    ;
}

/// Updating the cell of one (true, predicted) pair moves the diagonal sum
/// by the difference when the pair lies on it, and not at all otherwise.
proof fn lemma_diag_sum_update(s: Seq<u64>, nc: int, k: int, t: int, p: int, v: u64)
    requires
        0 <= t < nc,
        0 <= p < nc,
        0 <= k <= nc,
        s.len() == nc * nc,
    ensures
        diag_sum(s.update(t * nc + p, v), nc, k) + (if t == p && t < k {
            s[t * nc + p] as nat
        } else {
            0
        }) == diag_sum(s, nc, k) + (if t == p && t < k {
            v as nat
        } else {
            0
        }),
    decreases k,
{
    lemma_flat_index(t, p, nc, nc);
    if k > 0 {
        lemma_diag_sum_update(s, nc, k - 1, t, p, v);
        let i = (k - 1) * nc + (k - 1);
        lemma_flat_index(k - 1, k - 1, nc, nc);
        if i == t * nc + p {
            lemma_flat_cell_unique(nc, k - 1, k - 1, t, p);
        }
    }
}

/// A diagonal sum over all-zero counters is zero.
proof fn lemma_diag_sum_zero(s: Seq<u64>, nc: int, k: int)
    requires
        0 <= k <= nc,
        s.len() == nc * nc,
        forall|i: int| 0 <= i < s.len() ==> s[i] == 0u64,
    ensures
        diag_sum(s, nc, k) == 0,
    decreases k,
{
    if k > 0 {
        lemma_diag_sum_zero(s, nc, k - 1);
        lemma_flat_index(k - 1, k - 1, nc, nc);
    }
}

/// A sum over all-zero counters is zero.
proof fn lemma_seq_sum_zero(s: Seq<u64>)
    requires
        forall|i: int| 0 <= i < s.len() ==> s[i] == 0u64,
    ensures
        seq_sum(s) == 0,
    decreases s.len(),
{
    if s.len() > 0 {
        lemma_seq_sum_zero(s.drop_last());
    }
}

/// An incrementally updated confusion matrix with a bounded history of
/// per-sample correctness.
pub struct ConfusionMatrix {
    num_classes: usize,
    counts: Vec<u64>,
    history: Vec<bool>,
    capacity: Option<usize>,
    total: u64,
    correct: u64,
}

impl ConfusionMatrix {
    /// The number of classes; true and predicted classes lie below it.
    pub closed spec fn spec_num_classes(self) -> nat {
        self.num_classes as nat
    }

    /// How often true class `t` was predicted as class `p`.
    pub closed spec fn spec_count(self, t: int, p: int) -> nat {
        self.counts@[t * self.num_classes + p] as nat
    }

    /// The bounded history of per-sample correctness, oldest first.
    pub closed spec fn spec_history(self) -> Seq<bool> {
        self.history@
    }

    /// The history bound; `None` means unbounded.
    pub closed spec fn spec_capacity(self) -> Option<usize> {
        self.capacity
    }

    /// The number of samples seen: the sum of all cells.
    pub closed spec fn spec_total(self) -> nat {
        self.total as nat
    }

    /// The number of samples predicted correctly: the diagonal sum.
    pub closed spec fn spec_correct(self) -> nat {
        self.correct as nat
    }

    /// The counting state is consistent: the cell block is `nc * nc`, the
    /// running total is the sum of all cells, and the running correct
    /// count is the diagonal sum, never above the total.
    pub closed spec fn counts_wf(self) -> bool {
        let nc = self.num_classes as int;
        &&& self.counts@.len() == nc * nc
        &&& self.total as nat == seq_sum(self.counts@)
        &&& self.correct as nat == diag_sum(self.counts@, nc, nc)
        &&& self.correct <= self.total
    }

    /// Well-formed: consistent counts and a history within its bound.
    pub closed spec fn wf(self) -> bool {
        &&& self.counts_wf()
        &&& match self.capacity {
            None => true,
            Some(c) => self.history@.len() <= c,
        }
    }

    /// A fresh matrix over `num_classes` classes: every cell zero, no
    /// samples seen, empty history, unbounded capacity.
    pub fn new(num_classes: usize) -> (m: ConfusionMatrix)
        requires
            num_classes * num_classes <= usize::MAX,
        ensures
            m.wf(),
            m.spec_num_classes() == num_classes,
            forall|t: int, p: int|
                0 <= t < num_classes && 0 <= p < num_classes ==> m.spec_count(t, p) == 0,
            m.spec_total() == 0,
            m.spec_correct() == 0,
            m.spec_history() == Seq::<bool>::empty(),
            m.spec_capacity() is None,
    {
        proof {
            vstd::arithmetic::mul::lemma_mul_nonnegative(num_classes as int, num_classes as int);
        }
        let cells: usize = num_classes * num_classes;
        let mut counts: Vec<u64> = Vec::new();
        let mut k: usize = 0;
        while k < cells
            invariant
                counts@.len() == k,
                k <= cells,
                forall|i: int| 0 <= i < k ==> counts@[i] == 0u64,
            decreases cells - k,
        {
            counts.push(0);
            k = k + 1;
        }
        let m = ConfusionMatrix {
            num_classes,
            counts,
            history: Vec::new(),
            capacity: None,
            total: 0,
            correct: 0,
        };
        proof {
            let nc = num_classes as int;
            lemma_seq_sum_zero(m.counts@);
            lemma_diag_sum_zero(m.counts@, nc, nc);
            assert forall|t: int, p: int| 0 <= t < num_classes && 0 <= p < num_classes implies m
                .spec_count(t, p) == 0 by {
                lemma_flat_index(t, p, nc, nc);
            }
        }
        m
    }

    /// The number of classes.
    pub fn num_classes(&self) -> (r: usize)
        ensures
            r as nat == self.spec_num_classes(),
    {
        self.num_classes
    }

    /// Reads one cell: how often true class `t` was predicted as `p`.
    pub fn count_at(&self, t: usize, p: usize) -> (v: u64)
        requires
            self.wf(),
            t < self.spec_num_classes(),
            p < self.spec_num_classes(),
        ensures
            v as nat == self.spec_count(t as int, p as int),
    {
        let _len = self.counts.len();
        proof {
            lemma_flat_index(t as int, p as int, self.num_classes as int, self.num_classes as int);
        }
        self.counts[t * self.num_classes + p]
    }

    /// The number of samples seen so far.
    pub fn total_samples(&self) -> (r: u64)
        ensures
            r as nat == self.spec_total(),
    {
        self.total
    }

    /// The bounded history of per-sample correctness, oldest first.
    pub fn samples(&self) -> (r: &Vec<bool>)
        ensures
            r@ == self.spec_history(),
    {
        &self.history
    }

    /// The history bound.
    pub fn capacity(&self) -> (r: Option<usize>)
        ensures
            r == self.spec_capacity(),
    {
        self.capacity
    }

    /// The running accuracy, as the exact ratio of correctly predicted
    /// samples to samples seen. With no samples seen it reads 0 of 0 —
    /// a defined reading, not an error.
    pub fn accuracy(&self) -> (r: AccuracyRatio)
        requires
            self.wf(),
        ensures
            r.correct as nat == self.spec_correct(),
            r.total as nat == self.spec_total(),
            r.correct <= r.total,
    {
        AccuracyRatio { correct: self.correct, total: self.total }
    }

    /// Evicts the oldest history entries beyond the capacity.
    fn enforce_capacity(&mut self)
        ensures
            final (self).spec_history() == bound_history(
                old(self).spec_history(),
                old(self).spec_capacity(),
            ),
            final (self).spec_num_classes() == old(self).spec_num_classes(),
            final (self).spec_capacity() == old(self).spec_capacity(),
            final (self).spec_total() == old(self).spec_total(),
            final (self).spec_correct() == old(self).spec_correct(),
            final (self).counts_wf() == old(self).counts_wf(),
            forall|t: int, p: int|
                final (self).spec_count(t, p) == old(self).spec_count(t, p),
            final (self).wf() == old(self).counts_wf(),
    {
        match self.capacity {
            None => {},
            Some(c) => {
                let hlen = self.history.len();
                if hlen > c {
                    let start = hlen - c;
                    let mut kept: Vec<bool> = Vec::new();
                    let mut j: usize = 0;
                    while j < c
                        invariant
                            j <= c,
                            start + c == hlen,
                            hlen == self.history@.len(),
                            kept@.len() == j,
                            forall|i: int| 0 <= i < j ==> kept@[i] == self.history@[start + i],
                        decreases c - j,
                    {
                        kept.push(self.history[start + j]);
                        j = j + 1;
                    }
                    proof {
                        assert(kept@ =~= self.history@.skip(start as int));
                    }
                    self.history = kept;
                }
            },
        }
    }

    /// Bounds the history length; `None` lifts the bound. A bound below
    /// the current length evicts the oldest entries at once.
    pub fn set_capacity(&mut self, cap: Option<usize>)
        requires
            old(self).wf(),
        ensures
            final (self).wf(),
            final (self).spec_capacity() == cap,
            final (self).spec_history() == bound_history(old(self).spec_history(), cap),
            final (self).spec_num_classes() == old(self).spec_num_classes(),
            final (self).spec_total() == old(self).spec_total(),
            final (self).spec_correct() == old(self).spec_correct(),
            forall|t: int, p: int|
                final (self).spec_count(t, p) == old(self).spec_count(t, p),
    {
        self.capacity = cap;
        self.enforce_capacity();
    }

    /// The per-row arg-max of a trainer's score buffer: for every sample
    /// row, the class of the highest score, ties broken to the lowest
    /// class index.
    pub fn predictions_from(&self, output: &ScoreBuffer) -> (preds: Vec<usize>)
        requires
            output.wf(),
            output.spec_cols() == self.spec_num_classes(),
            output.spec_cols() >= 1,
        ensures
            preds@.len() == output.spec_rows(),
            forall|i: int| 0 <= i < preds@.len() ==> is_first_max(output@[i], preds@[i] as int),
            forall|i: int|
                0 <= i < preds@.len() ==> (#[trigger] preds@[i]) < self.spec_num_classes(),
            preds@ == spec_predictions(output@),
    {
        proof {
            output.lemma_shape();
        }
        let rows = output.rows();
        let cols = output.cols();
        let mut preds: Vec<usize> = Vec::new();
        let mut i: usize = 0;
        while i < rows
            invariant
                i <= rows,
                rows as nat == output.spec_rows(),
                cols as nat == output.spec_cols(),
                cols >= 1,
                output.wf(),
                output@.len() == output.spec_rows(),
                forall|r: int| 0 <= r < output@.len() ==> (#[trigger] output@[r]).len()
                    == output.spec_cols(),
                preds@.len() == i,
                forall|r: int| 0 <= r < i ==> is_first_max(output@[r], preds@[r] as int),
                forall|r: int| 0 <= r < i ==> (#[trigger] preds@[r]) < cols,
            decreases rows - i,
        {
            let mut best: usize = 0;
            let mut best_score: i64 = output.get(i, 0);
            let mut c: usize = 1;
            while c < cols
                invariant
                    1 <= c <= cols,
                    i < rows,
                    rows as nat == output.spec_rows(),
                    cols as nat == output.spec_cols(),
                    output.wf(),
                    output@.len() == output.spec_rows(),
                    forall|r: int| 0 <= r < output@.len() ==> (#[trigger] output@[r]).len()
                        == output.spec_cols(),
                    best < c,
                    best_score == output@[i as int][best as int],
                    forall|j: int| 0 <= j < c ==> output@[i as int][j] <= best_score,
                    forall|j: int| 0 <= j < best ==> output@[i as int][j] < best_score,
                decreases cols - c,
            {
                let s = output.get(i, c);
                if s > best_score {
                    best = c;
                    best_score = s;
                }
                c = c + 1;
            }
            preds.push(best);
            i = i + 1;
        }
        proof {
            assert forall|r: int| 0 <= r < preds@.len() implies preds@[r] == spec_argmax(
                output@[r],
            ) as usize by {
                lemma_argmax_is_first_max(output@[r]);
                lemma_first_max_unique(output@[r], preds@[r] as int, spec_argmax(output@[r]));
            }
            assert(preds@ =~= spec_predictions(output@));
        }
        preds
    }

    /// Counts one batch of paired samples: for every pair, the cell of
    /// (true, predicted) is incremented and the sample's correctness is
    /// appended to the history, evicting the oldest entry at capacity.
    /// Pairs are rejected whole with `LengthMismatch` when predictions
    /// and labels differ in number.
    pub fn add_samples(&mut self, predictions: &Vec<usize>, truths: &Vec<usize>) -> (res: Result<
        (),
        TrainError,
    >)
        requires
            old(self).wf(),
            forall|i: int|
                0 <= i < predictions@.len() ==> (#[trigger] predictions@[i]) < old(
                    self,
                ).spec_num_classes(),
            forall|i: int|
                0 <= i < truths@.len() ==> (#[trigger] truths@[i]) < old(self).spec_num_classes(),
            predictions@.len() == truths@.len() ==> old(self).spec_total() + predictions@.len()
                <= u64::MAX,
        ensures
            final (self).wf(),
            final (self).spec_num_classes() == old(self).spec_num_classes(),
            final (self).spec_capacity() == old(self).spec_capacity(),
            match res {
                Ok(()) => {
                    &&& predictions@.len() == truths@.len()
                    &&& forall|t: int, p: int|
                        0 <= t < old(self).spec_num_classes() && 0 <= p < old(
                            self,
                        ).spec_num_classes() ==> final (self).spec_count(t, p) == old(
                            self,
                        ).spec_count(t, p) + pair_count(
                            predictions@,
                            truths@,
                            t as usize,
                            p as usize,
                        )
                    &&& final (self).spec_total() == old(self).spec_total() + predictions@.len()
                    &&& final (self).spec_correct() == old(self).spec_correct() + match_count(
                        predictions@,
                        truths@,
                    )
                    &&& final (self).spec_history() == bound_history(
                        old(self).spec_history() + outcomes(predictions@, truths@),
                        old(self).spec_capacity(),
                    )
                },
                Err(e) => {
                    &&& predictions@.len() != truths@.len()
                    &&& e == (TrainError::LengthMismatch {
                        predictions: predictions@.len() as usize,
                        labels: truths@.len() as usize,
                    })
                    &&& *final (self) == *old(self)
                },
            },
    {
        if predictions.len() != truths.len() {
            return Err(TrainError::LengthMismatch {
                predictions: predictions.len(),
                labels: truths.len(),
            });
        }
        let ghost nc = self.num_classes as int;
        let len = predictions.len();
        let cells = self.counts.len();
        let mut i: usize = 0;
        while i < len
            invariant
                i <= len,
                len == predictions@.len(),
                len == truths@.len(),
                self.num_classes == old(self).num_classes,
                nc == self.num_classes as int,
                self.capacity == old(self).capacity,
                cells == self.counts@.len(),
                self.counts_wf(),
                forall|j: int|
                    0 <= j < predictions@.len() ==> (#[trigger] predictions@[j]) < nc,
                forall|j: int| 0 <= j < truths@.len() ==> (#[trigger] truths@[j]) < nc,
                old(self).spec_total() + len <= u64::MAX,
                self.total as nat == old(self).spec_total() + i,
                self.correct as nat == old(self).spec_correct() + match_count(
                    predictions@.take(i as int),
                    truths@.take(i as int),
                ),
                forall|t: int, p: int|
                    0 <= t < nc && 0 <= p < nc ==> self.spec_count(t, p) == old(self).spec_count(
                        t,
                        p,
                    ) + pair_count(
                        predictions@.take(i as int),
                        truths@.take(i as int),
                        t as usize,
                        p as usize,
                    ),
                self.history@ == old(self).spec_history() + outcomes(
                    predictions@.take(i as int),
                    truths@.take(i as int),
                ),
            decreases len - i,
        {
            let ghost at_top = *self;
            let p = predictions[i];
            let t = truths[i];
            proof {
                lemma_flat_index(t as int, p as int, nc, nc);
                lemma_elem_le_seq_sum(self.counts@, t as int * nc + p as int);
            }
            let idx = t * self.num_classes + p;
            let cur = self.counts[idx];
            let ghost counts_before = self.counts@;
            self.counts.set(idx, cur + 1);
            self.total = self.total + 1;
            if p == t {
                self.correct = self.correct + 1;
            }
            self.history.push(p == t);
            proof {
                let pi = predictions@.take(i + 1);
                let ti = truths@.take(i + 1);
                assert(pi.drop_last() =~= predictions@.take(i as int));
                assert(ti.drop_last() =~= truths@.take(i as int));
                assert(pi.last() == predictions@[i as int]);
                assert(ti.last() == truths@[i as int]);
                lemma_seq_sum_update(counts_before, t as int * nc + p as int, (cur + 1) as u64);
                lemma_diag_sum_update(
                    counts_before,
                    nc,
                    nc,
                    t as int,
                    p as int,
                    (cur + 1) as u64,
                );
                assert forall|t2: int, p2: int| 0 <= t2 < nc && 0 <= p2 < nc implies self
                    .spec_count(t2, p2) == old(self).spec_count(t2, p2) + pair_count(
                    pi,
                    ti,
                    t2 as usize,
                    p2 as usize,
                ) by {
                    lemma_flat_index(t2, p2, nc, nc);
                    assert(at_top.spec_count(t2, p2) == old(self).spec_count(t2, p2) + pair_count(
                        predictions@.take(i as int),
                        truths@.take(i as int),
                        t2 as usize,
                        p2 as usize,
                    ));
                    assert(at_top.spec_count(t2, p2) == counts_before[t2 * nc + p2] as nat);
                    assert(pair_count(pi, ti, t2 as usize, p2 as usize) == pair_count(
                        predictions@.take(i as int),
                        truths@.take(i as int),
                        t2 as usize,
                        p2 as usize,
                    ) + (if ti.last() == t2 as usize && pi.last() == p2 as usize {
                        1nat
                    } else {
                        0nat
                    }));
                    assert(self.counts@ == counts_before.update(
                        t as int * nc + p as int,
                        (cur + 1) as u64,
                    ));
                    if t2 * nc + p2 == t as int * nc + p as int {
                        lemma_flat_cell_unique(nc, t2, p2, t as int, p as int);
                        assert(t2 == t as int && p2 == p as int);
                        assert(self.counts@[t2 * nc + p2] == cur + 1);
                    } else {
                        assert(self.counts@[t2 * nc + p2] == counts_before[t2 * nc + p2]);
                        assert(!(ti.last() == t2 as usize && pi.last() == p2 as usize));
                    }
                }
                assert(self.history@ =~= old(self).spec_history() + outcomes(pi, ti));
            }
            i = i + 1;
        }
        proof {
            assert(predictions@.take(len as int) =~= predictions@);
            assert(truths@.take(len as int) =~= truths@);
        }
        self.enforce_capacity();
        Ok(())
    }
}

/// The accuracy reading is a pure function of the matrix: two readings
/// with no update between them are identical.
pub proof fn lemma_accuracy_idempotent(m: ConfusionMatrix, r1: AccuracyRatio, r2: AccuracyRatio)
    requires
        r1.correct as nat == m.spec_correct(),
        r1.total as nat == m.spec_total(),
        r2.correct as nat == m.spec_correct(),
        r2.total as nat == m.spec_total(),
    ensures
        r1 == r2,
{
}

} // verus!
