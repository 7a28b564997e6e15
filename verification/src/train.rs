//! The training loop: a step-wise driver around an external trainer.
//!
//! The trainer itself — the capability that turns an input batch and its
//! labels into per-class scores — is outside this core. The loop therefore
//! runs in two halves per step: [`TrainingLoop::prepare_step`] fills the
//! input buffer and holds the batch's labels, the caller runs the trainer
//! over the buffer, and [`TrainingLoop::complete_step`] consumes the
//! returned score buffer, updates the confusion matrix, and reports the
//! last sample's correctness and the running accuracy.
//!
//! The loop runs `dataset_size / batch_size` full steps; the records of a
//! short tail batch are never pulled, so every trained batch is full.

use vstd::prelude::*;
use vstd::arithmetic::div_mod::{lemma_fundamental_div_mod, lemma_mod_bound};
use vstd::arithmetic::mul::lemma_mul_inequality;
use crate::batch::{BatchAssembler, SampleBuffer, ScoreBuffer, rows_decode};
use crate::errors::{DecodeError, TrainError};
use crate::matrix::{
    AccuracyRatio, ConfusionMatrix, bound_history, match_count, outcomes, pair_count,
    spec_predictions,
};
use crate::record::{RecordDecoder, spec_row_err, spec_row_label, spec_row_ok, spec_row_pixels};

verus! {

/// The configuration of a training run.
#[derive(Clone, Copy, Debug, PartialEq, Eq, Structural)]
pub struct TrainConfig {
    /// Records per minibatch; one training step consumes one minibatch.
    pub batch_size: usize,
    /// Number of classes; labels and predictions lie below it.
    pub num_classes: usize,
    /// Pixels per record.
    pub feature_count: usize,
}

/// What one completed step reports: the step index, whether the last
/// sample of the batch was predicted correctly, and the running accuracy.
#[derive(Clone, Copy, Debug, PartialEq, Eq, Structural)]
pub struct StepReport {
    pub step: usize,
    pub last_correct: bool,
    pub accuracy: AccuracyRatio,
}

/// Every label lies below the class count.
pub open spec fn labels_below(labels: Seq<u8>, nc: nat) -> bool {
    forall|k: int| 0 <= k < labels.len() ==> ((#[trigger] labels[k]) as nat) < nc
}

/// The training-loop driver: decoder, assembler, input buffer and
/// confusion matrix, advanced one half-step at a time.
pub struct TrainingLoop {
    decoder: RecordDecoder,
    assembler: BatchAssembler,
    input: SampleBuffer,
    matrix: ConfusionMatrix,
    num_classes: usize,
    steps_done: usize,
    total_steps: usize,
    labels: Vec<u8>,
    awaiting: bool,
}

impl TrainingLoop {
    /// The dataset rows the loop decodes.
    pub closed spec fn spec_dataset(self) -> Seq<Seq<u8>> {
        self.decoder.rows_view()
    }

    /// Records per minibatch.
    pub closed spec fn spec_batch_size(self) -> nat {
        self.assembler.spec_batch_size()
    }

    /// The number of classes.
    pub closed spec fn spec_num_classes(self) -> nat {
        self.num_classes as nat
    }

    /// Pixels per record.
    pub closed spec fn spec_feature_count(self) -> nat {
        self.decoder.spec_feature_count()
    }

    /// Steps completed so far.
    pub closed spec fn spec_steps_done(self) -> nat {
        self.steps_done as nat
    }

    /// Steps the whole run comprises: `dataset_size / batch_size`.
    pub closed spec fn spec_total_steps(self) -> nat {
        self.total_steps as nat
    }

    /// The confusion matrix as updated so far.
    pub closed spec fn spec_matrix(self) -> ConfusionMatrix {
        self.matrix
    }

    /// The input buffer as filled so far.
    pub closed spec fn spec_input(self) -> SampleBuffer {
        self.input
    }

    /// Whether a prepared batch awaits its trainer output.
    pub closed spec fn spec_awaiting(self) -> bool {
        self.awaiting
    }

    /// The labels of the prepared batch, while one awaits its output.
    pub closed spec fn spec_labels(self) -> Seq<u8> {
        self.labels@
    }

    /// The loop's invariant. Buffers and matrix agree with the
    /// configuration; the decoder stands exactly at the end of the
    /// consumed batches; the matrix has counted exactly the samples of
    /// the completed steps; while a batch awaits its trainer output, its
    /// labels are held, each below the class count.
    pub open spec fn wf(self) -> bool {
        &&& self.spec_input().wf()
        &&& self.spec_matrix().wf()
        &&& self.spec_batch_size() >= 1
        &&& self.spec_num_classes() >= 1
        &&& self.spec_feature_count() == self.spec_input().spec_cols()
        &&& self.spec_input().spec_rows() == self.spec_batch_size()
        &&& self.spec_matrix().spec_num_classes() == self.spec_num_classes()
        &&& self.spec_total_steps() == self.spec_dataset().len() / self.spec_batch_size()
        &&& self.spec_steps_done() <= self.spec_total_steps()
        &&& self.spec_matrix().spec_total() == self.spec_steps_done() * self.spec_batch_size()
        &&& self.decoder_wf()
        &&& if self.spec_awaiting() {
            &&& self.spec_steps_done() < self.spec_total_steps()
            &&& self.decoder_pos() == (self.spec_steps_done() + 1) * self.spec_batch_size()
            &&& self.spec_labels().len() == self.spec_batch_size()
            &&& labels_below(self.spec_labels(), self.spec_num_classes())
        } else {
            self.decoder_pos() == self.spec_steps_done() * self.spec_batch_size()
        }
    }

    /// The decoder's own invariant.
    pub closed spec fn decoder_wf(self) -> bool {
        self.decoder.wf()
    }

    /// The decoder's read position.
    pub closed spec fn decoder_pos(self) -> nat {
        self.decoder.spec_pos()
    }

    /// A loop over `rows`, configured by `cfg`, with nothing trained yet.
    ///
    /// A zero batch size or class count, or a shape too large to address,
    /// is a configuration error, surfaced here, before the loop starts.
    pub fn new(rows: Vec<Vec<u8>>, cfg: TrainConfig) -> (res: Result<TrainingLoop, TrainError>)
        ensures
            match res {
                Ok(tl) => {
                    &&& cfg.batch_size >= 1
                    &&& cfg.num_classes >= 1
                    &&& cfg.batch_size * cfg.feature_count <= usize::MAX
                    &&& cfg.num_classes * cfg.num_classes <= usize::MAX
                    &&& tl.wf()
                    &&& tl.spec_dataset() == rows@.map_values(|v: Vec<u8>| v@)
                    &&& tl.spec_batch_size() == cfg.batch_size
                    &&& tl.spec_num_classes() == cfg.num_classes
                    &&& tl.spec_feature_count() == cfg.feature_count
                    &&& tl.spec_steps_done() == 0
                    &&& tl.spec_total_steps() == rows@.len() / cfg.batch_size as nat
                    &&& !tl.spec_awaiting()
                    &&& tl.spec_matrix().spec_total() == 0
                    &&& tl.spec_matrix().spec_correct() == 0
                    &&& tl.spec_matrix().spec_history() == Seq::<bool>::empty()
                    &&& tl.spec_matrix().spec_capacity() is None
                    &&& forall|t: int, p: int|
                        0 <= t < cfg.num_classes && 0 <= p < cfg.num_classes ==> tl.spec_matrix()
                            .spec_count(t, p) == 0
                },
                Err(e) => {
                    &&& e == TrainError::Configuration
                    &&& (cfg.batch_size == 0 || cfg.num_classes == 0 || cfg.batch_size
                        * cfg.feature_count > usize::MAX || cfg.num_classes * cfg.num_classes
                        > usize::MAX)
                },
            },
    {
        if cfg.batch_size == 0 || cfg.num_classes == 0 {
            return Err(TrainError::Configuration);
        }
        if cfg.batch_size.checked_mul(cfg.feature_count).is_none() {
            return Err(TrainError::Configuration);
        }
        if cfg.num_classes.checked_mul(cfg.num_classes).is_none() {
            return Err(TrainError::Configuration);
        }
        let assembler = match BatchAssembler::new(cfg.batch_size) {
            Ok(a) => a,
            Err(e) => {
                // unreachable: the batch size was checked above
                proof {
                    assert(false);
                }
                return Err(e);
            },
        };
        let dataset_size = rows.len();
        let decoder = RecordDecoder::new(rows, cfg.feature_count);
        let input = SampleBuffer::new(cfg.batch_size, cfg.feature_count);
        let matrix = ConfusionMatrix::new(cfg.num_classes);
        let total_steps = dataset_size / cfg.batch_size;
        Ok(
            TrainingLoop {
                decoder,
                assembler,
                input,
                matrix,
                num_classes: cfg.num_classes,
                steps_done: 0,
                total_steps,
                labels: Vec::new(),
                awaiting: false,
            },
        )
    }

    /// Steps completed so far.
    pub fn steps_done(&self) -> (r: usize)
        ensures
            r as nat == self.spec_steps_done(),
    {
        self.steps_done
    }

    /// Steps the whole run comprises.
    pub fn total_steps(&self) -> (r: usize)
        ensures
            r as nat == self.spec_total_steps(),
    {
        self.total_steps
    }

    /// Whether a prepared batch awaits its trainer output.
    pub fn awaiting_trainer(&self) -> (r: bool)
        ensures
            r == self.spec_awaiting(),
    {
        self.awaiting
    }

    /// The input buffer, for the trainer to read.
    pub fn input(&self) -> (r: &SampleBuffer)
        ensures
            *r == self.spec_input(),
    {
        &self.input
    }

    /// The labels of the prepared batch, for the trainer to read.
    pub fn pending_labels(&self) -> (r: &Vec<u8>)
        ensures
            r@ == self.spec_labels(),
    {
        &self.labels
    }

    /// The confusion matrix as updated so far.
    pub fn matrix(&self) -> (r: &ConfusionMatrix)
        ensures
            *r == self.spec_matrix(),
    {
        &self.matrix
    }

    /// Bounds the matrix's correctness history.
    pub fn set_history_capacity(&mut self, cap: Option<usize>)
        requires
            old(self).wf(),
        ensures
            final (self).wf(),
            final (self).spec_matrix().spec_capacity() == cap,
            final (self).spec_matrix().spec_history() == bound_history(
                old(self).spec_matrix().spec_history(),
                cap,
            ),
            final (self).spec_matrix().spec_total() == old(self).spec_matrix().spec_total(),
            final (self).spec_matrix().spec_correct() == old(self).spec_matrix().spec_correct(),
            forall|t: int, p: int|
                final (self).spec_matrix().spec_count(t, p) == old(self).spec_matrix().spec_count(
                    t,
                    p,
                ),
            final (self).spec_dataset() == old(self).spec_dataset(),
            final (self).spec_batch_size() == old(self).spec_batch_size(),
            final (self).spec_num_classes() == old(self).spec_num_classes(),
            final (self).spec_steps_done() == old(self).spec_steps_done(),
            final (self).spec_total_steps() == old(self).spec_total_steps(),
            final (self).spec_awaiting() == old(self).spec_awaiting(),
            final (self).spec_labels() == old(self).spec_labels(),
    {
        self.matrix.set_capacity(cap);
    }

    /// Prepares the next step: fills the input buffer with the next full
    /// batch of decoded records and holds their labels.
    ///
    /// Returns `Ok(None)` when all steps have run — the records of a
    /// short tail batch are never pulled. A malformed row, or a row whose
    /// label is not below the class count, aborts with `Decode` naming
    /// the row.
    pub fn prepare_step(&mut self) -> (res: Result<Option<usize>, TrainError>)
        requires
            old(self).wf(),
            !old(self).spec_awaiting(),
        ensures
            final (self).spec_dataset() == old(self).spec_dataset(),
            final (self).spec_batch_size() == old(self).spec_batch_size(),
            final (self).spec_num_classes() == old(self).spec_num_classes(),
            final (self).spec_feature_count() == old(self).spec_feature_count(),
            final (self).spec_total_steps() == old(self).spec_total_steps(),
            final (self).spec_steps_done() == old(self).spec_steps_done(),
            final (self).spec_matrix() == old(self).spec_matrix(),
            ({
                let rows = old(self).spec_dataset();
                let fc = old(self).spec_feature_count();
                let nc = old(self).spec_num_classes();
                let bs = old(self).spec_batch_size() as int;
                let pos = old(self).decoder_pos() as int;
                match res {
                    Ok(None) => {
                        &&& old(self).spec_steps_done() == old(self).spec_total_steps()
                        &&& *final (self) == *old(self)
                    },
                    Ok(Some(n)) => {
                        &&& old(self).spec_steps_done() < old(self).spec_total_steps()
                        &&& n as int == bs
                        &&& final (self).wf()
                        &&& final (self).spec_awaiting()
                        &&& rows_decode(rows, pos, bs, fc)
                        &&& final (self).spec_labels().len() == bs
                        &&& forall|k: int|
                            0 <= k < bs ==> final (self).spec_labels()[k] == spec_row_label(
                                #[trigger] rows[pos + k],
                            )
                        &&& forall|k: int|
                            0 <= k < bs ==> (spec_row_label(#[trigger] rows[pos + k]) as nat) < nc
                        &&& forall|k: int|
                            0 <= k < bs ==> final (self).spec_input()@[k] == spec_row_pixels(
                                #[trigger] rows[pos + k],
                                fc,
                            )
                    },
                    Err(TrainError::Decode { row, error }) => {
                        &&& old(self).spec_steps_done() < old(self).spec_total_steps()
                        &&& pos <= row < pos + bs
                        &&& !final (self).spec_awaiting()
                        &&& match error {
                            DecodeError::LabelRange { label } => {
                                &&& rows_decode(rows, pos, bs, fc)
                                &&& label == spec_row_label(rows[row as int])
                                &&& label as nat >= nc
                                &&& forall|j: int|
                                    pos <= j < row ==> (spec_row_label(#[trigger] rows[j]) as nat)
                                        < nc
                            },
                            _ => {
                                &&& rows_decode(rows, pos, row - pos, fc)
                                &&& !spec_row_ok(rows[row as int], fc)
                                &&& spec_row_err(rows[row as int], fc, error)
                            },
                        }
                    },
                    Err(_) => false,
                }
            }),
    {
        if self.steps_done == self.total_steps {
            return Ok(None);
        }
        let ghost rows = self.decoder.rows_view();
        let ghost pos0 = self.decoder.spec_pos() as int;
        let ghost fc = self.decoder.spec_feature_count();
        let dl = self.decoder.dataset_len();
        let bs = self.assembler.batch_size();
        proof {
            let bsi = bs as int;
            lemma_fundamental_div_mod(dl as int, bsi);
            lemma_mod_bound(dl as int, bsi);
            lemma_mul_inequality(
                self.steps_done as int + 1,
                self.total_steps as int,
                bsi,
            );
            assert((self.steps_done as int + 1) * bsi <= dl as int);
            vstd::arithmetic::mul::lemma_mul_is_distributive_add_other_way(
                bsi,
                self.steps_done as int,
                1,
            );
            assert((self.steps_done as int + 1) * bsi == self.steps_done as int * bsi + bsi);
            assert(pos0 + bsi <= dl as int);
        }
        match self.assembler.fill(&mut self.input, &mut self.decoder) {
            Ok((n, batch_labels)) => {
                let mut j: usize = 0;
                while j < n
                    invariant
                        j <= n,
                        n == batch_labels@.len(),
                        n as int == old(self).spec_batch_size() as int,
                        self.num_classes == old(self).num_classes,
                        self.matrix == old(self).matrix,
                        self.assembler == old(self).assembler,
                        self.steps_done == old(self).steps_done,
                        self.total_steps == old(self).total_steps,
                        !self.awaiting,
                        old(self).spec_steps_done() < old(self).spec_total_steps(),
                        rows == old(self).spec_dataset(),
                        pos0 == old(self).decoder_pos() as int,
                        fc == old(self).spec_feature_count(),
                        rows_decode(rows, pos0, n as int, fc),
                        forall|k: int|
                            0 <= k < j ==> ((#[trigger] batch_labels@[k]) as nat)
                                < self.num_classes as nat,
                        forall|k: int|
                            0 <= k < n ==> batch_labels@[k] == spec_row_label(
                                #[trigger] rows[pos0 + k],
                            ),
                        self.decoder.spec_pos() == pos0 + n,
                        rows == self.decoder.rows_view(),
                        self.decoder.spec_feature_count() == fc,
                    decreases n - j,
                {
                    if batch_labels[j] as usize >= self.num_classes {
                        let pos_now = self.decoder.position();
                        let row = pos_now - n + j;
                        proof {
                            assert(row as int == pos0 + j);
                            assert(batch_labels@[j as int] == spec_row_label(rows[pos0 + j]));
                            assert forall|jj: int| pos0 <= jj < pos0 + j implies ((spec_row_label(
                                #[trigger] rows[jj],
                            ) as nat) < self.num_classes as nat) by {
                                let k = jj - pos0;
                                assert(batch_labels@[k] == spec_row_label(rows[pos0 + k]));
                            }
                        }
                        return Err(
                            TrainError::Decode {
                                row,
                                error: DecodeError::LabelRange { label: batch_labels[j] },
                            },
                        );
                    }
                    j = j + 1;
                }
                self.labels = batch_labels;
                self.awaiting = true;
                Ok(Some(n))
            },
            Err(e) => {
                match e {
                    TrainError::Decode { .. } => Err(e),
                    _ => {
                        // unreachable: the batch always fits the buffer
                        proof {
                            assert(false);
                        }
                        Err(e)
                    },
                }
            },
        }
    }

    /// Completes the prepared step with the trainer's score buffer: takes
    /// the arg-max prediction of every row, counts the batch into the
    /// confusion matrix, and reports the step. An output buffer whose
    /// shape is not `batch_size` rows by `num_classes` columns is a
    /// `ShapeMismatch` and changes nothing.
    pub fn complete_step(&mut self, output: &ScoreBuffer) -> (res: Result<StepReport, TrainError>)
        requires
            old(self).wf(),
            old(self).spec_awaiting(),
            output.wf(),
        ensures
            final (self).spec_dataset() == old(self).spec_dataset(),
            final (self).spec_batch_size() == old(self).spec_batch_size(),
            final (self).spec_num_classes() == old(self).spec_num_classes(),
            final (self).spec_feature_count() == old(self).spec_feature_count(),
            final (self).spec_total_steps() == old(self).spec_total_steps(),
            ({
                let preds = spec_predictions(output@);
                let truths = old(self).spec_labels().map_values(|b: u8| b as usize);
                let m0 = old(self).spec_matrix();
                let m1 = final (self).spec_matrix();
                let nc = old(self).spec_num_classes();
                match res {
                    Ok(rep) => {
                        &&& output.spec_rows() == old(self).spec_batch_size()
                        &&& output.spec_cols() == nc
                        &&& final (self).wf()
                        &&& !final (self).spec_awaiting()
                        &&& final (self).spec_steps_done() == old(self).spec_steps_done() + 1
                        &&& final (self).spec_input()@ == old(self).spec_input()@
                        &&& forall|t: int, p: int|
                            0 <= t < nc && 0 <= p < nc ==> m1.spec_count(t, p) == m0.spec_count(
                                t,
                                p,
                            ) + pair_count(preds, truths, t as usize, p as usize)
                        &&& m1.spec_total() == m0.spec_total() + preds.len()
                        &&& m1.spec_correct() == m0.spec_correct() + match_count(preds, truths)
                        &&& m1.spec_history() == bound_history(
                            m0.spec_history() + outcomes(preds, truths),
                            m0.spec_capacity(),
                        )
                        &&& m1.spec_capacity() == m0.spec_capacity()
                        &&& rep.step as nat == old(self).spec_steps_done()
                        &&& rep.last_correct == (preds.last() == truths.last())
                        &&& rep.accuracy.correct as nat == m1.spec_correct()
                        &&& rep.accuracy.total as nat == m1.spec_total()
                    },
                    Err(TrainError::ShapeMismatch { rows, cols }) => {
                        &&& (output.spec_rows() != old(self).spec_batch_size() || output.spec_cols()
                            != nc)
                        &&& rows as nat == output.spec_rows()
                        &&& cols as nat == output.spec_cols()
                        &&& *final (self) == *old(self)
                    },
                    Err(_) => false,
                }
            }),
    {
        let bs = self.assembler.batch_size();
        if output.rows() != bs || output.cols() != self.num_classes {
            return Err(TrainError::ShapeMismatch { rows: output.rows(), cols: output.cols() });
        }
        let dl = self.decoder.dataset_len();
        let preds = self.matrix.predictions_from(output);
        let mut truths: Vec<usize> = Vec::new();
        let mut j: usize = 0;
        while j < bs
            invariant
                j <= bs,
                bs == self.labels@.len(),
                truths@.len() == j,
                forall|k: int| 0 <= k < j ==> truths@[k] == self.labels@[k] as usize,
            decreases bs - j,
        {
            truths.push(self.labels[j] as usize);
            j = j + 1;
        }
        proof {
            assert(truths@ =~= self.labels@.map_values(|b: u8| b as usize));
            vstd::arithmetic::mul::lemma_mul_is_distributive_add_other_way(
                bs as int,
                self.steps_done as int,
                1,
            );
            assert((self.steps_done as int + 1) * (bs as int) == self.steps_done as int * (
            bs as int) + bs as int);
            assert(self.decoder.spec_pos() <= dl as nat);
            assert(self.matrix.spec_total() + bs <= u64::MAX);
        }
        match self.matrix.add_samples(&preds, &truths) {
            Ok(()) => {},
            Err(e) => {
                // unreachable: predictions and labels have the batch's length
                proof {
                    assert(false);
                }
                return Err(e);
            },
        }
        let step = self.steps_done;
        self.steps_done = self.steps_done + 1;
        self.awaiting = false;
        let acc = self.matrix.accuracy();
        let last_correct = preds[bs - 1] == truths[bs - 1];
        proof {
            assert(spec_predictions(output@).last() == preds@[bs - 1]);
            assert(old(self).spec_labels().map_values(|b: u8| b as usize).last() == truths@[bs
                - 1]);
        }
        Ok(StepReport { step, last_correct, accuracy: acc })
    }
}

} // verus!
