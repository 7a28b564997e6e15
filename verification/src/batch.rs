//! Batch buffers and the assembler that fills them.
//!
//! A buffer is a flat, row-major block: one row per sample of a minibatch.
//! [`SampleBuffer`] holds pixel bytes written by the assembler;
//! [`ScoreBuffer`] holds the per-class scores a trainer hands back, one
//! column per class. The assembler pulls records from a [`RecordDecoder`]
//! and writes each one at its row offset, bounds-checked.

use vstd::prelude::*;
use vstd::arithmetic::mul::*;
use crate::errors::TrainError;
use crate::record::{RecordDecoder, spec_row_ok, spec_row_err, spec_row_label, spec_row_pixels};

verus! {

/// Flat index `r * cols + c` stays inside a `rows * cols` block.
pub(crate) proof fn lemma_flat_index(r: int, c: int, rows: int, cols: int)
    requires
        0 <= r < rows,
        0 <= c < cols,
    ensures
        0 <= r * cols + c < rows * cols,
        r * cols + c < (r + 1) * cols,
{
    lemma_mul_inequality(r + 1, rows, cols);
    lemma_mul_is_distributive_add_other_way(cols, r, 1);
    lemma_mul_nonnegative(r, cols);
}

/// Distinct rows occupy disjoint index ranges of the flat block.
pub(crate) proof fn lemma_rows_disjoint(r1: int, c1: int, r2: int, c2: int, cols: int)
    requires
        0 <= r1 < r2,
        0 <= c1 < cols,
        0 <= c2 < cols,
    ensures
        r1 * cols + c1 < r2 * cols + c2,
{
    lemma_flat_index(r1, c1, r2, cols);
    lemma_mul_inequality(r1 + 1, r2, cols);
}

/// A row-major buffer of sample rows, one byte per feature.
pub struct SampleBuffer {
    data: Vec<u8>,
    rows: usize,
    cols: usize,
}

impl View for SampleBuffer {
    type V = Seq<Seq<u8>>;

    closed spec fn view(&self) -> Seq<Seq<u8>> {
        Seq::new(
            self.rows as nat,
            |r: int| Seq::new(self.cols as nat, |c: int| self.data@[r * self.cols + c]),
        )
    }
}

impl SampleBuffer {
    /// The number of sample rows.
    pub closed spec fn spec_rows(self) -> nat {
        self.rows as nat
    }

    /// The number of features per row.
    pub closed spec fn spec_cols(self) -> nat {
        self.cols as nat
    }

    /// The flat block holds exactly `rows * cols` bytes.
    pub closed spec fn wf(self) -> bool {
        self.data@.len() == self.spec_rows() * self.spec_cols()
    }

    /// The view always has `rows` rows of `cols` entries each.
    pub proof fn lemma_shape(self)
        ensures
            self@.len() == self.spec_rows(),
            forall|r: int| 0 <= r < self@.len() ==> (#[trigger] self@[r]).len() == self.spec_cols(),
    {
    }

    /// A zeroed buffer of the given shape.
    pub fn new(rows: usize, cols: usize) -> (r: SampleBuffer)
        requires
            rows * cols <= usize::MAX,
        ensures
            r.wf(),
            r.spec_rows() == rows,
            r.spec_cols() == cols,
            forall|i: int, j: int| 0 <= i < rows && 0 <= j < cols ==> r@[i][j] == 0u8,
    {
        proof {
            lemma_mul_nonnegative(rows as int, cols as int);
        }
        let total: usize = rows * cols;
        let mut data: Vec<u8> = Vec::new();
        let mut k: usize = 0;
        while k < total
            invariant
                data@.len() == k,
                k <= total,
                forall|i: int| 0 <= i < k ==> data@[i] == 0u8,
            decreases total - k,
        {
            data.push(0);
            k = k + 1;
        }
        let buf = SampleBuffer { data, rows, cols };
        proof {
            assert forall|i: int, j: int| 0 <= i < rows && 0 <= j < cols implies buf@[i][j]
                == 0u8 by {
                lemma_flat_index(i, j, rows as int, cols as int);
            }
        }
        buf
    }

    /// The number of sample rows.
    pub fn rows(&self) -> (r: usize)
        ensures
            r as nat == self.spec_rows(),
    {
        self.rows
    }

    /// The number of features per row.
    pub fn cols(&self) -> (r: usize)
        ensures
            r as nat == self.spec_cols(),
    {
        self.cols
    }

    /// Reads one entry.
    pub fn get(&self, r: usize, c: usize) -> (v: u8)
        requires
            self.wf(),
            r < self.spec_rows(),
            c < self.spec_cols(),
        ensures
            v == self@[r as int][c as int],
    {
        let _len = self.data.len();
        proof {
            lemma_flat_index(r as int, c as int, self.rows as int, self.cols as int);
        }
        self.data[r * self.cols + c]
    }

    /// Writes one whole sample row, bounds-checked: a row index past the
    /// last row is a `BufferOverflow` and leaves the buffer untouched.
    pub fn write_sample(&mut self, row: usize, sample: &Vec<u8>) -> (res: Result<(), TrainError>)
        requires
            old(self).wf(),
            sample@.len() == old(self).spec_cols(),
        ensures
            final (self).wf(),
            final (self).spec_rows() == old(self).spec_rows(),
            final (self).spec_cols() == old(self).spec_cols(),
            match res {
                Ok(()) => {
                    &&& row < old(self).spec_rows()
                    &&& final (self)@ == old(self)@.update(row as int, sample@)
                },
                Err(e) => {
                    &&& row >= old(self).spec_rows()
                    &&& e == (TrainError::BufferOverflow {
                        row,
                        rows: old(self).spec_rows() as usize,
                    })
                    &&& final (self)@ == old(self)@
                },
            },
    {
        if row >= self.rows {
            return Err(TrainError::BufferOverflow { row, rows: self.rows });
        }
        let total = self.data.len();
        proof {
            lemma_mul_inequality(row as int, self.rows as int, self.cols as int);
            lemma_mul_nonnegative(row as int, self.cols as int);
        }
        let base: usize = row * self.cols;
        let mut c: usize = 0;
        while c < self.cols
            invariant
                c <= self.cols,
                row < self.rows,
                base == row * self.cols,
                sample@.len() == self.cols,
                self.wf(),
                self.rows == old(self).rows,
                self.cols == old(self).cols,
                self.data@.len() == old(self).data@.len(),
                total == self.data@.len(),
                forall|k: int|
                    0 <= k < self.data@.len() && !(base <= k < base + c) ==> self.data@[k] == old(
                        self,
                    ).data@[k],
                forall|j: int| 0 <= j < c ==> self.data@[base + j] == sample@[j],
            decreases self.cols - c,
        {
            proof {
                lemma_flat_index(row as int, c as int, self.rows as int, self.cols as int);
            }
            self.data.set(base + c, sample[c]);
            c = c + 1;
        }
        proof {
            let rows = self.rows as int;
            let cols = self.cols as int;
            assert forall|r: int| 0 <= r < rows implies self@[r] == old(self)@.update(
                row as int,
                sample@,
            )[r] by {
                if r == row as int {
                    assert forall|j: int| 0 <= j < cols implies self@[r][j] == sample@[j] by {
                        lemma_flat_index(r, j, rows, cols);
                    }
                    assert(self@[r] =~= sample@);
                } else {
                    assert forall|j: int| 0 <= j < cols implies self@[r][j] == old(self)@[r][j] by {
                        lemma_flat_index(r, j, rows, cols);
                        if r < row as int {
                            lemma_rows_disjoint(r, j, row as int, 0, cols);
                        } else {
                            if cols > 0 {
                                lemma_rows_disjoint(row as int, cols - 1, r, j, cols);
                            }
                        }
                    }
                    assert(self@[r] =~= old(self)@[r]);
                }
            }
            assert(self@ =~= old(self)@.update(row as int, sample@));
        }
        Ok(())
    }
}

/// A row-major buffer of per-class scores, one row per sample, one column
/// per class. Scores are plain signed integers; a higher score means a
/// more likely class.
pub struct ScoreBuffer {
    data: Vec<i64>,
    rows: usize,
    cols: usize,
}

impl View for ScoreBuffer {
    type V = Seq<Seq<i64>>;

    closed spec fn view(&self) -> Seq<Seq<i64>> {
        Seq::new(
            self.rows as nat,
            |r: int| Seq::new(self.cols as nat, |c: int| self.data@[r * self.cols + c]),
        )
    }
}

impl ScoreBuffer {
    /// The number of sample rows.
    pub closed spec fn spec_rows(self) -> nat {
        self.rows as nat
    }

    /// The number of class columns.
    pub closed spec fn spec_cols(self) -> nat {
        self.cols as nat
    }

    /// The flat block holds exactly `rows * cols` scores.
    pub closed spec fn wf(self) -> bool {
        self.data@.len() == self.spec_rows() * self.spec_cols()
    }

    /// The view always has `rows` rows of `cols` entries each.
    pub proof fn lemma_shape(self)
        ensures
            self@.len() == self.spec_rows(),
            forall|r: int| 0 <= r < self@.len() ==> (#[trigger] self@[r]).len() == self.spec_cols(),
    {
    }

    /// A zeroed score buffer of the given shape.
    pub fn new(rows: usize, cols: usize) -> (r: ScoreBuffer)
        requires
            rows * cols <= usize::MAX,
        ensures
            r.wf(),
            r.spec_rows() == rows,
            r.spec_cols() == cols,
            forall|i: int, j: int| 0 <= i < rows && 0 <= j < cols ==> r@[i][j] == 0i64,
    {
        proof {
            lemma_mul_nonnegative(rows as int, cols as int);
        }
        let total: usize = rows * cols;
        let mut data: Vec<i64> = Vec::new();
        let mut k: usize = 0;
        while k < total
            invariant
                data@.len() == k,
                k <= total,
                forall|i: int| 0 <= i < k ==> data@[i] == 0i64,
            decreases total - k,
        {
            data.push(0);
            k = k + 1;
        }
        let buf = ScoreBuffer { data, rows, cols };
        proof {
            assert forall|i: int, j: int| 0 <= i < rows && 0 <= j < cols implies buf@[i][j]
                == 0i64 by {
                lemma_flat_index(i, j, rows as int, cols as int);
            }
        }
        buf
    }

    /// The number of sample rows.
    pub fn rows(&self) -> (r: usize)
        ensures
            r as nat == self.spec_rows(),
    {
        self.rows
    }

    /// The number of class columns.
    pub fn cols(&self) -> (r: usize)
        ensures
            r as nat == self.spec_cols(),
    {
        self.cols
    }

    /// Reads one score.
    pub fn get(&self, r: usize, c: usize) -> (v: i64)
        requires
            self.wf(),
            r < self.spec_rows(),
            c < self.spec_cols(),
        ensures
            v == self@[r as int][c as int],
    {
        let _len = self.data.len();
        proof {
            lemma_flat_index(r as int, c as int, self.rows as int, self.cols as int);
        }
        self.data[r * self.cols + c]
    }

    /// Writes one score.
    pub fn set_score(&mut self, r: usize, c: usize, v: i64)
        requires
            old(self).wf(),
            r < old(self).spec_rows(),
            c < old(self).spec_cols(),
        ensures
            final (self).wf(),
            final (self).spec_rows() == old(self).spec_rows(),
            final (self).spec_cols() == old(self).spec_cols(),
            final (self)@ == old(self)@.update(r as int, old(self)@[r as int].update(c as int, v)),
    {
        let _len = self.data.len();
        proof {
            lemma_flat_index(r as int, c as int, self.rows as int, self.cols as int);
        }
        self.data.set(r * self.cols + c, v);
        proof {
            let rows = self.rows as int;
            let cols = self.cols as int;
            let target = old(self)@.update(r as int, old(self)@[r as int].update(c as int, v));
            assert forall|i: int| 0 <= i < rows implies self@[i] == target[i] by {
                assert forall|j: int| 0 <= j < cols implies self@[i][j] == target[i][j] by {
                    lemma_flat_index(i, j, rows, cols);
                    if i != r as int {
                        if i < r as int {
                            lemma_rows_disjoint(i, j, r as int, c as int, cols);
                        } else {
                            lemma_rows_disjoint(r as int, c as int, i, j, cols);
                        }
                    }
                }
                assert(self@[i] =~= target[i]);
            }
            assert(self@ =~= target);
        }
    }
}

/// Every one of the `cnt` rows starting at `pos` decodes into a record of
/// `fc` pixels.
pub open spec fn rows_decode(rows: Seq<Seq<u8>>, pos: int, cnt: int, fc: nat) -> bool {
    forall|k: int| 0 <= k < cnt ==> spec_row_ok(#[trigger] rows[pos + k], fc)
}

/// Pulls up to a fixed number of records per call and writes them into a
/// sample buffer, one row per record, collecting the labels separately.
#[derive(Debug)]
pub struct BatchAssembler {
    batch_size: usize,
}

impl BatchAssembler {
    /// The number of records pulled per full batch.
    pub closed spec fn spec_batch_size(self) -> nat {
        self.batch_size as nat
    }

    /// An assembler for batches of `batch_size` records. A zero batch size
    /// is a configuration error.
    pub fn new(batch_size: usize) -> (r: Result<BatchAssembler, TrainError>)
        ensures
            match r {
                Ok(a) => batch_size >= 1 && a.spec_batch_size() == batch_size,
                Err(e) => batch_size == 0 && e == TrainError::Configuration,
            },
    {
        if batch_size == 0 {
            return Err(TrainError::Configuration);
        }
        Ok(BatchAssembler { batch_size })
    }

    /// The number of records pulled per full batch.
    pub fn batch_size(&self) -> (r: usize)
        ensures
            r as nat == self.spec_batch_size(),
    {
        self.batch_size
    }

    /// Fills one batch: pulls up to `batch_size` records from `source`,
    /// writes each record's pixels into its row of `buffer`, and returns
    /// the number written together with the true labels, in pull order.
    ///
    /// A short count reports that the source is exhausted — the expected
    /// end-of-epoch signal, not an error. Rows past the short count keep
    /// their previous contents. A batch that would not fit the buffer is
    /// rejected whole with `BufferOverflow` before anything is pulled; a
    /// malformed row aborts the fill with `Decode`, the rows before it
    /// already written.
    pub fn fill(&self, buffer: &mut SampleBuffer, source: &mut RecordDecoder) -> (res: Result<
        (usize, Vec<u8>),
        TrainError,
    >)
        requires
            old(buffer).wf(),
            old(source).wf(),
            old(source).spec_feature_count() == old(buffer).spec_cols(),
        ensures
            final (buffer).wf(),
            final (source).wf(),
            final (buffer).spec_rows() == old(buffer).spec_rows(),
            final (buffer).spec_cols() == old(buffer).spec_cols(),
            final (source).rows_view() == old(source).rows_view(),
            final (source).spec_feature_count() == old(source).spec_feature_count(),
            ({
                let rows = old(source).rows_view();
                let pos = old(source).spec_pos() as int;
                let fc = old(source).spec_feature_count();
                let rem = rows.len() - pos;
                let m = if self.spec_batch_size() <= rem {
                    self.spec_batch_size() as int
                } else {
                    rem as int
                };
                match res {
                    Ok((n, labels)) => {
                        &&& n == m
                        &&& m <= old(buffer).spec_rows()
                        &&& rows_decode(rows, pos, m, fc)
                        &&& labels@.len() == m
                        &&& forall|k: int|
                            0 <= k < m ==> labels@[k] == spec_row_label(#[trigger] rows[pos + k])
                        &&& forall|k: int|
                            0 <= k < m ==> final (buffer)@[k] == spec_row_pixels(
                                #[trigger] rows[pos + k],
                                fc,
                            )
                        &&& forall|k: int|
                            m <= k < old(buffer)@.len() ==> final (buffer)@[k] == old(buffer)@[k]
                        &&& final (source).spec_pos() == pos + m
                    },
                    Err(TrainError::BufferOverflow { row, rows: brows }) => {
                        &&& m > old(buffer).spec_rows()
                        &&& row as nat == old(buffer).spec_rows()
                        &&& brows as nat == old(buffer).spec_rows()
                        &&& final (buffer)@ == old(buffer)@
                        &&& final (source).spec_pos() == old(source).spec_pos()
                    },
                    Err(TrainError::Decode { row, error }) => {
                        let k = row - pos;
                        &&& m <= old(buffer).spec_rows()
                        &&& 0 <= k < m
                        &&& rows_decode(rows, pos, k, fc)
                        &&& !spec_row_ok(rows[row as int], fc)
                        &&& spec_row_err(rows[row as int], fc, error)
                        &&& forall|j: int|
                            0 <= j < k ==> final (buffer)@[j] == spec_row_pixels(
                                #[trigger] rows[pos + j],
                                fc,
                            )
                        &&& forall|j: int|
                            k <= j < old(buffer)@.len() ==> final (buffer)@[j] == old(buffer)@[j]
                        &&& final (source).spec_pos() == row as nat
                    },
                    Err(_) => false,
                }
            }),
    {
        let ghost rows = old(source).rows_view();
        let ghost pos0 = old(source).spec_pos() as int;
        let ghost fc = old(source).spec_feature_count();
        let rem = source.remaining();
        let n = if self.batch_size <= rem {
            self.batch_size
        } else {
            rem
        };
        if n > buffer.rows() {
            let r = buffer.rows();
            return Err(TrainError::BufferOverflow { row: r, rows: r });
        }
        let start = source.position();
        let dlen = source.dataset_len();
        let mut labels: Vec<u8> = Vec::new();
        let mut k: usize = 0;
        while k < n
            invariant
                k <= n,
                n as nat <= old(buffer).spec_rows(),
                pos0 + n <= rows.len(),
                rows == old(source).rows_view(),
                pos0 == old(source).spec_pos() as int,
                fc == old(source).spec_feature_count(),
                dlen as int == rows.len(),
                n as int == ({
                    let rem2 = rows.len() - pos0;
                    if self.spec_batch_size() <= rem2 {
                        self.spec_batch_size() as int
                    } else {
                        rem2 as int
                    }
                }),
                buffer.wf(),
                source.wf(),
                buffer.spec_rows() == old(buffer).spec_rows(),
                buffer.spec_cols() == old(buffer).spec_cols(),
                source.rows_view() == rows,
                source.spec_feature_count() == fc,
                fc == old(buffer).spec_cols(),
                start as int == pos0,
                source.spec_pos() == pos0 + k,
                labels@.len() == k,
                rows_decode(rows, pos0, k as int, fc),
                forall|j: int| 0 <= j < k ==> labels@[j] == spec_row_label(#[trigger] rows[pos0 + j]),
                forall|j: int|
                    0 <= j < k ==> buffer@[j] == spec_row_pixels(#[trigger] rows[pos0 + j], fc),
                forall|j: int| k <= j < old(buffer)@.len() ==> buffer@[j] == old(buffer)@[j],
            decreases n - k,
        {
            proof {
                buffer.lemma_shape();
            }
            match source.next_record() {
                Ok(Some(rec)) => {
                    match buffer.write_sample(k, &rec.pixels) {
                        Ok(()) => {},
                        Err(e) => {
                            // unreachable: k < n <= the buffer's rows
                            proof {
                                assert(false);
                            }
                            return Err(e);
                        },
                    }
                    labels.push(rec.label);
                },
                Ok(None) => {
                    // unreachable: k < n <= the records remaining
                    proof {
                        assert(false);
                    }
                    return Err(TrainError::Configuration);
                },
                Err(error) => {
                    return Err(TrainError::Decode { row: start + k, error });
                },
            }
            k = k + 1;
        }
        Ok((n, labels))
    }
}

} // verus!
