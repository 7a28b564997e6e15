use vstd::prelude::*;

verus! {

/// Why a single row of the dataset is malformed.
#[derive(Clone, Copy, Debug, PartialEq, Eq, Structural)]
pub enum DecodeError {
    /// The row does not hold exactly `1 + feature_count` delimited fields;
    /// `found` is the number of fields it does hold.
    FieldCount { found: usize },
    /// The field at index `field` (0 is the label) is empty, holds a
    /// non-digit byte, or encodes a value above 255.
    BadField { field: usize },
    /// The row decoded, but its label is not below the configured number
    /// of classes.
    LabelRange { label: u8 },
}

/// The errors of the training core. Every one of them marks a configuration
/// or data-integrity defect and is unrecoverable where it occurs.
#[derive(Clone, Copy, Debug, PartialEq, Eq, Structural)]
pub enum TrainError {
    /// The row at index `row` of the dataset is malformed.
    Decode { row: usize, error: DecodeError },
    /// The assembler was asked to write sample `row` of a batch, but the
    /// buffer holds only `rows` rows.
    BufferOverflow { row: usize, rows: usize },
    /// Predictions and true labels were handed over in differing numbers.
    LengthMismatch { predictions: usize, labels: usize },
    /// The trainer's output buffer does not have the agreed shape
    /// (`rows` and `cols` are the shape that was found).
    ShapeMismatch { rows: usize, cols: usize },
    /// The configuration is invalid (a zero batch size or class count, or a
    /// buffer too large to address); found before the loop starts.
    Configuration,
}

} // verus!
