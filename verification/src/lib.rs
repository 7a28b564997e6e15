//! A minimal supervised-learning training harness: decodes labeled records
//! from delimited text rows, assembles fixed-size minibatches into flat
//! sample buffers, and keeps running classification-accuracy statistics in a
//! confusion matrix. The numeric training step itself is an external
//! capability: the training loop prepares a batch, hands its buffers out,
//! and consumes the returned score buffer.

pub mod errors;
pub mod record;
pub mod batch;
pub mod matrix;
pub mod train;
