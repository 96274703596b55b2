//! The bookkeeping core of a small fully-connected neural network trainer.
//!
//! The numbers of a network are floating point and live with the caller. What
//! is decided without looking at a single number is decided here, and proved:
//! which tensors a network has and what shape each of them is, in which order
//! the kernels of a forward pass, of backpropagation and of a mini-batch update
//! run, how a shuffled training set falls into mini-batches, and which class a
//! vector of output scores stands for.

pub mod batch;
pub mod dataset;
pub mod error;
pub mod network;
pub mod plan;
pub mod scoring;
pub mod shape;
pub mod training;
