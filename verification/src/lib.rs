//! Model layer of a learned index: trainable functions that map a sorted key
//! to an approximate position in a stored array.
//!
//! Floating-point values never appear in this crate. A double-precision
//! parameter is carried as its IEEE-754 bit pattern in a `u64`; whoever
//! evaluates a model converts at the boundary.

pub mod bits;
pub mod data;
pub mod learned_fib;
pub mod model;
pub mod neural_network;
pub mod radix;
pub mod segmentation;
pub mod text;

pub use bits::{common_prefix_size, num_bits};
pub use data::ModelData;
pub use learned_fib::{bucket_runs, clip, BucketRun, LearnedFIB};
pub use model::{Model, ModelDataType, ModelParam, ModelRestriction};
pub use neural_network::{HiddenUnit, LoadError, NN};
pub use radix::{RadixModel, RadixTable};
pub use segmentation::{Probe, Segmenter};
