//! Neural compiler: quantizes weights, generates METL binaries for inference chips,
//! and schedules layers.
//!
//! Weights and biases are single-precision numbers held by their bit patterns
//! ([`Binary32`]). All arithmetic on them is carried out on integers and proved to
//! round as IEEE 754 does, so that every result of the compiler has an exact
//! contract.

pub mod bytes;
pub mod compiler;
pub mod float;
pub mod layer;
pub mod metl;
pub mod quant;
pub mod rounding;
pub mod schedule;

pub use crate::compiler::NeuralCompiler;
pub use crate::float::{Binary32, Binary64};
pub use crate::layer::{Activation, Layer, QuantMode};
pub use crate::metl::{MetlBinary, MetlHeader, MetlLayer};
pub use crate::quant::QuantTensor;
pub use crate::schedule::{LayerSchedule, ScheduledLayer};
