//! A buffer of coordinate-frame relationships for a robot.
//!
//! Every directed edge between two named frames keeps a bounded, time-ordered
//! history of samples. A lookup searches the frame graph for a path between two
//! frames and resolves each edge on it at the requested time, either to a stored
//! sample or to a pair of neighbouring samples to interpolate between. The
//! transform payload itself is opaque here: the library decides what to compose,
//! and the caller supplies the rigid-body arithmetic.

pub mod time;
pub mod error;
pub mod chain;
pub mod graph;
pub mod buffer;

pub use crate::buffer::{get_inverse, StampedTransform, TfBuffer, TransformUpdate, TravelChains};
pub use crate::chain::{Closest, OrderedTF, TfIndividualTransformChain, BUFFER_SIZE};
pub use crate::error::TfError;
pub use crate::time::Time;
