//! A quantile sketch with relative-error guarantees, built around a bounded,
//! dynamically-growing histogram of geometrically sized buckets.
//!
//! The crate is organised in three layers:
//! - [`store::Store`]: a capacity-bounded sparse histogram keyed by signed
//!   integer bucket keys; it grows in either direction and collapses counts
//!   into a boundary bucket once its capacity would be exceeded.
//! - [`sketch::SketchCore`]: a store together with exact running extremes
//!   and the bookkeeping that merging two sketches requires.
//! - [`errors::DDSketchError`]: the two error conditions the sketch can
//!   signal.
//!
//! Sample values enter through an order-preserving integer encoding together
//! with their bucket key; the logarithmic value-to-key mapping itself is
//! left to the caller, since it is a closed-form function of the sketch's
//! accuracy parameters alone.

#![verifier::loop_isolation(false)]

pub mod errors;
pub mod sketch;
pub mod store;

pub use errors::DDSketchError;
pub use sketch::SketchCore;
pub use store::Store;
