//! A verified recommendation-serving core.
//!
//! Candidates for a named part are scored against a linear model by an
//! equality join of sparse feature lists followed by a dot product, ranked
//! by descending score with ties in candidate order, optionally re-ranked
//! by a single exploratory swap, truncated to the requested count, and
//! recorded as an activity for later feedback-driven retraining.
//!
//! Values and model weights are exact fixed-point integers (`SCALE` per
//! real unit).  The logistic transform that turns a raw score into a
//! probability is strictly monotone and therefore never changes the
//! ranking; it is presentation, applied by callers outside this crate.

pub mod engine;
pub mod features;
pub mod predict;
pub mod rank;
pub mod store;

pub use engine::Core;
pub use engine::PartConfig;
pub use engine::RecommendError;
pub use engine::Request;
pub use engine::Response;
pub use engine::pluck_model;
pub use features::FeatureList;
pub use store::Activity;
pub use store::Example;
pub use store::MemStore;
pub use store::Store;
pub use store::StoreError;
