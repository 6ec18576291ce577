//! Content-based similarity scoring, similarity-graph construction and
//! damped power-iteration ranking for a catalog of titles.
//!
//! Every score, weight and rank is a fixed-point fraction counted in
//! billionths: the integer [`score::SCALE`] stands for the real number one.

pub mod score;
pub mod metrics;
pub mod text;
pub mod movie;
pub mod similarity;
pub mod graph;
pub mod builder;
pub mod rank;
pub mod mass;
pub mod sample;
pub mod leaders;
