//! Suffix-automaton predictor with suffix-linked backoff counts.

pub mod footprint;
pub mod caches;
pub mod image;
pub mod image_io;
pub mod index;
pub mod learn;
pub mod lm;
pub mod lm_build;
pub mod model;
pub mod nodes;
pub mod persist;
pub mod query;
pub mod rng;
pub mod sam;
pub mod sam_text;
pub mod sam_walk;
pub mod scoring;
pub mod tallies;
pub mod text_laws;
pub mod train;
pub mod wire;
