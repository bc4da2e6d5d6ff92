//! Sessions, generation and measures.

pub mod bit_byte_laws;
pub mod bit_lifecycle;
pub mod bit_replay;
pub mod bit_session;
pub mod bit_updates;
pub mod bits;
pub mod generation;
pub mod metrics;
pub mod ncd;
pub mod predictor;
pub mod ranking;
pub mod session;
pub mod types;
