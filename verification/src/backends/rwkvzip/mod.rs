//! Container format, method strings and online training of the recurrent network compressor.

pub mod container;
pub mod method;
pub mod method_laws;
pub mod online;
pub mod online_laws;
pub mod runtime;
pub mod rwkv7;
pub mod sidecar;
pub mod sidecar_json;
