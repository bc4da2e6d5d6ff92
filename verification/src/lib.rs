//! Building blocks of compression-based information measures.

pub mod api;
pub mod backends;
pub mod byte_prefix;
pub mod coders;
pub mod hashed_store;
pub mod limbs;
pub mod machine_numbers;
pub mod places;
pub mod real_forms;
pub mod reals;
pub mod shared;
pub mod text;
pub mod text_forms;
pub mod text_laws;
