//! Predictive models, their method strings and their schedules.

pub mod bit_reservoir;
pub mod calibration;
pub mod calibration_laws;
pub mod context_counter;
pub mod context_laws;
pub mod context_models;
pub mod llm_policy;
pub mod method_path;
pub mod order_stream;
pub mod path_laws;
pub mod policy_error;
pub mod policy_forms;
pub mod policy_laws;
pub mod policy_schedule;
pub mod ppmd;
pub mod ppmd_laws;
pub mod reading_laws;
pub mod registry;
pub mod rosaplus;
pub mod rwkvzip;
pub mod schedule_laws;
pub mod split_laws;
pub mod text_context;
pub mod zpaq_rate;
