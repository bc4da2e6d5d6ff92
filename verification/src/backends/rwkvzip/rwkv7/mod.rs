//! Parts of the network runtime that do not depend on its kernels.

pub mod profiling;
