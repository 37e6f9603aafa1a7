//! Brute-force nearest-neighbour vector search with verified integer models
//! of its numeric kernels, filters, versioned storage and buffer pooling.
//!
//! Floating-point values travel through the library as binary32 bit
//! patterns; `float_bits` gives them exact IEEE-754 arithmetic in integer
//! form, and everything above it - distance kernels, the versioned store,
//! the top-k selection, the filters, the precision conversions and the
//! buffer pool - carries contracts over that model.

pub mod distance_registry;
pub mod errors;
pub mod filters;
pub mod float_bits;
pub mod gpu_convert;
pub mod gpu_dispatch;
pub mod gpu_memory;
pub mod index;
pub mod laws;
pub mod metrics;
pub mod path_validation;
pub mod topk;
pub mod transcend;
pub mod utils;
