//! Device buffers, launch grids and measured launch plans of the matrix kernels.
pub mod buf;
pub mod fields;
pub mod measure;
pub mod opening;
pub mod store;
pub mod tune;
pub mod work;
