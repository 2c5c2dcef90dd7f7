//! Dynamic programming over problems that split into dependent sub-problems.
pub mod get_state;
pub mod reach;
pub mod simple;
pub mod state;
pub mod traits;
pub mod topdown;

pub use crate::dp::simple::simple_dp;
