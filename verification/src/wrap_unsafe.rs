//! Building vectors slot by slot.
pub mod maybe_garbage_vec;
