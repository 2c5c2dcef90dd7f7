//! Top-down dynamic programming with pluggable memoisation caches.
pub mod cache;
pub mod collecting;
pub mod dp;
pub mod wrap_unsafe;
