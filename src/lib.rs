//! Skew estimation and correction for scanned documents: exact projection
//! statistics, the projection and line-voting estimators, the cascade that
//! reconciles them, and a bounded job pool.
pub mod calculate;
pub mod hough;
pub mod omr;
pub mod projection;
pub mod thread_pool;
pub mod transfer;
pub mod types;
