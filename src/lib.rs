//! Dense integer matrix multiplication, split into independent per-cell
//! dot-product jobs that a pool of workers can compute in any order, and a
//! fixed set of named counters that threads can share.

pub mod amap;
pub mod dispatch;
pub mod error;
pub mod matrix;
pub mod render;
pub mod vector;

pub use amap::AmapMetrics;
pub use dispatch::{
    assemble, multiply, plan_jobs, product_in_range, MsgInput, MsgOutput, DEFAULT_WORKERS,
};
pub use error::{MatrixError, MetricsError};
pub use matrix::Matrix;
pub use vector::Vector;
