//! A structured fork-join parallelism primitive for divide-and-conquer
//! numerical algorithms: a fixed-size worker pool, a scoped spawn/join
//! surface, and the chunk planning that partitions work across workers.

pub mod multicore;
pub mod planner;

pub use multicore::Scope;
pub use multicore::Worker;
pub use planner::checked_log2_floor;
pub use planner::log2_floor;
pub use planner::plan_chunk_size;
pub use planner::MulticoreError;
