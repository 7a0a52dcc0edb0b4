//! A self-scaling, work-stealing thread pool: the verified core.

pub mod threadpool;
pub mod wsqueue1;
