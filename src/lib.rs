//! An in-memory pool of pending transactions that tracks the dependencies
//! between them and answers which transactions are ready to run.

pub mod laws;
pub mod pool;
pub mod transaction;
