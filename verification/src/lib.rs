//! Distributed mutual exclusion over a set of independent key-value storage
//! nodes. A coordinator fans an atomic acquire / extend / release primitive
//! out to every node, counts the votes, and grants a lock only when a
//! majority (the quorum) agreed and enough of the requested time-to-live is
//! left after subtracting a clock-drift allowance and the elapsed round time.

pub mod lock;
pub mod node;
pub mod cluster;

pub use crate::lock::{Lock, LockError, LockGuard, LockManager};

