//! Three small synchronization-flavoured building blocks, each verified:
//! a memoizing key/value cache, the job bookkeeping of a worker thread
//! pool, and a sorted set kept as a singly linked list.

pub mod cache;
pub mod list_set;
pub mod thread_pool;
