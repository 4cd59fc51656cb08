//! Sample programs the passes are run on: sorting, graph traversal, process
//! scheduling and user permissions. Memory of the caller is passed as
//! vectors and references, and queued processes as table indices.

pub mod bfs;
pub mod insertion_sort;
pub mod mlfq;
pub mod perms;
