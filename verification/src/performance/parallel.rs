//! Parallel indexing tasks.

use vstd::prelude::*;
use std::sync::Arc;
use crate::util::span::FileId;

verus! {

/// Priority of an indexing task, from lowest to highest.
#[derive(Debug, Clone, Copy, PartialEq, Eq, PartialOrd, Ord, Structural)]
pub enum TaskPriority {
    Low,
    Normal,
    High,
    Critical,
}

/// A file to index, with its priority and content.
#[derive(Debug, Clone)]
pub struct IndexingTask {
    pub file_id: FileId,
    pub priority: TaskPriority,
    pub content: Arc<String>,
}

/// Indexes files on several threads.
pub struct ParallelIndexer {
    pub thread_count: usize,
}

/// The number of logical CPUs that this process may use.
///
/// Calls `num_cpus::get`, whose documentation promises a result of at
/// least 1; that is all the contract claims, since the count depends on the
/// machine.
#[verifier::external_body]
fn available_cpus() -> (res: usize)
    ensures
        res >= 1,
{
    num_cpus::get()
}

impl ParallelIndexer {
    /// An indexer that uses `thread_count` threads.
    pub fn new(thread_count: usize) -> (res: Self)
        ensures
            res.thread_count == thread_count,
    {
        ParallelIndexer { thread_count }
    }

    /// Indexes the tasks' files and returns those that were indexed.  No
    /// indexing back end is attached yet, so none is.
    pub fn index_files(&self, _tasks: Vec<IndexingTask>) -> (res: Vec<FileId>)
        ensures
            res@.len() == 0,
    {
        Vec::new()
    }

    /// The number of threads to use: the number of available CPUs, at
    /// least 1.
    pub fn optimal_threads() -> (res: usize)
        ensures
            res >= 1,
    {
        available_cpus()
    }
}

impl Default for ParallelIndexer {
    /// An indexer with the optimal number of threads.
    fn default() -> (res: Self)
        ensures
            res.thread_count >= 1,
    {
        Self::new(Self::optimal_threads())
    }
}

} // verus!
