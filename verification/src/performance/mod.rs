//! Performance support: background work queues, memory pools and caches,
//! and parallel indexing tasks.

pub mod background;
pub mod memory;
pub mod parallel;

pub use background::{BackgroundWorker, IndexRequest, WorkerQueue};
pub use memory::{CacheKey, CacheManager, CacheStats, CacheStrategy, MemoryPool};
pub use parallel::{IndexingTask, ParallelIndexer, TaskPriority};
