use std::sync::Arc;

use cherry_sight::performance::{
    BackgroundWorker, CacheManager, CacheStrategy, IndexRequest, MemoryPool, ParallelIndexer,
    TaskPriority, WorkerQueue,
};
use cherry_sight::util::FileId;

#[test]
fn test_worker_queue() {
    let mut queue = WorkerQueue::new();

    let request = IndexRequest {
        file_id: FileId::new(1),
        content: Arc::new("test".to_string()),
        timestamp: 0,
    };

    queue.push(request);
    assert_eq!(queue.len(), 1);

    let popped = queue.pop();
    assert!(popped.is_some());
    assert!(queue.is_empty());
}

#[test]
fn test_background_worker() {
    let mut worker = BackgroundWorker::new();

    assert!(!worker.is_running());

    worker.start();
    assert!(worker.is_running());

    worker.stop();
    assert!(!worker.is_running());
}

#[test]
fn test_worker_submit() {
    let mut worker = BackgroundWorker::new();

    let request = IndexRequest {
        file_id: FileId::new(1),
        content: Arc::new("content".to_string()),
        timestamp: 100,
    };

    worker.submit(request);
    assert_eq!(worker.queue().len(), 1);
}

#[test]
fn worker_queue_is_first_in_first_out() {
    let mut queue = WorkerQueue::new();
    for t in 0..3u64 {
        queue.push(IndexRequest { file_id: FileId::new(t as u32), content: Arc::new(String::new()), timestamp: t });
    }
    assert_eq!(queue.pop().unwrap().timestamp, 0);
    assert_eq!(queue.pop().unwrap().timestamp, 1);
    queue.clear();
    assert!(queue.pop().is_none());
}

#[test]
fn test_memory_pool() {
    let mut pool: MemoryPool<String> = MemoryPool::new(10);

    pool.release("test".to_string());
    assert!(pool.acquire().is_some());
    assert!(pool.acquire().is_none());
}

#[test]
fn memory_pool_drops_beyond_capacity() {
    let mut pool: MemoryPool<u8> = MemoryPool::new(1);
    pool.release(1);
    pool.release(2);
    assert_eq!(pool.acquire(), Some(1));
    assert_eq!(pool.acquire(), None);
}

#[test]
fn test_cache_manager() {
    let mut cache: CacheManager<String, i32> = CacheManager::new(100, CacheStrategy::Lru);

    cache.insert("key1".to_string(), 42);
    assert_eq!(cache.get(&"key1".to_string()), Some(42));
    assert_eq!(cache.size(), 1);
}

#[test]
fn test_cache_eviction() {
    let mut cache: CacheManager<i32, i32> = CacheManager::new(2, CacheStrategy::Lru);

    cache.insert(1, 10);
    cache.insert(2, 20);
    cache.insert(3, 30); // Should trigger eviction

    assert_eq!(cache.size(), 2);
}

#[test]
fn cache_evicts_oldest_and_keeps_latest_value() {
    let mut cache: CacheManager<i32, i32> = CacheManager::new(2, CacheStrategy::Fifo);
    cache.insert(1, 10);
    cache.insert(2, 20);
    cache.insert(3, 30);
    assert_eq!(cache.get(&1), None);
    assert_eq!(cache.get(&3), Some(30));
    cache.insert(3, 31);
    assert_eq!(cache.get(&3), Some(31));
    assert_eq!(cache.size(), 1);
    let stats = cache.stats();
    assert_eq!(stats.max_size, 2);
    assert_eq!(stats.strategy, CacheStrategy::Fifo);
    cache.clear();
    assert_eq!(cache.size(), 0);
}

#[test]
fn cache_with_string_keys_replaces_in_place() {
    let mut cache: CacheManager<String, i32> = CacheManager::new(3, CacheStrategy::Lru);
    cache.insert("a".to_string(), 1);
    cache.insert("b".to_string(), 2);
    cache.insert("a".to_string(), 3);
    assert_eq!(cache.size(), 2);
    assert_eq!(cache.get(&"a".to_string()), Some(3));
    assert_eq!(cache.get(&"b".to_string()), Some(2));
    assert_eq!(cache.get(&"c".to_string()), None);
    // The cache is not full, so nothing is evicted.
    cache.insert("c".to_string(), 4);
    assert_eq!(cache.size(), 3);
    // Now it is: the oldest entry, "a", goes first.
    cache.insert("d".to_string(), 5);
    assert_eq!(cache.size(), 3);
    assert_eq!(cache.get(&"a".to_string()), None);
    assert_eq!(cache.get(&"d".to_string()), Some(5));
}

#[test]
fn cache_of_size_zero_keeps_one_entry() {
    let mut cache: CacheManager<i32, i32> = CacheManager::new(0, CacheStrategy::Lfu);
    cache.insert(1, 1);
    cache.insert(2, 2);
    assert_eq!(cache.size(), 1);
    assert_eq!(cache.get(&2), Some(2));
}

#[test]
fn test_task_priority_ordering() {
    assert!(TaskPriority::Critical > TaskPriority::High);
    assert!(TaskPriority::High > TaskPriority::Normal);
    assert!(TaskPriority::Normal > TaskPriority::Low);
}

#[test]
fn test_parallel_indexer_creation() {
    let indexer = ParallelIndexer::new(4);
    assert!(indexer.thread_count >= 1);
}

#[test]
fn test_optimal_threads() {
    let count = ParallelIndexer::optimal_threads();
    assert!(count >= 1);
}

#[test]
fn default_indexer_uses_the_available_cpus() {
    let indexer = ParallelIndexer::default();
    assert_eq!(indexer.thread_count, ParallelIndexer::optimal_threads());
    assert!(indexer.index_files(Vec::new()).is_empty());
}
