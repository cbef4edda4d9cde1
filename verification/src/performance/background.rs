//! Background indexing: a first-in first-out queue of index requests and a
//! worker that owns one.

use vstd::prelude::*;
use std::collections::VecDeque;
use std::sync::Arc;
use crate::util::span::FileId;

verus! {

/// A request to index a file's content.
#[derive(Debug, Clone)]
pub struct IndexRequest {
    pub file_id: FileId,
    pub content: Arc<String>,
    pub timestamp: u64,
}

/// A first-in first-out queue of index requests.
pub struct WorkerQueue {
    queue: VecDeque<IndexRequest>,
}

impl View for WorkerQueue {
    type V = Seq<IndexRequest>;

    /// The queued requests, oldest first.
    closed spec fn view(&self) -> Seq<IndexRequest> {
        self.queue@
    }
}

impl WorkerQueue {
    /// An empty queue.
    pub fn new() -> (res: Self)
        ensures
            res@ == Seq::<IndexRequest>::empty(),
    {
        WorkerQueue { queue: VecDeque::new() }
    }

    /// Adds a request at the back.
    pub fn push(&mut self, request: IndexRequest)
        ensures
            final(self)@ == old(self)@.push(request),
    {
        self.queue.push_back(request);
    }

    /// Takes the oldest request, if there is one.
    pub fn pop(&mut self) -> (res: Option<IndexRequest>)
        ensures
            old(self)@.len() == 0 ==> res is None && final(self)@ == old(self)@,
            old(self)@.len() > 0 ==> res == Some(old(self)@[0]) && final(self)@ == old(self)@.drop_first(),
    {
        self.queue.pop_front()
    }

    /// The number of queued requests.
    pub fn len(&self) -> (res: usize)
        ensures
            res == self@.len(),
    {
        self.queue.len()
    }

    /// Whether no request is queued.
    pub fn is_empty(&self) -> (res: bool)
        ensures
            res == (self@.len() == 0),
    {
        self.len() == 0
    }

    /// Removes every request.
    pub fn clear(&mut self)
        ensures
            final(self)@ == Seq::<IndexRequest>::empty(),
    {
        self.queue.clear();
    }
}

/// A background indexing worker: a queue and a running flag.
pub struct BackgroundWorker {
    queue: WorkerQueue,
    running: bool,
}

impl BackgroundWorker {
    /// The requests queued for the worker.
    pub closed spec fn pending(&self) -> Seq<IndexRequest> {
        self.queue@
    }

    /// Whether the worker has been started and not stopped since.
    pub closed spec fn spec_running(&self) -> bool {
        self.running
    }

    /// A stopped worker with an empty queue.
    pub fn new() -> (res: Self)
        ensures
            !res.spec_running(),
            res.pending() == Seq::<IndexRequest>::empty(),
    {
        BackgroundWorker { queue: WorkerQueue::new(), running: false }
    }

    /// Marks the worker as running.
    pub fn start(&mut self)
        ensures
            final(self).spec_running(),
            final(self).pending() == old(self).pending(),
    {
        self.running = true;
    }

    /// Marks the worker as stopped.
    pub fn stop(&mut self)
        ensures
            !final(self).spec_running(),
            final(self).pending() == old(self).pending(),
    {
        self.running = false;
    }

    /// Queues a request for background processing.
    pub fn submit(&mut self, request: IndexRequest)
        ensures
            final(self).pending() == old(self).pending().push(request),
            final(self).spec_running() == old(self).spec_running(),
    {
        self.queue.push(request);
    }

    /// The worker's queue.
    pub fn queue(&self) -> (res: &WorkerQueue)
        ensures
            res@ == self.pending(),
    {
        &self.queue
    }

    /// Whether the worker is running.
    pub fn is_running(&self) -> (res: bool)
        ensures
            res == self.spec_running(),
    {
        self.running
    }
}

impl Default for WorkerQueue {
    fn default() -> (res: Self)
        ensures
            res@ == Seq::<IndexRequest>::empty(),
    {
        Self::new()
    }
}

impl Default for BackgroundWorker {
    fn default() -> (res: Self)
        ensures
            !res.spec_running(),
            res.pending() == Seq::<IndexRequest>::empty(),
    {
        Self::new()
    }
}

} // verus!
