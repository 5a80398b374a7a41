//! The worker pool's dispatch and shutdown discipline, as a verified state
//! machine over task tokens.
//!
//! The unverified shell owns the OS threads and the multi-producer /
//! multi-consumer channel; it drives one value of this type (under the
//! pool's lock) through the same steps the real queue takes: `submit` when
//! the producer sends, `worker_fetch` when a worker's receive returns,
//! `close` when the producer handle is dropped, `join_worker` when a joined
//! worker has exited.  The invariant ties every step to the guarantee that
//! teardown loses no task and runs none twice.

use vstd::prelude::*;

verus! {

/// What a worker observes when it asks the shared queue for work.
#[derive(Debug, PartialEq, Eq, Structural)]
pub enum FetchOutcome {
    /// A task, now owned by exactly this worker.
    Task(u64),
    /// The producer handle is closed and the queue is drained: the worker
    /// exits its loop.
    Disconnected,
    /// Nothing is queued but the producer is still open: the worker blocks.
    WouldBlock,
}

/// The lifecycle state of one worker thread.
#[derive(Debug, Clone, Copy, PartialEq, Eq, Structural)]
pub enum WorkerState {
    /// Spawned and looping on the queue.
    Running,
    /// Observed closure, exited its loop, and was joined.
    Joined,
}

/// The pool: a FIFO queue of task tokens, the state of the exclusively
/// owned producer handle, and one lifecycle state per worker.  The ghost
/// history records every token ever submitted and every token ever handed
/// to a worker.
pub struct WorkerPool {
    queue: Vec<u64>,
    closed: bool,
    workers: Vec<WorkerState>,
    submitted: Ghost<Seq<u64>>,
    handed: Ghost<Seq<u64>>,
}

impl WorkerPool {
    /// Every task ever submitted, in submission order.
    pub closed spec fn submitted(&self) -> Seq<u64> {
        self.submitted@
    }

    /// Every task handed to some worker, in hand-out order.
    pub closed spec fn handed(&self) -> Seq<u64> {
        self.handed@
    }

    /// The tasks still queued, front first.
    pub closed spec fn pending(&self) -> Seq<u64> {
        self.queue@
    }

    /// Whether the producer handle has been closed.
    pub closed spec fn is_closed(&self) -> bool {
        self.closed
    }

    /// How many workers the pool was built with.
    pub closed spec fn worker_count(&self) -> nat {
        self.workers@.len()
    }

    /// Whether worker `w` is still running (not yet joined).
    pub closed spec fn worker_running(&self, w: int) -> bool {
        self.workers@[w] is Running
    }

    /// The pool invariant: at least one worker, and the submission history
    /// is exactly the hand-out history followed by what is still queued —
    /// a task is in one place at a time.
    pub open spec fn wf(&self) -> bool {
        self.worker_count() >= 1 && self.submitted() == self.handed() + self.pending()
    }

    /// Teardown is complete: the producer handle is closed, the queue is
    /// drained, and every worker has been joined.
    pub open spec fn torn_down(&self) -> bool {
        &&& self.is_closed()
        &&& self.pending().len() == 0
        &&& forall|w: int| 0 <= w < self.worker_count() ==> !self.worker_running(w)
    }

    /// A fresh pool of `size` workers, all running, nothing submitted.
    /// A zero-sized pool is a programming error, ruled out by the caller.
    pub fn new(size: usize) -> (p: Self)
        requires
            size >= 1,
        ensures
            p.wf(),
            p.worker_count() == size,
            !p.is_closed(),
            p.submitted() == Seq::<u64>::empty(),
            p.handed() == Seq::<u64>::empty(),
            p.pending() == Seq::<u64>::empty(),
            forall|w: int| 0 <= w < size ==> p.worker_running(w),
    {
        let mut workers: Vec<WorkerState> = Vec::new();
        let mut i: usize = 0;
        while i < size
            invariant
                i <= size,
                workers@.len() == i,
                forall|w: int| 0 <= w < i ==> workers@[w] is Running,
            decreases size - i,
        {
            workers.push(WorkerState::Running);
            i = i + 1;
        }
        let p = WorkerPool {
            queue: Vec::new(),
            closed: false,
            workers,
            submitted: Ghost(Seq::empty()),
            handed: Ghost(Seq::empty()),
        };
        proof {
            assert(p.submitted() =~= p.handed() + p.pending());
        }
        p
    }

    /// Submitting enqueues at the back of the shared unbounded queue and
    /// never blocks the submitter: there is no backpressure by design, so
    /// the queue may grow without bound under sustained overload.  The
    /// producer handle must still be open.
    pub fn submit(&mut self, task: u64)
        requires
            old(self).wf(),
            !old(self).is_closed(),
        ensures
            final(self).wf(),
            final(self).pending() == old(self).pending().push(task),
            final(self).submitted() == old(self).submitted().push(task),
            final(self).handed() == old(self).handed(),
            !final(self).is_closed(),
            final(self).worker_count() == old(self).worker_count(),
            forall|w: int|
                0 <= w < old(self).worker_count() ==> final(self).worker_running(w) == old(
                    self,
                ).worker_running(w),
    {
        self.queue.push(task);
        proof {
            self.submitted@ = self.submitted@.push(task);
            assert(self.submitted() =~= self.handed() + self.pending());
        }
    }

    /// One receive by a worker.  The queue is FIFO: if a task is pending,
    /// the front task is handed out, and ownership moves to the calling
    /// worker alone.  An empty queue under a closed producer reads as
    /// disconnection — the worker's signal to exit — never as a task; an
    /// empty queue under an open producer blocks.
    pub fn worker_fetch(&mut self) -> (r: FetchOutcome)
        requires
            old(self).wf(),
        ensures
            final(self).wf(),
            final(self).is_closed() == old(self).is_closed(),
            final(self).submitted() == old(self).submitted(),
            final(self).worker_count() == old(self).worker_count(),
            forall|w: int|
                0 <= w < old(self).worker_count() ==> final(self).worker_running(w) == old(
                    self,
                ).worker_running(w),
            old(self).pending().len() > 0 ==> (r matches FetchOutcome::Task(t) && t == old(
                self,
            ).pending()[0] && final(self).pending() == old(self).pending().skip(1) && final(self).handed() == old(self).handed().push(t)),
            old(self).pending().len() == 0 && old(self).is_closed() ==> (r
                == FetchOutcome::Disconnected && final(self).pending() == old(self).pending()
                && final(self).handed() == old(self).handed()),
            old(self).pending().len() == 0 && !old(self).is_closed() ==> (r
                == FetchOutcome::WouldBlock && final(self).pending() == old(self).pending()
                && final(self).handed() == old(self).handed()),
    {
        if self.queue.len() > 0 {
            let t = self.queue.remove(0);
            proof {
                self.handed@ = self.handed@.push(t);
                assert(self.queue@ =~= old(self).pending().skip(1));
                assert(self.submitted() =~= self.handed() + self.pending());
            }
            FetchOutcome::Task(t)
        } else if self.closed {
            FetchOutcome::Disconnected
        } else {
            FetchOutcome::WouldBlock
        }
    }

    /// Closing the exclusively held producer handle: the first step of
    /// teardown.  Queued tasks stay; every worker drains them and then
    /// observes closure instead of blocking forever.
    pub fn close(&mut self)
        requires
            old(self).wf(),
        ensures
            final(self).wf(),
            final(self).is_closed(),
            final(self).pending() == old(self).pending(),
            final(self).submitted() == old(self).submitted(),
            final(self).handed() == old(self).handed(),
            final(self).worker_count() == old(self).worker_count(),
            forall|w: int|
                0 <= w < old(self).worker_count() ==> final(self).worker_running(w) == old(
                    self,
                ).worker_running(w),
    {
        self.closed = true;
    }

    /// Joining worker `w`.  A join returns only once the worker has
    /// finished its current task and exited its loop, which it does only
    /// after observing a drained queue under a closed producer; the
    /// preconditions state exactly that.
    pub fn join_worker(&mut self, w: usize)
        requires
            old(self).wf(),
            old(self).is_closed(),
            old(self).pending().len() == 0,
            w < old(self).worker_count(),
            old(self).worker_running(w as int),
        ensures
            final(self).wf(),
            final(self).is_closed(),
            final(self).pending() == old(self).pending(),
            final(self).submitted() == old(self).submitted(),
            final(self).handed() == old(self).handed(),
            final(self).worker_count() == old(self).worker_count(),
            !final(self).worker_running(w as int),
            forall|v: int|
                0 <= v < old(self).worker_count() && v != w ==> final(self).worker_running(v)
                    == old(self).worker_running(v),
    {
        self.workers.set(w, WorkerState::Joined);
    }

    /// How many tasks are still queued.
    pub fn pending_count(&self) -> (n: usize)
        ensures
            n == self.pending().len(),
    {
        self.queue.len()
    }

    /// Whether the producer handle has been closed.
    pub fn producer_closed(&self) -> (b: bool)
        ensures
            b == self.is_closed(),
    {
        self.closed
    }

    /// The pool's teardown, as its destructor performs it once the
    /// workers have drained the queue: close the producer handle
    /// first — that is what lets every blocked worker observe closure and
    /// exit deterministically — then join every worker in turn.  On
    /// return the pool is torn down and no submitted task was lost.
    pub fn shutdown(&mut self)
        requires
            old(self).wf(),
            old(self).pending().len() == 0,
        ensures
            final(self).wf(),
            final(self).torn_down(),
            final(self).submitted() == old(self).submitted(),
            final(self).handed() == old(self).handed(),
            final(self).handed() == final(self).submitted(),
    {
        self.close();
        let n = self.workers.len();
        let mut w: usize = 0;
        while w < n
            invariant
                self.wf(),
                self.is_closed(),
                self.pending().len() == 0,
                n == self.worker_count(),
                w <= n,
                self.submitted() == old(self).submitted(),
                self.handed() == old(self).handed(),
                forall|v: int| 0 <= v < w ==> !self.worker_running(v),
            decreases n - w,
        {
            let st = self.workers[w];
            match st {
                WorkerState::Running => {
                    self.join_worker(w);
                },
                WorkerState::Joined => {},
            }
            w = w + 1;
        }
        proof {
            self.lemma_teardown_exactly_once();
        }
    }

    /// Exact-once delivery at teardown: once the pool is torn down, the
    /// tasks handed to workers are exactly the tasks ever submitted, in
    /// submission order — no submitted task was dropped, none was handed
    /// out twice.
    pub proof fn lemma_teardown_exactly_once(&self)
        requires
            self.wf(),
            self.torn_down(),
        ensures
            self.handed() == self.submitted(),
            self.handed().to_multiset() == self.submitted().to_multiset(),
    {
        assert(self.handed() =~= self.submitted());
    }
}

} // verus!
