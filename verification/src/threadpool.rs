//! The queue of a pool of workers, and the protocol by which the pool is
//! shut down: every job is put into the queue first, then one stop message
//! for each worker. A worker takes messages from the front of the queue
//! until it takes a stop message. So no job is left behind, and every
//! worker comes to its end.
//!
//! The threads themselves, and the lock around the queue, are the caller's.

use std::collections::VecDeque;
use vstd::prelude::*;

verus! {

/// What a worker finds in the queue.
pub enum Message<J> {
    /// The worker should finish and take no more messages.
    Stop,
    /// The worker should run this job.
    Run(J),
}

/// What a worker does with a message.
pub enum Step<J> {
    /// Leave the loop.
    Exit,
    /// Run the job, then take the next message.
    Work(J),
}

/// `num_cpus::get`: the number of logical cores that this process can use,
/// which according to its documentation is at least 1. The number depends
/// on the machine, and on the moment.
#[verifier::external_body]
fn cpu_count() -> (n: usize)
    ensures
        n >= 1,
{
    num_cpus::get()
}

/// The step that the message `message` asks of a worker.
pub fn worker_step<J>(message: Message<J>) -> (step: Step<J>)
    ensures
        step == match message {
            Message::Stop => Step::<J>::Exit,
            Message::Run(job) => Step::Work(job),
        },
{
    match message {
        Message::Stop => Step::Exit,
        Message::Run(job) => Step::Work(job),
    }
}

/// The queue of a pool of workers.
pub struct ThreadPool<J> {
    workers: usize,
    queue: VecDeque<Message<J>>,
    /// The number of stop messages in the queue.
    stops: usize,
    /// The number of stop messages that workers have taken.
    stopped: usize,
    done: bool,
}

impl<J> ThreadPool<J> {
    /// The number of workers.
    pub closed spec fn workers(&self) -> nat {
        self.workers as nat
    }

    /// The messages that no worker has taken yet, the next one first.
    pub closed spec fn pending(&self) -> Seq<Message<J>> {
        self.queue@
    }

    /// The number of stop messages among the pending ones.
    pub closed spec fn stops(&self) -> nat {
        self.stops as nat
    }

    /// The number of workers that have taken their stop message.
    pub closed spec fn stopped(&self) -> nat {
        self.stopped as nat
    }

    /// No more jobs will come.
    pub closed spec fn is_done(&self) -> bool {
        self.done
    }

    /// The protocol holds: the stop messages stand behind all jobs; there
    /// are none before the pool is done, and afterwards there is one for
    /// each worker that has not yet taken its own.
    pub open spec fn wf(&self) -> bool {
        &&& self.workers() > 0
        &&& self.stops() <= self.pending().len()
        &&& forall|i: int|
            0 <= i < self.pending().len() ==> ((#[trigger] self.pending()[i]) is Stop <==> i
                >= self.pending().len() - self.stops())
        &&& if self.is_done() {
            self.stops() + self.stopped() == self.workers()
        } else {
            self.stops() == 0 && self.stopped() == 0
        }
    }

    /// Every worker has taken its stop message.
    pub open spec fn all_stopped(&self) -> bool {
        self.is_done() && self.stopped() == self.workers()
    }

    /// The queue of a pool with as many workers as the machine has cores.
    pub fn new() -> (pool: ThreadPool<J>)
        ensures
            pool.wf(),
            !pool.is_done(),
            pool.pending() == Seq::<Message<J>>::empty(),
    {
        Self::with_threads(cpu_count())
    }

    /// The queue of a pool with `nthreads` workers.
    pub fn with_threads(nthreads: usize) -> (pool: ThreadPool<J>)
        requires
            nthreads > 0,
        ensures
            pool.wf(),
            !pool.is_done(),
            pool.workers() == nthreads,
            pool.pending() == Seq::<Message<J>>::empty(),
    {
        ThreadPool { workers: nthreads, queue: VecDeque::new(), stops: 0, stopped: 0, done: false }
    }

    /// The number of workers.
    pub fn size(&self) -> (n: usize)
        ensures
            n == self.workers(),
    {
        self.workers
    }

    /// Tells whether `done` was called, after which no job may be pushed.
    pub fn is_closed(&self) -> (b: bool)
        ensures
            b == self.is_done(),
    {
        self.done
    }

    /// Puts a job at the end of the queue.
    pub fn push(&mut self, job: J)
        requires
            old(self).wf(),
            !old(self).is_done(),
        ensures
            final(self).wf(),
            !final(self).is_done(),
            final(self).workers() == old(self).workers(),
            final(self).pending() == old(self).pending().push(Message::Run(job)),
    {
        self.queue.push_back(Message::Run(job));
    }

    /// Call when done putting work into the queue: puts one stop message
    /// for each worker behind the jobs.
    pub fn done(&mut self)
        requires
            old(self).wf(),
            !old(self).is_done(),
        ensures
            final(self).wf(),
            final(self).is_done(),
            final(self).workers() == old(self).workers(),
            final(self).stopped() == 0,
            final(self).pending() == old(self).pending() + Seq::new(
                old(self).workers(),
                |i: int| Message::<J>::Stop,
            ),
    {
        let ghost jobs = self.queue@;
        let mut i: usize = 0;
        while i < self.workers
            invariant
                i <= self.workers,
                self.workers == old(self).workers,
                self.stops == 0,
                self.stopped == 0,
                !self.done,
                forall|k: int| 0 <= k < jobs.len() ==> !((#[trigger] jobs[k]) is Stop),
                self.queue@ == jobs + Seq::new(i as nat, |k: int| Message::<J>::Stop),
            decreases self.workers - i,
        {
            self.queue.push_back(Message::Stop);
            i += 1;
        }
        self.stops = self.workers;
        self.done = true;
    }

    /// Takes the next message out of the queue, if there is one. A worker
    /// that finds none waits for the next `push` or `done`.
    pub fn take(&mut self) -> (message: Option<Message<J>>)
        requires
            old(self).wf(),
        ensures
            final(self).wf(),
            final(self).is_done() == old(self).is_done(),
            final(self).workers() == old(self).workers(),
            match message {
                Some(m) => {
                    &&& old(self).pending().len() > 0
                    &&& m == old(self).pending()[0]
                    &&& final(self).pending() == old(self).pending().skip(1)
                    &&& final(self).stopped() == old(self).stopped() + if m is Stop {
                        1nat
                    } else {
                        0nat
                    }
                },
                None => {
                    &&& old(self).pending().len() == 0
                    &&& final(self).pending() == old(self).pending()
                    &&& final(self).stopped() == old(self).stopped()
                },
            },
    {
        let ghost before = self.queue@;
        match self.queue.pop_front() {
            Some(Message::Stop) => {
                assert(before[0] is Stop);
                self.stops = self.stops - 1;
                self.stopped = self.stopped + 1;
                assert(self.queue@ == before.skip(1));
                Some(Message::Stop)
            },
            Some(Message::Run(job)) => {
                assert(self.queue@ == before.skip(1));
                assert forall|i: int| 0 <= i < self.queue@.len() implies ((
                #[trigger] self.queue@[i]) is Stop <==> i >= self.queue@.len() - self.stops) by {
                    assert(self.queue@[i] == before[i + 1]);
                }
                Some(Message::Run(job))
            },
            None => None,
        }
    }

    /// Tells whether every worker has taken its stop message.
    pub fn is_finished(&self) -> (b: bool)
        ensures
            b == self.all_stopped(),
    {
        self.done && self.stopped == self.workers
    }
}

/// In a queue that keeps the protocol no job stands behind a stop message:
/// a worker that stops leaves no job untaken.
pub proof fn lemma_no_job_behind_stop<J>(pool: ThreadPool<J>, i: int, j: int)
    requires
        pool.wf(),
        0 <= i <= j < pool.pending().len(),
        pool.pending()[i] is Stop,
    ensures
        pool.pending()[j] is Stop,
{
}

/// Once the pool is done and the queue is empty, every worker has taken
/// its stop message.
pub proof fn lemma_drained_pool_is_stopped<J>(pool: ThreadPool<J>)
    requires
        pool.wf(),
        pool.is_done(),
        pool.pending().len() == 0,
    ensures
        pool.all_stopped(),
{
}

} // verus!
