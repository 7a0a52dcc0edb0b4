//! The rules of a thread pool with work-stealing workers.
//!
//! A pool keeps one queue per worker. Work is always submitted to the first
//! queue; a worker serves its own queue and, when that is empty, steals from
//! the others. The pool adds a worker, with a queue of its own, when the work
//! it sees waiting exceeds a threshold, up to a fixed ceiling.
//!
//! This module holds every decision of that scheme as a function on plain
//! values: what a submission does to the pool, which queue a worker visits
//! next, and what it does with what it found. Threads, locks and sleeping are
//! left to the program that embeds it, which performs each step and reports
//! what came of it.

use crate::wsqueue1::{popped, stolen};
use vstd::prelude::*;

verus! {

/// The number of waiting tasks above which a submission adds a worker.
pub const MAX_PENDING_TASKS: usize = 10;

/// The queue that every submission goes to.
pub const SUBMISSION_QUEUE: usize = 0;

/// How long a worker rests when a whole round found nothing, in seconds.
pub const BACKOFF_SECS: u64 = 1;

/// A unit of work that can be run once from inside a box.
pub trait FnBox: Send {
    /// Whether the unit may be run.
    spec fn ready(&self) -> bool;

    /// Whether the unit has run to its end.
    spec fn done(&self) -> bool;

    /// Runs the unit, consuming it.
    fn call_box(self: Box<Self>)
        requires
            self.ready(),
        ensures
            self.done(),
    ;
}

impl<F: FnOnce() + Send> FnBox for F {
    open spec fn ready(&self) -> bool {
        call_requires(*self, ())
    }

    open spec fn done(&self) -> bool {
        call_ensures(*self, (), ())
    }

    fn call_box(self: Box<F>) {
        (*self)()
    }
}

/// A boxed unit of work that may be handed to another thread.
pub type Job = Box<dyn FnBox + 'static>;

/// What a queue holds.
pub enum Task {
    /// A unit of work to run.
    NewJob(Job),
    /// A shutdown marker.
    Terminate,
}

/// What running a task amounted to.
#[derive(Clone, Copy, Debug, PartialEq, Eq, Structural)]
pub enum Ran {
    /// A unit of work ran to its end.
    Job,
    /// The task was a shutdown marker and nothing ran.
    Marker,
}

impl Task {
    /// Wraps a unit of work as a task.
    pub fn new_job<F>(f: F) -> (task: Task) where F: FnOnce() + Send + 'static
        ensures
            task matches Task::NewJob(job) && (job.ready() <==> call_requires(f, ())) && (job.done()
                <==> call_ensures(f, (), ())),
    {
        Task::NewJob(Box::new(f))
    }

    /// Carries the task out on the calling thread.
    ///
    /// A unit of work is run to its end. A shutdown marker runs nothing, and
    /// the worker that took it carries on with its next round: the marker
    /// does not end the worker, which stops only on its stop signal.
    ///
    /// A unit of work that panics takes the calling thread with it; nothing
    /// here catches the panic.
    pub fn run(self) -> (ran: Ran)
        requires
            self matches Task::NewJob(job) ==> job.ready(),
        ensures
            match self {
                Task::NewJob(job) => ran == Ran::Job && job.done(),
                Task::Terminate => ran == Ran::Marker,
            },
    {
        match self {
            Task::NewJob(job) => {
                job.call_box();
                Ran::Job
            },
            Task::Terminate => Ran::Marker,
        }
    }
}

/// What one visit to a queue brought back.
pub enum Probe<T> {
    /// The queue's lock was held elsewhere and the visit did not wait for it.
    Contended,
    /// The queue was reached and held nothing.
    Empty,
    /// The queue gave up a task.
    Found(T),
}

impl<T> Probe<T> {
    /// The probe that stands for what a `pop` or a `steal` returned.
    pub open spec fn of(taken: Option<T>) -> Probe<T> {
        match taken {
            Some(task) => Probe::Found(task),
            None => Probe::Empty,
        }
    }

    /// Turns what a `pop` or a `steal` returned into a probe.
    pub fn taken(taken: Option<T>) -> (probe: Probe<T>)
        ensures
            probe == Probe::of(taken),
    {
        match taken {
            Some(task) => Probe::Found(task),
            None => Probe::Empty,
        }
    }
}

/// What a worker does next.
pub enum Step<T> {
    /// The stop signal is set: leave the loop.
    Exit,
    /// The worker's own queue is not in the set: start the round again.
    Retry,
    /// Wait for the lock of the worker's own queue and pop from it.
    Pop { queue: usize },
    /// Try the lock of a peer's queue without waiting and steal from it.
    Steal { queue: usize },
    /// Run the task that queue `from` gave up.
    Run { task: T, from: usize },
    /// Nothing was found anywhere: rest, then start the next round.
    Backoff,
}

/// A worker, bound for its lifetime to the queue at index `id`.
#[derive(Clone, Copy, Debug, PartialEq, Eq, Structural)]
pub struct Worker {
    pub id: usize,
}

impl Worker {
    /// The first step of a round, given whether the stop signal is set and
    /// how many queues the set holds.
    pub open spec fn first_step<T>(self, stop: bool, queues: int) -> Step<T> {
        if stop {
            Step::Exit
        } else if self.id < queues {
            Step::Pop { queue: self.id }
        } else {
            Step::Retry
        }
    }

    /// The visit to the first peer at or after index `from`, or the rest
    /// that follows when there is none.
    pub open spec fn peer_from<T>(self, from: int, queues: int) -> Step<T> {
        let first = if from == self.id {
            from + 1
        } else {
            from
        };
        if 0 <= first < queues && first <= usize::MAX {
            Step::Steal { queue: first as usize }
        } else {
            Step::Backoff
        }
    }

    /// The step that follows a visit to queue `visited` that brought back
    /// `probe`.
    pub open spec fn next_step<T>(self, queues: int, visited: usize, probe: Probe<T>) -> Step<T> {
        match probe {
            Probe::Found(task) => Step::Run { task, from: visited },
            _ => if visited == self.id {
                self.peer_from(0, queues)
            } else {
                self.peer_from(visited + 1, queues)
            },
        }
    }

    /// A bound on the visits that a round may still make from `step` on.
    pub open spec fn visits_left<T>(self, step: Step<T>, queues: int) -> nat {
        match step {
            Step::Pop { queue } => if queue < queues {
                (queues + 1) as nat
            } else {
                0
            },
            Step::Steal { queue } => if queue < queues {
                if queue == self.id {
                    (queues + 1) as nat
                } else {
                    (queues - queue) as nat
                }
            } else {
                0
            },
            _ => 0,
        }
    }

    /// The step on which a round comes to rest that stands at `step`, when
    /// a visit to queue `i` brings back `probes[i]`: every visit is made and
    /// answered by `next_step`, until a step is reached that is no visit.
    pub open spec fn settle<T>(self, step: Step<T>, probes: Seq<Probe<T>>) -> Step<T>
        decreases self.visits_left(step, probes.len() as int),
    {
        match step {
            Step::Pop { queue } => if queue < probes.len() {
                self.settle(self.next_step(probes.len() as int, queue, probes[queue as int]), probes)
            } else {
                step
            },
            Step::Steal { queue } => if queue < probes.len() {
                self.settle(self.next_step(probes.len() as int, queue, probes[queue as int]), probes)
            } else {
                step
            },
            _ => step,
        }
    }

    /// The step on which a whole round comes to rest.
    pub open spec fn round<T>(self, stop: bool, probes: Seq<Probe<T>>) -> Step<T> {
        self.settle(self.first_step(stop, probes.len() as int), probes)
    }

    /// What each queue brings back when no lock is held elsewhere: the
    /// worker pops from its own queue and steals from the others.
    pub open spec fn uncontended<T>(self, queues: Seq<Seq<T>>) -> Seq<Probe<T>> {
        Seq::new(
            queues.len(),
            |i: int|
                if i == self.id {
                    Probe::of(popped(queues[i]).0)
                } else {
                    Probe::of(stolen(queues[i]).0)
                },
        )
    }

    /// Creates the worker that is bound to queue `id`.
    pub fn new(id: usize) -> (worker: Worker)
        ensures
            worker.id == id,
    {
        Worker { id }
    }

    /// Starts a round: decides what the worker does first, given whether
    /// its stop signal is set and how many queues the set holds.
    pub fn begin<T>(&self, stop: bool, queues: usize) -> (step: Step<T>)
        ensures
            step == self.first_step::<T>(stop, queues as int),
    {
        if stop {
            Step::Exit
        } else if self.id < queues {
            Step::Pop { queue: self.id }
        } else {
            Step::Retry
        }
    }

    fn visit_from<T>(&self, from: usize, queues: usize) -> (step: Step<T>)
        ensures
            step == self.peer_from::<T>(from as int, queues as int),
    {
        if from != self.id {
            if from < queues {
                Step::Steal { queue: from }
            } else {
                Step::Backoff
            }
        } else if from < queues && from + 1 < queues {
            Step::Steal { queue: from + 1 }
        } else {
            Step::Backoff
        }
    }

    /// Decides what follows a visit to queue `visited` that brought back
    /// `probe`.
    ///
    /// A task that was found is run. Otherwise the peers are tried in
    /// ascending order of their index, the worker's own queue left out:
    /// after the own queue comes the first peer, after a peer the next one,
    /// and after the last one the rest.
    pub fn advance<T>(&self, queues: usize, visited: usize, probe: Probe<T>) -> (step: Step<T>)
        ensures
            step == self.next_step(queues as int, visited, probe),
    {
        match probe {
            Probe::Found(task) => Step::Run { task, from: visited },
            _ => {
                if visited == self.id {
                    self.visit_from(0, queues)
                } else if visited < queues {
                    self.visit_from(visited + 1, queues)
                } else {
                    Step::Backoff
                }
            },
        }
    }
}

impl Worker {
    proof fn lemma_scan_reaches<T>(self, probes: Seq<Probe<T>>, from: int, peer: int, task: T)
        requires
            probes.len() <= usize::MAX,
            0 <= from <= peer < probes.len(),
            peer != self.id,
            probes[peer] == Probe::Found(task),
            forall|k: int| from <= k < peer && k != self.id ==> !(#[trigger] probes[k] is Found),
        ensures
            self.settle(self.peer_from::<T>(from, probes.len() as int), probes) == (Step::Run {
                task,
                from: peer as usize,
            }),
        decreases peer - from,
    {
        let first = if from == self.id {
            from + 1
        } else {
            from
        };
        reveal_with_fuel(Worker::settle, 2);
        if first < peer {
            assert(!(probes[first] is Found));
            self.lemma_scan_reaches(probes, first + 1, peer, task);
        }
    }

    proof fn lemma_scan_runs_dry<T>(self, probes: Seq<Probe<T>>, from: int)
        requires
            probes.len() <= usize::MAX,
            0 <= from,
            forall|k: int|
                from <= k < probes.len() && k != self.id ==> !(#[trigger] probes[k] is Found),
        ensures
            self.settle(self.peer_from::<T>(from, probes.len() as int), probes) == Step::<
                T,
            >::Backoff,
        decreases probes.len() - from,
    {
        let first = if from == self.id {
            from + 1
        } else {
            from
        };
        if first < probes.len() {
            assert(!(probes[first] is Found));
            self.lemma_scan_runs_dry(probes, first + 1);
        }
    }

    /// A round makes no visit where the stop signal is set or the worker's
    /// own queue is not in the set.
    pub proof fn lemma_round_without_visit<T>(self, stop: bool, probes: Seq<Probe<T>>)
        requires
            stop || self.id >= probes.len(),
        ensures
            self.round(stop, probes) == if stop {
                Step::<T>::Exit
            } else {
                Step::<T>::Retry
            },
    {
    }

    /// A worker whose own queue gives up a task runs that task, and visits
    /// no other queue.
    pub proof fn lemma_round_runs_own_task<T>(self, probes: Seq<Probe<T>>, task: T)
        requires
            self.id < probes.len(),
            probes[self.id as int] == Probe::Found(task),
        ensures
            self.round(false, probes) == (Step::Run { task, from: self.id }),
    {
        reveal_with_fuel(Worker::settle, 2);
    }

    /// A worker whose own queue gives up nothing runs the task of the
    /// lowest-numbered peer that gives one up: peers whose lock is held
    /// elsewhere and peers that are empty are passed over.
    pub proof fn lemma_round_steals_from_first_peer<T>(
        self,
        probes: Seq<Probe<T>>,
        peer: int,
        task: T,
    )
        requires
            probes.len() <= usize::MAX,
            self.id < probes.len(),
            0 <= peer < probes.len(),
            peer != self.id,
            probes[peer] == Probe::Found(task),
            forall|k: int| 0 <= k < peer || k == self.id ==> !(#[trigger] probes[k] is Found),
        ensures
            self.round(false, probes) == (Step::Run { task, from: peer as usize }),
    {
        assert(!(probes[self.id as int] is Found));
        self.lemma_scan_reaches(probes, 0, peer, task);
    }

    /// A worker rests after a round in which no queue gave up a task.
    pub proof fn lemma_round_rests_when_nothing_found<T>(self, probes: Seq<Probe<T>>)
        requires
            probes.len() <= usize::MAX,
            self.id < probes.len(),
            forall|k: int| 0 <= k < probes.len() ==> !(#[trigger] probes[k] is Found),
        ensures
            self.round(false, probes) == Step::<T>::Backoff,
    {
        assert(!(probes[self.id as int] is Found));
        self.lemma_scan_runs_dry(probes, 0);
    }

    /// With no lock held elsewhere, a worker whose own queue is not empty
    /// runs the newest task of that queue.
    pub proof fn lemma_owner_takes_newest<T>(self, queues: Seq<Seq<T>>)
        requires
            self.id < queues.len(),
            queues[self.id as int].len() > 0,
        ensures
            self.round(false, self.uncontended(queues)) == (Step::Run {
                task: queues[self.id as int].last(),
                from: self.id,
            }),
    {
        self.lemma_round_runs_own_task(self.uncontended(queues), queues[self.id as int].last());
    }

    /// With no lock held elsewhere, a worker whose own queue is empty runs
    /// the oldest task of the lowest-numbered peer that is not empty. So a
    /// thief that returns to one queue receives what is left there in the
    /// order in which it was pushed.
    pub proof fn lemma_thief_takes_oldest_of_first_busy_peer<T>(self, queues: Seq<Seq<T>>, peer: int)
        requires
            queues.len() <= usize::MAX,
            self.id < queues.len(),
            queues[self.id as int].len() == 0,
            0 <= peer < queues.len(),
            peer != self.id,
            queues[peer].len() > 0,
            forall|k: int| 0 <= k < peer ==> (#[trigger] queues[k]).len() == 0,
        ensures
            self.round(false, self.uncontended(queues)) == (Step::Run {
                task: queues[peer].first(),
                from: peer as usize,
            }),
    {
        let probes = self.uncontended(queues);
        assert forall|k: int| 0 <= k < peer || k == self.id implies !(#[trigger] probes[k] is Found) by {
            assert(queues[k].len() == 0);
        }
        self.lemma_round_steals_from_first_peer(probes, peer, queues[peer].first());
    }

    /// With no lock held elsewhere, a worker rests after a round that found
    /// every queue empty.
    pub proof fn lemma_rests_when_all_empty<T>(self, queues: Seq<Seq<T>>)
        requires
            queues.len() <= usize::MAX,
            self.id < queues.len(),
            forall|k: int| 0 <= k < queues.len() ==> (#[trigger] queues[k]).len() == 0,
        ensures
            self.round(false, self.uncontended(queues)) == Step::<T>::Backoff,
    {
        let probes = self.uncontended(queues);
        assert forall|k: int| 0 <= k < probes.len() implies !(#[trigger] probes[k] is Found) by {
            assert(queues[k].len() == 0);
        }
        self.lemma_round_rests_when_nothing_found(probes);
    }
}

/// The number of waiting tasks that a look at the queues has seen.
///
/// Each entry of `observed` stands for one queue: its length where its lock
/// could be had at once, `None` where it was held elsewhere. Queues that
/// could not be looked at count for nothing, so the sum never exceeds what
/// was waiting.
pub open spec fn backlog(observed: Seq<Option<usize>>) -> nat
    decreases observed.len(),
{
    if observed.len() == 0 {
        0
    } else {
        backlog(observed.drop_last()) + match observed.last() {
            Some(n) => n as nat,
            None => 0,
        }
    }
}

proof fn lemma_backlog_prefix(observed: Seq<Option<usize>>, k: int)
    requires
        0 <= k <= observed.len(),
    ensures
        backlog(observed.take(k)) <= backlog(observed),
    decreases observed.len() - k,
{
    if k < observed.len() {
        lemma_backlog_prefix(observed, k + 1);
        assert(observed.take(k + 1).drop_last() =~= observed.take(k));
    } else {
        assert(observed.take(k) =~= observed);
    }
}

/// What a look at the queues sees is a lower bound of what is waiting: a
/// queue that could not be looked at counts for nothing, and every other
/// queue for its length.
pub proof fn lemma_backlog_is_lower_bound(observed: Seq<Option<usize>>, lengths: Seq<usize>)
    requires
        observed.len() == lengths.len(),
        forall|i: int|
            0 <= i < observed.len() ==> observed[i] is None || observed[i] == Some(
                #[trigger] lengths[i],
            ),
    ensures
        backlog(observed) <= backlog(lengths.map_values(|n: usize| Some(n))),
    decreases observed.len(),
{
    let all = lengths.map_values(|n: usize| Some(n));
    if observed.len() > 0 {
        let last = observed.len() - 1;
        assert(observed[last] is None || observed[last] == Some(lengths[last]));
        lemma_backlog_is_lower_bound(observed.drop_last(), lengths.drop_last());
        assert(all.drop_last() =~= lengths.drop_last().map_values(|n: usize| Some(n)));
    }
}

/// Tells whether the lengths seen add up to more than `limit`.
pub fn backlog_exceeds(observed: &Vec<Option<usize>>, limit: usize) -> (over: bool)
    ensures
        over == (backlog(observed@) > limit),
{
    let mut total: usize = 0;
    let mut i: usize = 0;
    while i < observed.len()
        invariant
            i <= observed@.len(),
            total == backlog(observed@.take(i as int)),
            total <= limit,
        decreases observed@.len() - i,
    {
        proof {
            assert(observed@.take(i + 1).drop_last() =~= observed@.take(i as int));
            lemma_backlog_prefix(observed@, i + 1);
        }
        match observed[i] {
            Some(n) => {
                if n > limit - total {
                    return true;
                }
                total = total + n;
            },
            None => {},
        }
        i = i + 1;
    }
    proof {
        assert(observed@.take(i as int) =~= observed@);
    }
    false
}

/// What a pool is, seen from outside: its two limits and the number of its
/// workers.
pub ghost struct PoolView {
    /// The number of waiting tasks above which a submission adds a worker.
    pub max_pending_tasks: nat,
    /// The most workers the pool may have.
    pub max_workers: nat,
    /// The number of workers the pool has.
    pub workers: nat,
}

impl PoolView {
    /// The number of queues: every worker has one, and there is no other.
    pub open spec fn queues(self) -> nat {
        self.workers
    }

    /// What holds of every pool: it has a worker, and no more than it may.
    pub open spec fn valid(self) -> bool {
        1 <= self.workers <= self.max_workers
    }

    /// Whether a submission that sees `observed` adds a worker.
    pub open spec fn scales_up(self, observed: Seq<Option<usize>>) -> bool {
        backlog(observed) > self.max_pending_tasks && self.workers < self.max_workers
    }

    /// The pool after a submission that saw `observed`.
    pub open spec fn after_submit(self, observed: Seq<Option<usize>>) -> PoolView {
        if self.scales_up(observed) {
            PoolView { workers: self.workers + 1, ..self }
        } else {
            self
        }
    }
}

/// What a submission asks of the program that runs the pool.
pub struct Submission {
    /// The worker to start, on a new queue appended to the set, before the
    /// task is enqueued; `None` where the pool stays as it is.
    pub spawn: Option<Worker>,
    /// The queue on which to enqueue the task.
    pub queue: usize,
    /// The task to enqueue.
    pub task: Task,
}

/// The books of a thread pool: its limits and how many workers it has.
pub struct ThreadPool {
    max_pending_tasks: usize,
    max_workers: usize,
    workers: usize,
}

impl ThreadPool {
    pub closed spec fn view(&self) -> PoolView {
        PoolView {
            max_pending_tasks: self.max_pending_tasks as nat,
            max_workers: self.max_workers as nat,
            workers: self.workers as nat,
        }
    }

    #[verifier::type_invariant]
    spec fn inv(self) -> bool {
        self@.valid()
    }

    /// Creates a pool that may grow to `size` workers. It starts with one
    /// worker and one queue; the others come only as submissions ask for
    /// them.
    pub fn new(size: usize) -> (pool: ThreadPool)
        requires
            size > 0,
        ensures
            pool@ == (PoolView {
                max_pending_tasks: MAX_PENDING_TASKS as nat,
                max_workers: size as nat,
                workers: 1,
            }),
            pool@.workers == 1,
            pool@.queues() == 1,
            pool@.valid(),
    {
        ThreadPool { max_pending_tasks: MAX_PENDING_TASKS, max_workers: size, workers: 1 }
    }

    /// Sends work to the pool.
    ///
    /// `observed` is what a look at the queues has seen: for each queue in
    /// turn its length, or `None` where its lock was held elsewhere. Where
    /// that adds up to more than the pool's threshold and the pool is below
    /// its ceiling, the pool grows by one worker, bound to a new queue at the
    /// next index. Whether it grows or not, the work goes to the first queue.
    pub fn execute<F>(&mut self, f: F, observed: &Vec<Option<usize>>) -> (submission: Submission) where
        F: FnOnce() + Send + 'static,

        ensures
            final(self)@ == old(self)@.after_submit(observed@),
            final(self)@.valid(),
            old(self)@.workers <= final(self)@.workers <= old(self)@.workers + 1,
            submission.spawn == if old(self)@.scales_up(observed@) {
                Some(Worker { id: old(self)@.workers as usize })
            } else {
                None
            },
            submission.queue == SUBMISSION_QUEUE,
            submission.task matches Task::NewJob(job) && (job.ready() <==> call_requires(f, ()))
                && (job.done() <==> call_ensures(f, (), ())),
    {
        proof {
            use_type_invariant(&*self);
        }
        let task = Task::new_job(f);
        let mut spawn: Option<Worker> = None;
        if backlog_exceeds(observed, self.max_pending_tasks) && self.workers < self.max_workers {
            spawn = Some(Worker::new(self.workers));
            self.workers = self.workers + 1;
        }
        Submission { spawn, queue: SUBMISSION_QUEUE, task }
    }

    /// The number of workers, which is also the number of queues.
    pub fn workers(&self) -> (n: usize)
        ensures
            n == self@.workers,
            self@.valid(),
    {
        proof {
            use_type_invariant(self);
        }
        self.workers
    }

    /// The most workers the pool may have.
    pub fn max_workers(&self) -> (n: usize)
        ensures
            n == self@.max_workers,
    {
        self.max_workers
    }

    /// The number of waiting tasks above which a submission adds a worker.
    pub fn max_pending_tasks(&self) -> (n: usize)
        ensures
            n == self@.max_pending_tasks,
    {
        self.max_pending_tasks
    }
}

} // verus!
