//! A fixed-size worker pool, modelled at the level of its coordination
//! protocol: a FIFO dispatch queue of control messages, a fixed set of
//! workers that claim messages one at a time, and a two-phase teardown
//! (signal every worker, then join every worker).
//!
//! A job is identified by the value its submitter chose for it; running a
//! job is recorded by appending that value to the execution log.

use vstd::prelude::*;

verus! {

use vstd::multiset::Multiset;

broadcast use
    vstd::seq_lib::group_to_multiset_ensures,
    vstd::multiset::group_multiset_axioms,
;

/// A message travelling through the dispatch queue: either a job to run,
/// or an instruction for exactly one worker to exit its loop.
#[derive(Clone, Copy, Debug, PartialEq, Eq, Structural)]
pub enum ControlMessage {
    Execute(u64),
    Shutdown,
}

/// Lifecycle of a pool: submissions are accepted only while `Active`;
/// teardown moves through `ShuttingDown` to `Terminated` exactly once.
#[derive(Clone, Copy, Debug, PartialEq, Eq, Structural)]
pub enum Phase {
    Active,
    ShuttingDown,
    Terminated,
}

/// The joinable handle of a worker's execution thread. It is held inside
/// an `Option` and taken exactly once, at join, so no thread can be
/// joined twice.
#[derive(Clone, Copy, Debug)]
pub struct ThreadHandle {
    pub worker_id: usize,
}

/// One worker: an ordinal identity, whether its thread is still in the
/// message loop, the job it has claimed but not yet finished, and the
/// handle that joining consumes.
#[derive(Clone, Copy, Debug)]
pub struct Worker {
    id: usize,
    running: bool,
    busy: Option<u64>,
    handle: Option<ThreadHandle>,
}

/// The mathematical image of one worker.
#[verifier::ext_equal]
pub ghost struct WorkerModel {
    pub id: int,
    pub running: bool,
    pub busy: Option<u64>,
    pub joined: bool,
}

impl View for Worker {
    type V = WorkerModel;

    closed spec fn view(&self) -> WorkerModel {
        WorkerModel {
            id: self.id as int,
            running: self.running,
            busy: self.busy,
            joined: self.handle is None,
        }
    }
}

/// The mathematical image of a pool: the workers in ordinal order, the
/// dispatch queue front-first, the lifecycle phase, and the log of jobs
/// that have run, in completion order.
#[verifier::ext_equal]
pub ghost struct PoolModel {
    pub workers: Seq<WorkerModel>,
    pub queue: Seq<ControlMessage>,
    pub phase: Phase,
    pub executed: Seq<u64>,
}

/// A worker as construction leaves it: in its loop, idle, not joined.
pub open spec fn fresh_worker(id: int) -> WorkerModel {
    WorkerModel { id, running: true, busy: None, joined: false }
}

/// The pool that construction with `size` workers yields.
pub open spec fn initial_pool(size: int) -> PoolModel {
    PoolModel {
        workers: Seq::new(size as nat, |i: int| fresh_worker(i)),
        queue: Seq::empty(),
        phase: Phase::Active,
        executed: Seq::empty(),
    }
}

/// The jobs carried by the `Execute` messages of a queue, front first.
pub open spec fn queued_jobs(q: Seq<ControlMessage>) -> Seq<u64>
    decreases q.len(),
{
    if q.len() == 0 {
        Seq::empty()
    } else {
        match q.first() {
            ControlMessage::Execute(j) => seq![j] + queued_jobs(q.drop_first()),
            ControlMessage::Shutdown => queued_jobs(q.drop_first()),
        }
    }
}

/// How many stop signals a queue holds.
pub open spec fn stop_signals(q: Seq<ControlMessage>) -> nat
    decreases q.len(),
{
    if q.len() == 0 {
        0
    } else {
        (if q.first() is Shutdown { 1 as nat } else { 0 as nat }) + stop_signals(q.drop_first())
    }
}

/// How many workers are still in their message loop.
pub open spec fn running_count(ws: Seq<WorkerModel>) -> nat
    decreases ws.len(),
{
    if ws.len() == 0 {
        0
    } else {
        running_count(ws.drop_last()) + (if ws.last().running { 1 as nat } else { 0 as nat })
    }
}

/// How many workers hold a claimed job.
pub open spec fn busy_count(ws: Seq<WorkerModel>) -> nat
    decreases ws.len(),
{
    if ws.len() == 0 {
        0
    } else {
        busy_count(ws.drop_last()) + (if ws.last().busy is Some { 1 as nat } else { 0 as nat })
    }
}

/// The claimed job of one worker, as a multiset of none or one job.
pub open spec fn busy_of(b: Option<u64>) -> Multiset<u64> {
    match b {
        Some(j) => Multiset::empty().insert(j),
        None => Multiset::empty(),
    }
}

/// The claimed job of one worker, as a sequence of none or one job.
pub open spec fn busy_seq(b: Option<u64>) -> Seq<u64> {
    match b {
        Some(j) => seq![j],
        None => Seq::empty(),
    }
}

/// All jobs claimed but not yet finished, over all workers. No order:
/// which worker got which message is not part of the contract.
pub open spec fn busy_jobs(ws: Seq<WorkerModel>) -> Multiset<u64>
    decreases ws.len(),
{
    if ws.len() == 0 {
        Multiset::empty()
    } else {
        busy_jobs(ws.drop_last()).add(busy_of(ws.last().busy))
    }
}

impl PoolModel {
    /// Well-formedness: worker identities match their positions, only a
    /// looping worker can hold a job, a joined worker has left its loop,
    /// and the queue agrees with the phase — no stop signal before
    /// teardown, one pending stop signal per looping worker during it,
    /// and nothing at all after it.
    pub open spec fn wf(self) -> bool {
        &&& self.workers.len() >= 1
        &&& forall|i: int| 0 <= i < self.workers.len() ==> (#[trigger] self.workers[i]).id == i
        &&& forall|i: int|
            0 <= i < self.workers.len() ==> ((#[trigger] self.workers[i]).busy is Some
                ==> self.workers[i].running)
        &&& forall|i: int|
            0 <= i < self.workers.len() ==> ((#[trigger] self.workers[i]).joined
                ==> !self.workers[i].running)
        &&& match self.phase {
            Phase::Active => {
                &&& forall|k: int| 0 <= k < self.queue.len() ==> (#[trigger] self.queue[k]) is Execute
                &&& forall|i: int|
                    0 <= i < self.workers.len() ==> (#[trigger] self.workers[i]).running
                &&& forall|i: int|
                    0 <= i < self.workers.len() ==> !(#[trigger] self.workers[i]).joined
            },
            Phase::ShuttingDown => {
                &&& stop_signals(self.queue) == running_count(self.workers)
                &&& self.queue.len() > 0 ==> self.queue.last() is Shutdown
            },
            Phase::Terminated => {
                &&& self.queue.len() == 0
                &&& forall|i: int|
                    0 <= i < self.workers.len() ==> !(#[trigger] self.workers[i]).running
                        && self.workers[i].joined
            },
        }
    }

    /// Submission: the job is wrapped as an `Execute` message and takes
    /// its place at the back of the dispatch queue.
    pub open spec fn submit(self, job: u64) -> PoolModel {
        PoolModel { queue: self.queue.push(ControlMessage::Execute(job)), ..self }
    }

    /// Worker `i` claims the message at the front of the queue: a job
    /// makes it busy, a stop signal makes it leave its loop. No other
    /// worker is touched, so each message is consumed by exactly one.
    pub open spec fn claim(self, i: int) -> PoolModel {
        match self.queue.first() {
            ControlMessage::Execute(j) => PoolModel {
                queue: self.queue.drop_first(),
                workers: self.workers.update(i, (WorkerModel { busy: Some(j), ..self.workers[i] })),
                ..self
            },
            ControlMessage::Shutdown => PoolModel {
                queue: self.queue.drop_first(),
                workers: self.workers.update(
                    i,
                    (WorkerModel { running: false, ..self.workers[i] }),
                ),
                ..self
            },
        }
    }

    /// Worker `i` runs its claimed job to completion: the job joins the
    /// execution log and the worker is idle again.
    pub open spec fn finish(self, i: int) -> PoolModel {
        PoolModel {
            executed: self.executed.push(self.workers[i].busy.unwrap()),
            workers: self.workers.update(i, (WorkerModel { busy: None, ..self.workers[i] })),
            ..self
        }
    }

    /// Teardown's first half: one stop signal per worker goes to the back
    /// of the queue, behind every message already submitted.
    pub open spec fn begin_shutdown(self) -> PoolModel {
        PoolModel {
            queue: self.queue + Seq::new(self.workers.len(), |k: int| ControlMessage::Shutdown),
            phase: Phase::ShuttingDown,
            ..self
        }
    }

    /// Worker `i`'s thread handle is consumed by a join.
    pub open spec fn join(self, i: int) -> PoolModel {
        PoolModel {
            workers: self.workers.update(i, (WorkerModel { joined: true, ..self.workers[i] })),
            ..self
        }
    }
}

/// Concatenating two queues adds their stop signals and appends their
/// job sequences.
proof fn lemma_concat_messages(a: Seq<ControlMessage>, b: Seq<ControlMessage>)
    ensures
        stop_signals(a + b) == stop_signals(a) + stop_signals(b),
        queued_jobs(a + b) == queued_jobs(a) + queued_jobs(b),
    decreases a.len(),
{
    if a.len() == 0 {
        assert(a + b =~= b);
        assert(queued_jobs(a) + queued_jobs(b) =~= queued_jobs(b));
    } else {
        assert((a + b).first() == a.first());
        assert((a + b).drop_first() =~= a.drop_first() + b);
        lemma_concat_messages(a.drop_first(), b);
        match a.first() {
            ControlMessage::Execute(j) => {
                assert(seq![j] + (queued_jobs(a.drop_first()) + queued_jobs(b)) =~= (seq![j]
                    + queued_jobs(a.drop_first())) + queued_jobs(b));
            },
            ControlMessage::Shutdown => {},
        }
    }
}

/// Appending one message to a queue: a job joins the back of the job
/// sequence, a stop signal raises the signal count by one.
proof fn lemma_push_message(q: Seq<ControlMessage>, m: ControlMessage)
    ensures
        stop_signals(q.push(m)) == stop_signals(q) + (if m is Shutdown {
            1 as nat
        } else {
            0 as nat
        }),
        queued_jobs(q.push(m)) == (match m {
            ControlMessage::Execute(j) => queued_jobs(q).push(j),
            ControlMessage::Shutdown => queued_jobs(q),
        }),
{
    assert(q.push(m) =~= q + seq![m]);
    lemma_concat_messages(q, seq![m]);
    let rest = seq![m].drop_first();
    assert(rest =~= Seq::<ControlMessage>::empty());
    assert(stop_signals(rest) == 0);
    assert(queued_jobs(rest) =~= Seq::<u64>::empty());
    assert(seq![m].first() == m);
    match m {
        ControlMessage::Execute(j) => {
            assert(queued_jobs(seq![m]) =~= seq![j]);
            assert(queued_jobs(q) + seq![j] =~= queued_jobs(q).push(j));
        },
        ControlMessage::Shutdown => {
            assert(queued_jobs(seq![m]) =~= Seq::<u64>::empty());
            assert(queued_jobs(q) + queued_jobs(seq![m]) =~= queued_jobs(q));
        },
    }
}

/// A queue of nothing but stop signals carries no job and one signal per
/// message.
proof fn lemma_all_stop_signals(n: nat)
    ensures
        stop_signals(Seq::new(n, |k: int| ControlMessage::Shutdown)) == n,
        queued_jobs(Seq::new(n, |k: int| ControlMessage::Shutdown)) == Seq::<u64>::empty(),
    decreases n,
{
    let s = Seq::new(n, |k: int| ControlMessage::Shutdown);
    if n > 0 {
        assert(s.drop_first() =~= Seq::new((n - 1) as nat, |k: int| ControlMessage::Shutdown));
        lemma_all_stop_signals((n - 1) as nat);
    }
}

/// A queue holds no stop signal exactly when its signal count is zero.
proof fn lemma_stop_signals_zero(q: Seq<ControlMessage>)
    ensures
        stop_signals(q) == 0 <==> (forall|k: int| 0 <= k < q.len() ==> (#[trigger] q[k]) is Execute),
    decreases q.len(),
{
    if q.len() > 0 {
        lemma_stop_signals_zero(q.drop_first());
        assert(forall|k: int| 1 <= k < q.len() ==> q[k] == q.drop_first()[k - 1]);
        if stop_signals(q) == 0 {
            assert forall|k: int| 0 <= k < q.len() implies (#[trigger] q[k]) is Execute by {
                if k >= 1 {
                    assert(q.drop_first()[k - 1] is Execute);
                }
            }
        }
    }
}

/// Replacing one worker changes the running and busy counts by exactly
/// the difference that worker makes.
proof fn lemma_counts_update(ws: Seq<WorkerModel>, i: int, w: WorkerModel)
    requires
        0 <= i < ws.len(),
    ensures
        running_count(ws.update(i, w)) + (if ws[i].running {
            1 as nat
        } else {
            0 as nat
        }) == running_count(ws) + (if w.running {
            1 as nat
        } else {
            0 as nat
        }),
        busy_count(ws.update(i, w)) + (if ws[i].busy is Some {
            1 as nat
        } else {
            0 as nat
        }) == busy_count(ws) + (if w.busy is Some {
            1 as nat
        } else {
            0 as nat
        }),
        busy_jobs(ws.update(i, w)).add(busy_of(ws[i].busy)) == busy_jobs(ws).add(busy_of(w.busy)),
    decreases ws.len(),
{
    if i == ws.len() - 1 {
        assert(ws.update(i, w).drop_last() =~= ws.drop_last());
        assert(ws.update(i, w).last() == w);
        assert(busy_jobs(ws.drop_last()).add(busy_of(w.busy)).add(busy_of(ws[i].busy))
            =~= busy_jobs(ws.drop_last()).add(busy_of(ws[i].busy)).add(busy_of(w.busy)));
    } else {
        assert(ws.update(i, w).drop_last() =~= ws.drop_last().update(i, w));
        assert(ws.update(i, w).last() == ws.last());
        lemma_counts_update(ws.drop_last(), i, w);
        let tail = busy_of(ws.last().busy);
        assert(busy_jobs(ws.drop_last().update(i, w)).add(tail).add(busy_of(ws[i].busy))
            =~= busy_jobs(ws.drop_last().update(i, w)).add(busy_of(ws[i].busy)).add(tail));
        assert(busy_jobs(ws.drop_last()).add(busy_of(w.busy)).add(tail) =~= busy_jobs(
            ws.drop_last(),
        ).add(tail).add(busy_of(w.busy)));
    }
}

/// No worker is in its loop exactly when the running count is zero, and
/// no worker holds a job exactly when the busy count is zero; an all-idle
/// pool contributes an empty multiset of claimed jobs.
proof fn lemma_counts_zero(ws: Seq<WorkerModel>)
    ensures
        running_count(ws) == 0 <==> (forall|k: int|
            0 <= k < ws.len() ==> !(#[trigger] ws[k]).running),
        busy_count(ws) == 0 <==> (forall|k: int|
            0 <= k < ws.len() ==> (#[trigger] ws[k]).busy is None),
        busy_count(ws) == 0 ==> busy_jobs(ws) == Multiset::<u64>::empty(),
    decreases ws.len(),
{
    if ws.len() > 0 {
        lemma_counts_zero(ws.drop_last());
        assert(forall|k: int| 0 <= k < ws.len() - 1 ==> ws[k] == ws.drop_last()[k]);
        if running_count(ws) == 0 {
            assert forall|k: int| 0 <= k < ws.len() implies !(#[trigger] ws[k]).running by {
                if k < ws.len() - 1 {
                    assert(!ws.drop_last()[k].running);
                }
            }
        }
        if busy_count(ws) == 0 {
            assert forall|k: int| 0 <= k < ws.len() implies (#[trigger] ws[k]).busy is None by {
                if k < ws.len() - 1 {
                    assert(ws.drop_last()[k].busy is None);
                }
            }
            assert(busy_jobs(ws.drop_last()).add(busy_of(ws.last().busy)) =~= Multiset::<
                u64,
            >::empty());
        }
    }
}

/// A pool whose workers all sit in their loop has a full running count.
proof fn lemma_running_count_all(ws: Seq<WorkerModel>)
    requires
        forall|k: int| 0 <= k < ws.len() ==> (#[trigger] ws[k]).running,
    ensures
        running_count(ws) == ws.len(),
    decreases ws.len(),
{
    if ws.len() > 0 {
        assert(forall|k: int| 0 <= k < ws.len() - 1 ==> ws.drop_last()[k] == ws[k]);
        lemma_running_count_all(ws.drop_last());
    }
}

/// The pool after a whole batch of submissions, oldest first.
pub open spec fn submit_all(m: PoolModel, jobs: Seq<u64>) -> PoolModel
    decreases jobs.len(),
{
    if jobs.len() == 0 {
        m
    } else {
        submit_all(m.submit(jobs.first()), jobs.drop_first())
    }
}

/// Submissions are queued first-in first-out and nothing is lost on the
/// way in: after submitting any batch of jobs, the dispatch queue carries
/// the jobs it already carried followed by the batch, in submission
/// order, each exactly once; the workers, the execution log and the
/// phase are untouched.
pub proof fn lemma_submissions_fifo(m: PoolModel, jobs: Seq<u64>)
    ensures
        queued_jobs(submit_all(m, jobs).queue) == queued_jobs(m.queue) + jobs,
        submit_all(m, jobs).workers == m.workers,
        submit_all(m, jobs).executed == m.executed,
        submit_all(m, jobs).phase == m.phase,
    decreases jobs.len(),
{
    if jobs.len() == 0 {
        assert(queued_jobs(m.queue) + jobs =~= queued_jobs(m.queue));
    } else {
        lemma_push_message(m.queue, ControlMessage::Execute(jobs.first()));
        lemma_submissions_fifo(m.submit(jobs.first()), jobs.drop_first());
        assert(queued_jobs(m.queue).push(jobs.first()) + jobs.drop_first() =~= queued_jobs(m.queue)
            + jobs);
    }
}

/// Claiming runs in parallel across workers: with at least two workers,
/// two submitted jobs end up claimed by two distinct workers at the same
/// time — the first job with the first claimant, the second with the
/// second — every message is consumed by exactly one worker, and no
/// third worker holds anything. The shared intake serializes claiming
/// only, never execution.
pub proof fn lemma_parallel_dispatch(size: usize, j1: u64, j2: u64)
    requires
        2 <= size,
    ensures
        ({
            let m = initial_pool(size as int).submit(j1).submit(j2).claim(0).claim(1);
            &&& m.workers.len() == size
            &&& m.workers[0].busy == Some(j1)
            &&& m.workers[1].busy == Some(j2)
            &&& m.workers[0].running && m.workers[1].running
            &&& queued_jobs(m.queue).len() == 0
            &&& forall|k: int| 2 <= k < m.workers.len() ==> (#[trigger] m.workers[k]).busy is None
        }),
{
    let m2 = initial_pool(size as int).submit(j1).submit(j2);
    assert(m2.queue =~= seq![ControlMessage::Execute(j1), ControlMessage::Execute(j2)]);
    let m3 = m2.claim(0);
    assert(m3.queue =~= seq![ControlMessage::Execute(j2)]);
    let m4 = m3.claim(1);
    assert(m4.queue =~= Seq::<ControlMessage>::empty());
}

/// A fixed collection of workers around one FIFO dispatch queue.
pub struct ThreadPool {
    workers: Vec<Worker>,
    queue: Vec<ControlMessage>,
    phase: Phase,
    executed: Vec<u64>,
}

impl View for ThreadPool {
    type V = PoolModel;

    closed spec fn view(&self) -> PoolModel {
        PoolModel {
            workers: self.workers@.map(|i: int, w: Worker| w@),
            queue: self.queue@,
            phase: self.phase,
            executed: self.executed@,
        }
    }
}

impl Worker {
    /// Construction of one worker: its thread enters the message loop and
    /// the handle to it is stored for the single join at teardown.
    pub fn new(id: usize) -> (w: Worker)
        ensures
            w@ == fresh_worker(id as int),
    {
        Worker { id, running: true, busy: None, handle: Some(ThreadHandle { worker_id: id }) }
    }
}

impl ThreadPool {
    /// Construction: exactly `size` workers, every one alive in its loop,
    /// an empty dispatch queue, and an empty execution log. A worker
    /// count of zero is a configuration error and is not accepted.
    pub fn new(size: usize) -> (pool: ThreadPool)
        requires
            1 <= size,
        ensures
            pool@ == initial_pool(size as int),
            pool@.wf(),
            pool@.workers.len() == size,
            forall|i: int| 0 <= i < size ==> (#[trigger] pool@.workers[i]).running,
    {
        let mut workers: Vec<Worker> = Vec::new();
        let mut i: usize = 0;
        while i < size
            invariant
                i <= size,
                workers@.len() == i,
                forall|k: int| 0 <= k < i ==> (#[trigger] workers@[k])@ == fresh_worker(k),
            decreases size - i,
        {
            workers.push(Worker::new(i));
            i += 1;
        }
        let pool = ThreadPool {
            workers,
            queue: Vec::new(),
            phase: Phase::Active,
            executed: Vec::new(),
        };
        proof {
            assert(pool@.workers =~= initial_pool(size as int).workers);
            assert(pool@ =~= initial_pool(size as int));
        }
        pool
    }

    /// Submission: while the pool is active, the job goes to the back of
    /// the dispatch queue, behind every earlier submission and ahead of
    /// every later one, and nothing else changes. Once teardown has begun
    /// the dispatch channel is no longer owed to submitters, so an active
    /// pool is required.
    pub fn exec(&mut self, job: u64)
        requires
            old(self)@.wf(),
            old(self)@.phase == Phase::Active,
        ensures
            final(self)@ == old(self)@.submit(job),
            final(self)@.wf(),
            final(self)@.queue == old(self)@.queue.push(ControlMessage::Execute(job)),
            queued_jobs(final(self)@.queue) == queued_jobs(old(self)@.queue).push(job),
            final(self)@.workers == old(self)@.workers,
            final(self)@.executed == old(self)@.executed,
            final(self)@.phase == Phase::Active,
    {
        self.queue.push(ControlMessage::Execute(job));
        proof {
            lemma_push_message(old(self)@.queue, ControlMessage::Execute(job));
            assert(self@ =~= old(self)@.submit(job));
        }
    }

    /// Worker `i`, idle in its loop, claims the message at the front of
    /// the queue: the message leaves the queue, exactly this one worker
    /// acts on it, and every other worker is untouched.
    pub fn claim(&mut self, i: usize)
        requires
            old(self)@.wf(),
            i < old(self)@.workers.len(),
            old(self)@.workers[i as int].running,
            old(self)@.workers[i as int].busy is None,
            old(self)@.queue.len() > 0,
        ensures
            final(self)@ == old(self)@.claim(i as int),
            final(self)@.wf(),
            final(self)@.queue == old(self)@.queue.drop_first(),
            final(self)@.phase == old(self)@.phase,
            final(self)@.executed == old(self)@.executed,
            final(self)@.workers.len() == old(self)@.workers.len(),
            forall|k: int|
                0 <= k < final(self)@.workers.len() && k != i ==> final(self)@.workers[k] == old(
                    self,
                )@.workers[k],
            old(self)@.queue.first() matches ControlMessage::Execute(j) ==> final(self)@.workers[i as int]
                == (WorkerModel { busy: Some(j), ..old(self)@.workers[i as int] }),
            old(self)@.queue.first() is Shutdown ==> final(self)@.workers[i as int] == (WorkerModel {
                running: false,
                ..old(self)@.workers[i as int]
            }),
    {
        let msg = self.queue.remove(0);
        let w = self.workers[i];
        match msg {
            ControlMessage::Execute(j) => {
                self.workers[i] = Worker { busy: Some(j), ..w };
            },
            ControlMessage::Shutdown => {
                self.workers[i] = Worker { running: false, ..w };
            },
        }
        proof {
            assert(old(self)@.queue.remove(0) =~= old(self)@.queue.drop_first());
            assert(self@.workers =~= old(self)@.claim(i as int).workers);
            assert(self@ =~= old(self)@.claim(i as int));
            lemma_counts_update(old(self)@.workers, i as int, self@.workers[i as int]);
            let q0 = old(self)@.queue;
            match old(self)@.phase {
                Phase::Active => {
                    assert(q0.first() is Execute);
                    assert(forall|k: int|
                        0 <= k < self@.queue.len() ==> self@.queue[k] == q0[k + 1]);
                },
                Phase::ShuttingDown => {
                    if self@.queue.len() > 0 {
                        assert(self@.queue.last() == q0.last());
                    }
                },
                Phase::Terminated => {},
            }
        }
    }

    /// Worker `i` runs its claimed job to completion: the job's identity
    /// joins the execution log, exactly once, and the worker is idle
    /// again. Nothing else — queue, phase, other workers — changes.
    pub fn finish(&mut self, i: usize)
        requires
            old(self)@.wf(),
            i < old(self)@.workers.len(),
            old(self)@.workers[i as int].busy is Some,
        ensures
            final(self)@ == old(self)@.finish(i as int),
            final(self)@.wf(),
            final(self)@.executed == old(self)@.executed.push(old(self)@.workers[i as int].busy.unwrap()),
            final(self)@.queue == old(self)@.queue,
            final(self)@.phase == old(self)@.phase,
            final(self)@.workers.len() == old(self)@.workers.len(),
            forall|k: int|
                0 <= k < final(self)@.workers.len() && k != i ==> final(self)@.workers[k] == old(
                    self,
                )@.workers[k],
            final(self)@.workers[i as int] == (WorkerModel {
                busy: None,
                ..old(self)@.workers[i as int]
            }),
    {
        let w = self.workers[i];
        if let Some(j) = w.busy {
            self.executed.push(j);
            self.workers[i] = Worker { busy: None, ..w };
        }
        proof {
            assert(self@.workers =~= old(self)@.finish(i as int).workers);
            assert(self@ =~= old(self)@.finish(i as int));
            lemma_counts_update(old(self)@.workers, i as int, self@.workers[i as int]);
        }
    }

    /// Teardown's first half: exactly one stop signal per worker goes to
    /// the back of the queue — as many signals as there are workers, so
    /// that every worker receives one and none waits forever — and the
    /// pool stops accepting submissions. Jobs already queued stay ahead
    /// of every signal.
    pub fn begin_shutdown(&mut self)
        requires
            old(self)@.wf(),
            old(self)@.phase == Phase::Active,
        ensures
            final(self)@ == old(self)@.begin_shutdown(),
            final(self)@.wf(),
            final(self)@.phase == Phase::ShuttingDown,
            stop_signals(final(self)@.queue) == final(self)@.workers.len(),
            queued_jobs(final(self)@.queue) == queued_jobs(old(self)@.queue),
            final(self)@.workers == old(self)@.workers,
            final(self)@.executed == old(self)@.executed,
    {
        let ghost q0 = self@.queue;
        let n = self.workers.len();
        let mut k: usize = 0;
        while k < n
            invariant
                k <= n,
                self@.workers == old(self)@.workers,
                self@.executed == old(self)@.executed,
                self@.phase == old(self)@.phase,
                self@.queue == q0 + Seq::new(k as nat, |x: int| ControlMessage::Shutdown),
            decreases n - k,
        {
            self.queue.push(ControlMessage::Shutdown);
            k += 1;
            proof {
                assert(self@.queue =~= q0 + Seq::new(k as nat, |x: int| ControlMessage::Shutdown));
            }
        }
        self.phase = Phase::ShuttingDown;
        proof {
            let stops = Seq::new(n as nat, |x: int| ControlMessage::Shutdown);
            lemma_concat_messages(q0, stops);
            lemma_all_stop_signals(n as nat);
            lemma_stop_signals_zero(q0);
            lemma_running_count_all(old(self)@.workers);
            assert(queued_jobs(q0) + queued_jobs(stops) =~= queued_jobs(q0));
            assert(self@ =~= old(self)@.begin_shutdown());
            assert(self@.queue.last() == stops.last());
        }
    }

    /// Teardown's second half, one worker at a time: the join consumes
    /// the worker's thread handle, so no thread is ever joined twice. A
    /// join returns only once the worker's thread has exited its loop, so
    /// a worker still running cannot be joined.
    pub fn join_worker(&mut self, i: usize)
        requires
            old(self)@.wf(),
            i < old(self)@.workers.len(),
            !old(self)@.workers[i as int].running,
            !old(self)@.workers[i as int].joined,
        ensures
            final(self)@ == old(self)@.join(i as int),
            final(self)@.wf(),
            final(self)@.queue == old(self)@.queue,
            final(self)@.phase == old(self)@.phase,
            final(self)@.executed == old(self)@.executed,
            final(self)@.workers.len() == old(self)@.workers.len(),
            forall|k: int|
                0 <= k < final(self)@.workers.len() && k != i ==> final(self)@.workers[k] == old(
                    self,
                )@.workers[k],
            final(self)@.workers[i as int] == (WorkerModel {
                joined: true,
                ..old(self)@.workers[i as int]
            }),
    {
        let w = self.workers[i];
        self.workers[i] = Worker { handle: None, ..w };
        proof {
            assert(self@.workers =~= old(self)@.join(i as int).workers);
            assert(self@ =~= old(self)@.join(i as int));
            lemma_counts_update(old(self)@.workers, i as int, self@.workers[i as int]);
        }
    }

    /// Full teardown, the two-phase protocol: one stop signal per worker
    /// is queued behind every pending message, then claimed jobs and
    /// pending messages are consumed until every worker has taken its
    /// signal and left its loop, then every worker is joined, in ordinal
    /// order. It never deadlocks: the consuming loop provably terminates
    /// because every looping worker has exactly one stop signal waiting.
    /// When it returns, no worker thread remains, every handle has been
    /// consumed, and the execution log has grown by exactly the jobs that
    /// were claimed or queued when teardown began — each ran exactly
    /// once, none was duplicated, none was silently dropped. With a
    /// single worker the log grows by its claimed job, then the queued
    /// jobs in submission order.
    pub fn shutdown(&mut self)
        requires
            old(self)@.wf(),
            old(self)@.phase == Phase::Active,
        ensures
            final(self)@.wf(),
            final(self)@.phase == Phase::Terminated,
            final(self)@.workers.len() == old(self)@.workers.len(),
            forall|i: int|
                0 <= i < final(self)@.workers.len() ==> {
                    &&& !(#[trigger] final(self)@.workers[i]).running
                    &&& final(self)@.workers[i].joined
                    &&& final(self)@.workers[i].busy is None
                },
            final(self)@.queue.len() == 0,
            final(self)@.executed.to_multiset() == old(self)@.executed.to_multiset().add(
                busy_jobs(old(self)@.workers),
            ).add(queued_jobs(old(self)@.queue).to_multiset()),
            old(self)@.workers.len() == 1 ==> final(self)@.executed == old(self)@.executed
                + busy_seq(old(self)@.workers[0].busy) + queued_jobs(old(self)@.queue),
    {
        self.begin_shutdown();
        let ghost g = self@;
        let ghost total = g.executed.to_multiset().add(busy_jobs(g.workers)).add(
            queued_jobs(g.queue).to_multiset(),
        );
        loop
            invariant
                self@.wf(),
                self@.phase == Phase::ShuttingDown,
                self@.workers.len() == g.workers.len(),
                g.workers.len() >= 1,
                forall|k: int|
                    0 <= k < self@.workers.len() ==> !(#[trigger] self@.workers[k]).joined,
                self@.executed.to_multiset().add(busy_jobs(self@.workers)).add(
                    queued_jobs(self@.queue).to_multiset(),
                ) == total,
                g.workers.len() == 1 ==> self@.executed + busy_seq(self@.workers[0].busy)
                    + queued_jobs(self@.queue) == g.executed + busy_seq(g.workers[0].busy)
                    + queued_jobs(g.queue),
            ensures
                self@.wf(),
                self@.phase == Phase::ShuttingDown,
                self@.workers.len() == g.workers.len(),
                forall|k: int|
                    0 <= k < self@.workers.len() ==> !(#[trigger] self@.workers[k]).joined,
                busy_count(self@.workers) == 0,
                running_count(self@.workers) == 0,
                self@.queue.len() == 0,
                self@.executed.to_multiset().add(busy_jobs(self@.workers)).add(
                    queued_jobs(self@.queue).to_multiset(),
                ) == total,
                g.workers.len() == 1 ==> self@.executed + busy_seq(self@.workers[0].busy)
                    + queued_jobs(self@.queue) == g.executed + busy_seq(g.workers[0].busy)
                    + queued_jobs(g.queue),
            decreases 2 * self@.queue.len() + busy_count(self@.workers) + running_count(
                self@.workers,
            ),
        {
            let ghost pre = self@;
            if let Some(i) = self.find_busy() {
                let ghost j = self@.workers[i as int].busy.unwrap();
                self.finish(i);
                proof {
                    lemma_counts_update(
                        pre.workers,
                        i as int,
                        (WorkerModel { busy: None, ..pre.workers[i as int] }),
                    );
                    assert(self@.queue == pre.queue);
                    assert(pre.workers[i as int].busy == Some(j));
                    assert(self@.executed == pre.executed.push(j));
                    assert(self@.executed.to_multiset() == pre.executed.to_multiset().insert(j));
                    assert(self@.workers == pre.workers.update(
                        i as int,
                        (WorkerModel { busy: None, ..pre.workers[i as int] }),
                    ));
                    assert(busy_jobs(self@.workers).add(busy_of(Some(j))) == busy_jobs(
                        pre.workers,
                    ).add(busy_of(None)));
                    assert forall|x: u64|
                        self@.executed.to_multiset().add(busy_jobs(self@.workers)).add(
                            queued_jobs(self@.queue).to_multiset(),
                        ).count(x) == total.count(x) by {
                        assert(pre.executed.to_multiset().add(busy_jobs(pre.workers)).add(
                            queued_jobs(pre.queue).to_multiset(),
                        ).count(x) == total.count(x));
                        assert(busy_jobs(self@.workers).add(busy_of(Some(j))).count(x)
                            == busy_jobs(pre.workers).add(busy_of(None)).count(x));
                        assert(self@.executed.to_multiset().count(x)
                            == pre.executed.to_multiset().insert(j).count(x));
                    }
                    assert(self@.executed.to_multiset().add(busy_jobs(self@.workers)).add(
                        queued_jobs(self@.queue).to_multiset(),
                    ) =~= total);
                    if g.workers.len() == 1 {
                        assert(i == 0);
                        assert(self@.executed + busy_seq(self@.workers[0].busy) + queued_jobs(
                            self@.queue,
                        ) =~= pre.executed + busy_seq(pre.workers[0].busy) + queued_jobs(
                            pre.queue,
                        ));
                    }
                }
            } else if let Some(i) = self.find_running() {
                proof {
                    lemma_counts_zero(self@.workers);
                    assert(running_count(self@.workers) > 0);
                    assert(stop_signals(self@.queue) > 0);
                    assert(self@.queue.len() > 0);
                }
                self.claim(i);
                proof {
                    match pre.queue.first() {
                        ControlMessage::Execute(j) => {
                            lemma_counts_update(
                                pre.workers,
                                i as int,
                                (WorkerModel { busy: Some(j), ..pre.workers[i as int] }),
                            );
                            assert(queued_jobs(pre.queue) == seq![j] + queued_jobs(self@.queue));
                            vstd::seq_lib::lemma_multiset_commutative(
                                seq![j],
                                queued_jobs(self@.queue),
                            );
                            assert(seq![j] =~= Seq::<u64>::empty().push(j));
                            assert(seq![j].to_multiset() =~= Multiset::<u64>::empty().insert(j));
                            assert forall|x: u64|
                                self@.executed.to_multiset().add(busy_jobs(self@.workers)).add(
                                    queued_jobs(self@.queue).to_multiset(),
                                ).count(x) == total.count(x) by {
                                assert(pre.executed.to_multiset().add(busy_jobs(pre.workers)).add(
                                    queued_jobs(pre.queue).to_multiset(),
                                ).count(x) == total.count(x));
                                assert(queued_jobs(pre.queue).to_multiset().count(x)
                                    == seq![j].to_multiset().add(
                                    queued_jobs(self@.queue).to_multiset(),
                                ).count(x));
                                assert(busy_jobs(self@.workers).add(busy_of(None)).count(x)
                                    == busy_jobs(pre.workers).add(busy_of(Some(j))).count(x));
                            }
                            assert(self@.executed.to_multiset().add(busy_jobs(self@.workers)).add(
                                queued_jobs(self@.queue).to_multiset(),
                            ) =~= total);
                            if g.workers.len() == 1 {
                                assert(i == 0);
                                assert(self@.executed + busy_seq(self@.workers[0].busy)
                                    + queued_jobs(self@.queue) =~= pre.executed + busy_seq(
                                    pre.workers[0].busy,
                                ) + queued_jobs(pre.queue));
                            }
                        },
                        ControlMessage::Shutdown => {
                            lemma_counts_update(
                                pre.workers,
                                i as int,
                                (WorkerModel { running: false, ..pre.workers[i as int] }),
                            );
                            assert(queued_jobs(pre.queue) == queued_jobs(self@.queue));
                            assert forall|x: u64|
                                self@.executed.to_multiset().add(busy_jobs(self@.workers)).add(
                                    queued_jobs(self@.queue).to_multiset(),
                                ).count(x) == total.count(x) by {
                                assert(pre.executed.to_multiset().add(busy_jobs(pre.workers)).add(
                                    queued_jobs(pre.queue).to_multiset(),
                                ).count(x) == total.count(x));
                                assert(busy_jobs(self@.workers).add(busy_of(None)).count(x)
                                    == busy_jobs(pre.workers).add(busy_of(None)).count(x));
                            }
                            assert(self@.executed.to_multiset().add(busy_jobs(self@.workers)).add(
                                queued_jobs(self@.queue).to_multiset(),
                            ) =~= total);
                        },
                    }
                }
            } else {
                proof {
                    lemma_stop_signals_zero(self@.queue);
                    if self@.queue.len() > 0 {
                        assert(self@.queue.last() is Execute);
                        assert(false);
                    }
                }
                break ;
            }
        }
        let ghost e = self@;
        proof {
            lemma_counts_zero(e.workers);
        }
        let n = self.workers.len();
        let mut i: usize = 0;
        while i < n
            invariant
                i <= n,
                self@.wf(),
                self@.phase == Phase::ShuttingDown,
                n == self@.workers.len(),
                self@.queue.len() == 0,
                self@.executed == e.executed,
                forall|k: int|
                    0 <= k < n ==> !(#[trigger] self@.workers[k]).running && self@.workers[k].busy
                        is None,
                forall|k: int| 0 <= k < i ==> (#[trigger] self@.workers[k]).joined,
                forall|k: int| i <= k < n ==> !(#[trigger] self@.workers[k]).joined,
            decreases n - i,
        {
            self.join_worker(i);
            i += 1;
        }
        self.phase = Phase::Terminated;
        proof {
            assert(queued_jobs(e.queue) =~= Seq::<u64>::empty());
            vstd::multiset::lemma_multiset_empty_len(queued_jobs(e.queue).to_multiset());
            assert(e.executed.to_multiset().add(busy_jobs(e.workers)).add(
                queued_jobs(e.queue).to_multiset(),
            ) =~= e.executed.to_multiset());
            assert(total == old(self)@.executed.to_multiset().add(
                busy_jobs(old(self)@.workers),
            ).add(queued_jobs(old(self)@.queue).to_multiset()));
            if old(self)@.workers.len() == 1 {
                assert(e.executed =~= e.executed + busy_seq(e.workers[0].busy) + queued_jobs(
                    e.queue,
                ));
                assert(g.executed + busy_seq(g.workers[0].busy) + queued_jobs(g.queue)
                    =~= old(self)@.executed + busy_seq(old(self)@.workers[0].busy) + queued_jobs(
                    old(self)@.queue,
                ));
            }
        }
    }

    /// The lowest-numbered worker holding a claimed job, if any.
    fn find_busy(&self) -> (r: Option<usize>)
        ensures
            match r {
                Some(i) => i < self@.workers.len() && self@.workers[i as int].busy is Some,
                None => busy_count(self@.workers) == 0,
            },
    {
        let n = self.workers.len();
        let mut i: usize = 0;
        while i < n
            invariant
                i <= n,
                n == self@.workers.len(),
                forall|k: int| 0 <= k < i ==> (#[trigger] self@.workers[k]).busy is None,
            decreases n - i,
        {
            if self.workers[i].busy.is_some() {
                return Some(i);
            }
            i += 1;
        }
        proof {
            lemma_counts_zero(self@.workers);
        }
        None
    }

    /// The lowest-numbered worker still in its message loop, if any.
    fn find_running(&self) -> (r: Option<usize>)
        ensures
            match r {
                Some(i) => i < self@.workers.len() && self@.workers[i as int].running,
                None => running_count(self@.workers) == 0,
            },
    {
        let n = self.workers.len();
        let mut i: usize = 0;
        while i < n
            invariant
                i <= n,
                n == self@.workers.len(),
                forall|k: int| 0 <= k < i ==> !(#[trigger] self@.workers[k]).running,
            decreases n - i,
        {
            if self.workers[i].running {
                return Some(i);
            }
            i += 1;
        }
        proof {
            lemma_counts_zero(self@.workers);
        }
        None
    }

    /// How many workers the pool was built with; fixed for its lifetime.
    pub fn worker_count(&self) -> (n: usize)
        ensures
            n == self@.workers.len(),
    {
        self.workers.len()
    }

    /// The pool's current lifecycle phase.
    pub fn current_phase(&self) -> (p: Phase)
        ensures
            p == self@.phase,
    {
        self.phase
    }

    /// How many workers are still in their message loop.
    pub fn running_workers(&self) -> (n: usize)
        ensures
            n as nat == running_count(self@.workers),
    {
        let len = self.workers.len();
        let mut n: usize = 0;
        let mut i: usize = 0;
        while i < len
            invariant
                i <= len,
                n <= i,
                len == self@.workers.len(),
                n as nat == running_count(self@.workers.take(i as int)),
            decreases len - i,
        {
            proof {
                assert(self@.workers.take(i + 1).drop_last() =~= self@.workers.take(i as int));
                assert(self@.workers.take(i + 1).last() == self@.workers[i as int]);
            }
            if self.workers[i].running {
                n += 1;
            }
            i += 1;
        }
        proof {
            assert(self@.workers.take(len as int) =~= self@.workers);
        }
        n
    }

    /// Whether worker `i`'s thread is still in its message loop.
    pub fn worker_running(&self, i: usize) -> (r: bool)
        requires
            i < self@.workers.len(),
        ensures
            r == self@.workers[i as int].running,
    {
        self.workers[i].running
    }

    /// Whether worker `i`'s thread handle has been consumed by a join.
    pub fn worker_joined(&self, i: usize) -> (r: bool)
        requires
            i < self@.workers.len(),
        ensures
            r == self@.workers[i as int].joined,
    {
        self.workers[i].handle.is_none()
    }

    /// The job worker `i` has claimed and not yet finished, if any.
    pub fn busy_job(&self, i: usize) -> (r: Option<u64>)
        requires
            i < self@.workers.len(),
        ensures
            r == self@.workers[i as int].busy,
    {
        self.workers[i].busy
    }

    /// How many messages sit in the dispatch queue.
    pub fn queue_len(&self) -> (n: usize)
        ensures
            n == self@.queue.len(),
    {
        self.queue.len()
    }

    /// The log of jobs that have run, in completion order.
    pub fn executed_log(&self) -> (r: &Vec<u64>)
        ensures
            r@ == self@.executed,
    {
        &self.executed
    }
}

} // verus!

