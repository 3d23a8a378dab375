//! The single-flight FIFO scheduler.
//!
//! All client connections share one queue of not-yet-started jobs and one
//! single-owner execution permit. Every `Schedule` request appends its job
//! to the queue and then tries to take the permit; exactly one caller
//! holds it at a time, and the holder drains the queue — head first, one
//! job after the other, each run to completion before the next starts —
//! until the queue is empty, then releases the permit.
//!
//! The daemon wraps a [`Scheduler`] in a mutual-exclusion lock and calls
//! each operation inside a short critical section; the operations
//! themselves never block. Two ghost histories — ids in order of
//! submission and ids in order of execution start — let the FIFO and
//! single-flight guarantees be stated and proved as invariants.

use vstd::prelude::*;

use crate::job::{Job, JobId};

verus! {

/// The ids of a queue of jobs, in queue order.
pub open spec fn queued_ids(queue: Seq<Job>) -> Seq<Seq<char>> {
    Seq::new(queue.len(), |i: int| queue[i]@.id)
}

/// The shared scheduling state: the FIFO queue, the execution permit, the
/// job currently running (if any), and the last-scheduled-job marker.
pub struct Scheduler {
    /// Not-yet-started jobs, head at index 0.
    pub queue: Vec<Job>,
    /// Whether some caller holds the execution permit and is draining.
    pub draining: bool,
    /// The id of the job currently being executed, if one is.
    pub running: Option<JobIdGhost>,
    /// The id of the most recently dequeued-to-run job; what a
    /// `GetLastJob` request answers with.
    pub last_job: Option<Job>,
    /// Ids of all jobs ever enqueued, in submission order.
    pub submitted: Ghost<Seq<Seq<char>>>,
    /// Ids of all jobs whose execution has started, in start order.
    pub executed: Ghost<Seq<Seq<char>>>,
}

/// The running job's id is only ever inspected in specifications, so it is
/// kept as ghost text.
pub struct JobIdGhost {
    pub id: Ghost<Seq<char>>,
}

impl Scheduler {
    /// The scheduler's invariant, preserved by every operation:
    /// submission order is execution order followed by queue order (FIFO),
    /// and a job can only be running while the permit is held.
    pub open spec fn wf(self) -> bool {
        &&& self.submitted@ == self.executed@ + queued_ids(self.queue@)
        &&& self.running is Some ==> self.draining
    }

    /// A fresh scheduler: empty queue, permit free, nothing running,
    /// no job scheduled yet.
    pub fn new() -> (s: Scheduler)
        ensures
            s.wf(),
            s.queue@.len() == 0,
            !s.draining,
            s.running is None,
            s.last_job is None,
            s.submitted@ == Seq::<Seq<char>>::empty(),
            s.executed@ == Seq::<Seq<char>>::empty(),
            state_inv(s.state()),
    {
        let s = Scheduler {
            queue: Vec::new(),
            draining: false,
            running: None,
            last_job: None,
            submitted: Ghost(Seq::empty()),
            executed: Ghost(Seq::empty()),
        };
        proof {
            assert(s.submitted@ =~= s.executed@ + queued_ids(s.queue@));
        }
        s
    }

    /// Append a job to the tail of the queue. Always succeeds at once;
    /// nothing else about the state changes.
    pub fn enqueue(&mut self, job: Job)
        requires
            old(self).wf(),
        ensures
            final(self).wf(),
            final(self).queue@ == old(self).queue@.push(job),
            final(self).submitted@ == old(self).submitted@.push(job@.id),
            final(self).executed@ == old(self).executed@,
            final(self).draining == old(self).draining,
            final(self).running == old(self).running,
            final(self).last_job == old(self).last_job,
            final(self).state() == sched_step(old(self).state(), SchedOp::Enqueue(job@.id))
                ->Some_0,
    {
        let ghost new_submitted = self.submitted@.push(job@.id);
        self.queue.push(job);
        self.submitted = Ghost(new_submitted);
        proof {
            assert(self.submitted@ =~= self.executed@ + queued_ids(self.queue@));
            assert(queued_ids(self.queue@) =~= queued_ids(old(self).queue@).push(job@.id));
            assert(self.state() =~~= sched_step(old(self).state(), SchedOp::Enqueue(job@.id))
                ->Some_0);
        }
    }

    /// Try to take the single-owner execution permit, without blocking.
    /// Exactly the caller that finds the permit free gets it; a caller
    /// that finds it taken changes nothing and returns at once.
    pub fn try_start_pass(&mut self) -> (granted: bool)
        requires
            old(self).wf(),
        ensures
            final(self).wf(),
            granted == !old(self).draining,
            final(self).draining,
            !granted ==> *final(self) == *old(self),
            final(self).queue == old(self).queue,
            final(self).running == old(self).running,
            final(self).last_job == old(self).last_job,
            final(self).submitted == old(self).submitted,
            final(self).executed == old(self).executed,
            final(self).state() == sched_step(old(self).state(), SchedOp::TryStartPass)->Some_0,
    {
        let granted = if self.draining {
            false
        } else {
            self.draining = true;
            true
        };
        proof {
            assert(self.state() =~~= sched_step(old(self).state(), SchedOp::TryStartPass)
                ->Some_0);
        }
        granted
    }

    /// Dequeue the next job of the draining pass. Only the permit holder
    /// may call this, and only between jobs, never while one runs.
    ///
    /// With a job at the head of the queue: that job — and no other — is
    /// handed out to be executed, it is recorded as running and as the
    /// last scheduled job, and the execution history grows by exactly its
    /// id. With an empty queue: the permit is released and the pass is
    /// over.
    pub fn take_next(&mut self) -> (next: Option<Job>)
        requires
            old(self).wf(),
            old(self).draining,
            old(self).running is None,
        ensures
            final(self).wf(),
            final(self).submitted@ == old(self).submitted@,
            match next {
                Some(job) => {
                    &&& old(self).queue@.len() > 0
                    &&& job@ == old(self).queue@[0]@
                    &&& final(self).queue@ == old(self).queue@.drop_first()
                    &&& final(self).executed@ == old(self).executed@.push(job@.id)
                    &&& final(self).draining
                    &&& final(self).running matches Some(r) && r.id@ == job@.id
                    &&& final(self).last_job matches Some(l) && l@ == job@
                },
                None => {
                    &&& old(self).queue@.len() == 0
                    &&& final(self).queue@ == old(self).queue@
                    &&& final(self).executed@ == old(self).executed@
                    &&& !final(self).draining
                    &&& final(self).running is None
                    &&& final(self).last_job == old(self).last_job
                },
            },
            final(self).state() == sched_step(old(self).state(), SchedOp::TakeNext)->Some_0,
    {
        if self.queue.len() == 0 {
            self.draining = false;
            proof {
                assert(self.state() =~~= sched_step(old(self).state(), SchedOp::TakeNext)
                    ->Some_0);
            }
            return None;
        }
        let job = self.queue.remove(0);
        let ghost new_executed = self.executed@.push(job@.id);
        self.executed = Ghost(new_executed);
        self.running = Some(JobIdGhost { id: Ghost(job@.id) });
        self.last_job = Some(job.clone());
        proof {
            assert(queued_ids(old(self).queue@).drop_first()
                =~= queued_ids(old(self).queue@.drop_first()));
            assert(self.submitted@ =~= self.executed@ + queued_ids(self.queue@));
            assert(old(self).state().queue[0] == job@.id);
            assert(self.state() =~~= sched_step(old(self).state(), SchedOp::TakeNext)->Some_0);
        }
        Some(job)
    }

    /// Record that the running job's child process has exited. Its exit
    /// status — success or not — is a normal terminal state of the job;
    /// the pass simply moves on.
    pub fn job_finished(&mut self)
        requires
            old(self).wf(),
            old(self).running is Some,
        ensures
            final(self).wf(),
            final(self).running is None,
            final(self).queue == old(self).queue,
            final(self).draining == old(self).draining,
            final(self).last_job == old(self).last_job,
            final(self).submitted@ == old(self).submitted@,
            final(self).executed@ == old(self).executed@,
            final(self).state() == sched_step(old(self).state(), SchedOp::JobFinished)->Some_0,
    {
        self.running = None;
        proof {
            assert(self.state() =~~= sched_step(old(self).state(), SchedOp::JobFinished)
                ->Some_0);
        }
    }

    /// The id to answer a `GetLastJob` request with, if any job has been
    /// scheduled to run yet.
    pub fn last_job_id(&self) -> (r: Option<&JobId>)
        ensures
            match r {
                Some(id) => self.last_job matches Some(l) && l@.id == id@,
                None => self.last_job is None,
            },
    {
        match &self.last_job {
            Some(job) => Some(&job.id),
            None => None,
        }
    }
}

/// FIFO ordering. The jobs that have started executing are exactly the
/// earliest-submitted ones, in submission order: execution never skips or
/// reorders a job. Once the queue has drained, the execution order is the
/// whole submission order.
pub proof fn lemma_fifo_order(s: Scheduler)
    requires
        s.wf(),
    ensures
        s.executed@ == s.submitted@.take(s.executed@.len() as int),
        s.queue@.len() == 0 ==> s.executed@ == s.submitted@,
{
    assert(s.executed@ =~= s.submitted@.take(s.executed@.len() as int));
    if s.queue@.len() == 0 {
        assert(s.executed@ =~= s.submitted@);
    }
}

/// What one attempt to take the permit does, as a function of the state.
pub open spec fn try_start_spec(s: Scheduler) -> (Scheduler, bool) {
    if s.draining {
        (s, false)
    } else {
        (Scheduler { draining: true, ..s }, true)
    }
}

/// How many of `n` consecutive permit attempts from state `s` succeed.
pub open spec fn grants(s: Scheduler, n: nat) -> nat
    decreases n,
{
    if n == 0 {
        0
    } else {
        let (s1, granted) = try_start_spec(s);
        (if granted {
            1nat
        } else {
            0nat
        }) + grants(s1, (n - 1) as nat)
    }
}

/// At-most-one-permit. Of any number of attempts to start a pass, made
/// one after the other with no release in between — as when many
/// connection handlers race after enqueueing — at most one is granted;
/// if a pass was already draining, none is. Failed attempts leave the
/// state untouched.
pub proof fn lemma_at_most_one_permit(s: Scheduler, n: nat)
    ensures
        grants(s, n) <= 1,
        s.draining ==> grants(s, n) == 0,
        !try_start_spec(s).1 ==> try_start_spec(s).0 == s,
    decreases n,
{
    if n > 0 {
        let (s1, _) = try_start_spec(s);
        lemma_at_most_one_permit(s1, (n - 1) as nat);
    }
}

/// The scheduler's abstract state: jobs by id only, one field per shared
/// resource.
pub ghost struct SchedState {
    pub queue: Seq<Seq<char>>,
    pub draining: bool,
    pub running: Option<Seq<char>>,
    pub submitted: Seq<Seq<char>>,
    pub executed: Seq<Seq<char>>,
}

impl Scheduler {
    /// The abstract state this scheduler is in.
    pub open spec fn state(self) -> SchedState {
        SchedState {
            queue: queued_ids(self.queue@),
            draining: self.draining,
            running: match self.running {
                Some(r) => Some(r.id@),
                None => None,
            },
            submitted: self.submitted@,
            executed: self.executed@,
        }
    }
}

/// The invariant over abstract states: FIFO history, and a running job
/// pins the permit.
pub open spec fn state_inv(s: SchedState) -> bool {
    &&& s.submitted == s.executed + s.queue
    &&& s.running is Some ==> s.draining
}

/// One scheduler operation, as a label in a trace.
pub ghost enum SchedOp {
    Enqueue(Seq<char>),
    TryStartPass,
    TakeNext,
    JobFinished,
}

/// The scheduler's transition relation: what each operation does to the
/// abstract state, or `None` where its contract forbids calling it. In
/// particular `TakeNext` — the only transition that starts a child
/// process — is enabled only while the permit is held and nothing runs.
pub open spec fn sched_step(s: SchedState, op: SchedOp) -> Option<SchedState> {
    match op {
        SchedOp::Enqueue(id) => Some(
            SchedState { queue: s.queue.push(id), submitted: s.submitted.push(id), ..s },
        ),
        SchedOp::TryStartPass => Some(SchedState { draining: true, ..s }),
        SchedOp::TakeNext => if s.draining && s.running is None {
            if s.queue.len() == 0 {
                Some(SchedState { draining: false, ..s })
            } else {
                Some(
                    SchedState {
                        queue: s.queue.drop_first(),
                        running: Some(s.queue[0]),
                        executed: s.executed.push(s.queue[0]),
                        ..s
                    },
                )
            }
        } else {
            None
        },
        SchedOp::JobFinished => if s.running is Some {
            Some(SchedState { running: None, ..s })
        } else {
            None
        },
    }
}

/// The state after a whole trace of operations; one whose contract is
/// not met does nothing, as the callers check before calling.
pub open spec fn run_trace(s: SchedState, ops: Seq<SchedOp>) -> SchedState
    decreases ops.len(),
{
    if ops.len() == 0 {
        s
    } else {
        match sched_step(s, ops.first()) {
            Some(s1) => run_trace(s1, ops.drop_first()),
            None => run_trace(s, ops.drop_first()),
        }
    }
}

/// Every state reachable by the scheduler's operations keeps the
/// invariant.
pub proof fn lemma_trace_invariant(s: SchedState, ops: Seq<SchedOp>)
    requires
        state_inv(s),
    ensures
        state_inv(run_trace(s, ops)),
    decreases ops.len(),
{
    if ops.len() > 0 {
        match sched_step(s, ops.first()) {
            Some(s1) => {
                assert(state_inv(s1)) by {
                    match ops.first() {
                        SchedOp::Enqueue(id) => {
                            assert(s1.submitted =~= s1.executed + s1.queue);
                        },
                        SchedOp::TryStartPass => {},
                        SchedOp::TakeNext => {
                            if s.queue.len() > 0 {
                                assert(s1.submitted =~= s1.executed + s1.queue);
                            }
                        },
                        SchedOp::JobFinished => {},
                    }
                }
                lemma_trace_invariant(s1, ops.drop_first());
            },
            None => {
                lemma_trace_invariant(s, ops.drop_first());
            },
        }
    }
}

/// FIFO at trace level: whatever operations run in whatever order, the
/// jobs that have started executing are exactly the earliest-submitted
/// ones, in submission order; none is skipped or reordered. With the
/// queue empty, every submitted job has run, in order.
pub proof fn lemma_trace_fifo(s: SchedState, ops: Seq<SchedOp>)
    requires
        state_inv(s),
    ensures
        run_trace(s, ops).executed == run_trace(s, ops).submitted.take(
            run_trace(s, ops).executed.len() as int,
        ),
        run_trace(s, ops).queue.len() == 0 ==> run_trace(s, ops).executed == run_trace(
            s,
            ops,
        ).submitted,
{
    lemma_trace_invariant(s, ops);
    let t = run_trace(s, ops);
    assert(t.executed =~= t.submitted.take(t.executed.len() as int));
    if t.queue.len() == 0 {
        assert(t.executed =~= t.submitted);
    }
}

/// Single-flight. In every state the scheduler's operations can reach, at
/// most one job is running — the state holds one `running` slot, and the
/// only transition that fills it, `TakeNext`, is enabled only while the
/// slot is empty and the caller holds the permit. So a second child
/// process can be spawned only after the first was waited for, and never
/// do two run at once.
pub proof fn lemma_single_flight(s: SchedState, ops: Seq<SchedOp>)
    requires
        state_inv(s),
    ensures
        state_inv(run_trace(s, ops)),
        run_trace(s, ops).running is Some ==> run_trace(s, ops).draining,
        sched_step(run_trace(s, ops), SchedOp::TakeNext) is Some ==> run_trace(
            s,
            ops,
        ).running is None,
{
    lemma_trace_invariant(s, ops);
}

} // verus!
