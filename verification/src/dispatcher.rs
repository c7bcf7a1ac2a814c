//! The executable dispatcher: the shared stream of candidates, the state of
//! each worker, and the one place where a match is recorded.
//!
//! Its methods are the state machine's events, one for one. A pool of
//! threads shares a dispatcher behind a lock and holds the lock only
//! while a method runs: the keyed hash is computed between a pull and the
//! report that follows it, outside the lock.
use crate::error::ConfigError;
use crate::machine::{live, lemma_fresh_pool, lemma_live_update, lemma_live_zero};
use crate::machine::{DispatchState, Event, Phase, Problem, WorkerState};
use crate::token::Token;
use vstd::prelude::*;

verus! {

/// The executable form of a worker's state.
#[derive(Clone, Copy)]
enum Slot {
    Ready,
    Busy(usize),
    Exited,
}

impl Slot {
    spec fn state(self) -> WorkerState {
        match self {
            Slot::Ready => WorkerState::Ready,
            Slot::Busy(i) => WorkerState::Busy(i as int),
            Slot::Exited => WorkerState::Exited,
        }
    }
}

/// The texts of a vector of candidates, in order.
pub open spec fn texts(candidates: Seq<String>) -> Seq<Seq<char>> {
    Seq::new(candidates.len(), |i: int| candidates[i]@)
}

/// The problem that a token and a list of candidates pose.
pub open spec fn problem_of(token: &Token, candidates: Seq<String>) -> Problem {
    Problem {
        candidates: texts(candidates),
        signing_input: token.signing_text(),
        signature: token.signature@,
    }
}

/// The size of the pool where the caller names none.
pub const DEFAULT_WORKER_COUNT: usize = 10;

/// A candidate handed to a worker: its place in the stream and its text.
pub struct Job {
    pub index: usize,
    pub secret: String,
}

/// How a run ended.
#[derive(Clone, Debug, PartialEq, Eq)]
pub enum Outcome {
    /// A candidate signs the token: the secret, and the signing input that
    /// it was tested against.
    Found { secret: String, signing_input: String },
    /// Every candidate was tested and none signs the token.
    Exhausted,
}

/// The dispatcher of one run.
pub struct Dispatcher {
    candidates: Vec<String>,
    signing_input: String,
    signature: Ghost<Seq<u8>>,
    worker_count: usize,
    started: bool,
    cursor: usize,
    slots: Vec<Slot>,
    found: Option<usize>,
    live: usize,
}

impl View for Dispatcher {
    type V = DispatchState;

    closed spec fn view(&self) -> DispatchState {
        DispatchState {
            problem: Problem {
                candidates: texts(self.candidates@),
                signing_input: self.signing_input@,
                signature: self.signature@,
            },
            worker_count: self.worker_count as nat,
            started: self.started,
            cursor: self.cursor as int,
            workers: Seq::new(self.slots@.len(), |w: int| self.slots@[w].state()),
            found: match self.found {
                Some(i) => Some(i as int),
                None => None,
            },
        }
    }
}

impl Dispatcher {
    /// The dispatcher is within the machine's invariant, and its count of
    /// live workers is right.
    pub closed spec fn wf(&self) -> bool {
        &&& self@.inv()
        &&& self.live == live(self@.workers)
    }

    /// A well-formed dispatcher is within the machine's invariant.
    pub proof fn lemma_wf_inv(&self)
        requires
            self.wf(),
        ensures
            self@.inv(),
    {
    }

    /// A dispatcher for `candidates` against `token`, with a pool of
    /// `worker_count` workers that is yet to be started. A pool of no
    /// worker is refused: it could neither find a match nor rule one out.
    pub fn new(token: &Token, candidates: Vec<String>, worker_count: usize) -> (made: Result<
        Dispatcher,
        ConfigError,
    >)
        ensures
            match made {
                Ok(d) => {
                    &&& worker_count >= 1
                    &&& d.wf()
                    &&& d@ == DispatchState::init(
                        problem_of(token, candidates@),
                        worker_count as nat,
                    )
                },
                Err(e) => worker_count == 0 && e == ConfigError::ZeroWorkers,
            },
    {
        if worker_count == 0 {
            return Err(ConfigError::ZeroWorkers);
        }
        let d = Dispatcher {
            candidates,
            signing_input: token.signing_input(),
            signature: Ghost(token.signature@),
            worker_count,
            started: false,
            cursor: 0,
            slots: Vec::new(),
            found: None,
            live: 0,
        };
        proof {
            assert(d@.workers =~= Seq::<WorkerState>::empty());
            DispatchState::lemma_init_inv(problem_of(token, candidates@), worker_count as nat);
        }
        Ok(d)
    }
}

impl Dispatcher {
    /// Starts the pool: every worker is ready. Starting twice changes
    /// nothing.
    pub fn start(&mut self)
        requires
            old(self).wf(),
        ensures
            final(self).wf(),
            final(self)@ == old(self)@.start(),
    {
        if self.started {
            return ;
        }
        let mut slots: Vec<Slot> = Vec::new();
        let mut w: usize = 0;
        while w < self.worker_count
            invariant
                w <= self.worker_count,
                slots@.len() == w,
                forall|v: int| 0 <= v < w ==> slots@[v] == Slot::Ready,
            decreases self.worker_count - w,
        {
            slots.push(Slot::Ready);
            w = w + 1;
        }
        self.slots = slots;
        self.live = self.worker_count;
        self.started = true;
        proof {
            let fresh = Seq::new(old(self)@.worker_count, |w: int| WorkerState::Ready);
            assert(self@.workers =~= fresh);
            lemma_fresh_pool(old(self)@.worker_count);
            old(self)@.lemma_start_inv();
            assert(self@ == old(self)@.start());
        }
    }

    /// Worker `worker` asks for a candidate.
    ///
    /// Returns the next candidate of the stream where the worker is ready,
    /// no match was recorded and the stream is not dry. A ready worker that
    /// gets nothing has left the pool and must not pull again.
    pub fn pull(&mut self, worker: usize) -> (job: Option<Job>)
        requires
            old(self).wf(),
        ensures
            final(self).wf(),
            final(self)@ == old(self)@.pull(worker as int),
            match job {
                Some(j) => {
                    &&& old(self)@.can_dispatch(worker as int)
                    &&& j.index == old(self)@.cursor
                    &&& j.secret@ == old(self)@.problem.candidates[j.index as int]
                },
                None => !old(self)@.can_dispatch(worker as int),
            },
    {
        proof {
            old(self)@.lemma_pull_inv(worker as int);
        }
        if worker >= self.slots.len() {
            return None;
        }
        match self.slots[worker] {
            Slot::Ready => {},
            _ => {
                return None;
            },
        }
        assert(old(self)@.is_ready(worker as int));
        if self.found.is_none() && self.cursor < self.candidates.len() {
            let index: usize = self.cursor;
            let secret = self.candidates[index].clone();
            self.slots[worker] = Slot::Busy(index);
            self.cursor = index + 1;
            proof {
                let busy = WorkerState::Busy(index as int);
                assert(self@.workers =~= old(self)@.workers.update(worker as int, busy));
                lemma_live_update(old(self)@.workers, worker as int, busy);
                lemma_one_worker(WorkerState::Ready);
                lemma_one_worker(busy);
                assert(self@ == old(self)@.pull(worker as int));
            }
            Some(Job { index, secret })
        } else {
            self.slots[worker] = Slot::Exited;
            proof {
                assert(self@.workers =~= old(self)@.workers.update(
                    worker as int,
                    WorkerState::Exited,
                ));
                lemma_live_update(old(self)@.workers, worker as int, WorkerState::Exited);
                lemma_one_worker(WorkerState::Ready);
                lemma_one_worker(WorkerState::Exited);
                lemma_live_zero(old(self)@.workers);
                assert(self@ == old(self)@.pull(worker as int));
            }
            self.live = self.live - 1;
            None
        }
    }

    /// Worker `worker` reports the verifier's verdict on the candidate that
    /// it holds.
    ///
    /// The first positive verdict is recorded and stops the stream; a later
    /// one is dropped. The verdict must be the verifier's: `matched` is
    /// what `check_signature` returned for the job's secret.
    pub fn report(&mut self, worker: usize, matched: bool)
        requires
            old(self).wf(),
            old(self)@.truthful(Event::Report(worker as int, matched)),
        ensures
            final(self).wf(),
            final(self)@ == old(self)@.report(worker as int, matched),
    {
        proof {
            old(self)@.lemma_report_inv(worker as int, matched);
        }
        if worker >= self.slots.len() {
            return ;
        }
        let index: usize = match self.slots[worker] {
            Slot::Busy(index) => index,
            _ => {
                return ;
            },
        };
        assert(old(self)@.holds(worker as int) == Some(index as int));
        self.slots[worker] = Slot::Ready;
        if matched && self.found.is_none() {
            self.found = Some(index);
        }
        proof {
            assert(self@.workers =~= old(self)@.workers.update(worker as int, WorkerState::Ready));
            lemma_live_update(old(self)@.workers, worker as int, WorkerState::Ready);
            lemma_one_worker(WorkerState::Ready);
            lemma_one_worker(WorkerState::Busy(index as int));
            assert(self@ == old(self)@.report(worker as int, matched));
        }
    }

    proof fn lemma_live_is_drained(&self)
        requires
            self.wf(),
        ensures
            self.live == 0 <==> self@.drained(),
    {
        let state = self@;
        lemma_live_zero(state.workers);
        if live(state.workers) == 0 {
            assert forall|w: int| state.is_worker(w) implies state.workers[w] is Exited by {}
        } else if state.drained() {
            assert forall|w: int| 0 <= w < state.workers.len() implies state.workers[w]
                is Exited by {
                assert(state.is_worker(w));
            }
        }
    }

    /// Where the run stands.
    pub fn phase(&self) -> (phase: Phase)
        requires
            self.wf(),
        ensures
            phase == self@.phase(),
    {
        proof {
            self.lemma_live_is_drained();
        }
        if !self.started {
            Phase::Idle
        } else if self.found.is_some() {
            Phase::Found
        } else if self.live == 0 {
            Phase::Exhausted
        } else {
            Phase::Running
        }
    }

    /// Whether every worker of a started pool has left.
    pub fn is_drained(&self) -> (drained: bool)
        requires
            self.wf(),
        ensures
            drained == (self@.started && self@.drained()),
    {
        proof {
            self.lemma_live_is_drained();
        }
        self.started && self.live == 0
    }

    /// The recorded match: its place in the stream and its text.
    pub fn found(&self) -> (found: Option<Job>)
        requires
            self.wf(),
        ensures
            match found {
                Some(j) => {
                    &&& self@.found == Some(j.index as int)
                    &&& self@.problem.accepts(j.index as int)
                    &&& j.secret@ == self@.problem.candidates[j.index as int]
                },
                None => self@.found is None,
            },
    {
        match self.found {
            Some(index) => Some(Job { index, secret: self.candidates[index].clone() }),
            None => None,
        }
    }

    /// The outcome of the run, once it has one: the recorded match with
    /// the signing input, or exhaustion. `None` while the pool is idle or
    /// running.
    pub fn outcome(&self) -> (outcome: Option<Outcome>)
        requires
            self.wf(),
        ensures
            match outcome {
                Some(Outcome::Found { secret, signing_input }) => {
                    &&& self@.phase() == Phase::Found
                    &&& self@.found is Some
                    &&& self@.problem.accepts(self@.found->0)
                    &&& secret@ == self@.problem.candidates[self@.found->0]
                    &&& signing_input@ == self@.problem.signing_input
                },
                Some(Outcome::Exhausted) => self@.phase() == Phase::Exhausted,
                None => self@.phase() == Phase::Idle || self@.phase() == Phase::Running,
            },
    {
        match self.found() {
            Some(job) => Some(
                Outcome::Found { secret: job.secret, signing_input: self.signing_input.clone() },
            ),
            None => if self.is_drained() {
                Some(Outcome::Exhausted)
            } else {
                None
            },
        }
    }

    /// How many candidates have been handed out.
    pub fn dispatched(&self) -> (count: usize)
        ensures
            count == self@.cursor,
    {
        self.cursor
    }

    /// The size of the pool.
    pub fn worker_count(&self) -> (count: usize)
        ensures
            count == self@.worker_count,
    {
        self.worker_count
    }
}

/// One worker alone is live unless it has left.
proof fn lemma_one_worker(state: WorkerState)
    ensures
        live(seq![state]) == if state is Exited {
            0nat
        } else {
            1nat
        },
{
    assert(seq![state].drop_last() =~= Seq::<WorkerState>::empty());
    assert(live(seq![state].drop_last()) == 0);
}

} // verus!
