//! The candidate dispatcher as a mathematical state machine.
//!
//! A fixed pool of workers pulls candidates from one shared stream. A
//! worker that holds a candidate reports the verifier's verdict on it; the
//! first positive verdict is recorded and stops the stream. Workers leave
//! when a pull finds the stream dry or stopped.
//!
//! Nothing here says in which order the workers move: the laws of this
//! module hold after every sequence of events.
use crate::mac::signature_matches;
use vstd::prelude::*;
use vstd::utf8::encode_utf8;

verus! {

/// What is searched: the candidate secrets in stream order, and the token's
/// signing input and signature.
pub struct Problem {
    pub candidates: Seq<Seq<char>>,
    pub signing_input: Seq<char>,
    pub signature: Seq<u8>,
}

impl Problem {
    /// Candidate `i` exists and signs the signing input to the signature.
    pub open spec fn accepts(self, i: int) -> bool {
        &&& 0 <= i < self.candidates.len()
        &&& signature_matches(
            encode_utf8(self.candidates[i]),
            encode_utf8(self.signing_input),
            self.signature,
        )
    }

    /// Some candidate is the secret.
    pub open spec fn has_match(self) -> bool {
        exists|i: int| self.accepts(i)
    }

    /// Candidate `i` is the secret and no earlier candidate is.
    pub open spec fn is_first_match(self, i: int) -> bool {
        &&& self.accepts(i)
        &&& forall|j: int| 0 <= j < i ==> !self.accepts(j)
    }

    /// The index of the first secret in the stream, where there is one.
    pub open spec fn first_match(self) -> int {
        choose|i: int| self.is_first_match(i)
    }

    /// Two first matches are one.
    pub proof fn lemma_first_match_unique(self, i: int, j: int)
        requires
            self.is_first_match(i),
            self.is_first_match(j),
        ensures
            i == j,
    {
        if i < j {
            assert(!self.accepts(i));
        } else if j < i {
            assert(!self.accepts(j));
        }
    }

    /// A stream that holds a secret has a first one.
    pub proof fn lemma_first_match_exists(self)
        requires
            self.has_match(),
        ensures
            self.is_first_match(self.first_match()),
    {
        let i = choose|i: int| self.accepts(i);
        self.lemma_first_match_up_to(i);
    }

    proof fn lemma_first_match_up_to(self, bound: int)
        requires
            0 <= bound,
            exists|i: int| 0 <= i <= bound && self.accepts(i),
        ensures
            exists|i: int| self.is_first_match(i),
        decreases bound,
    {
        if exists|i: int| 0 <= i < bound && self.accepts(i) {
            let i = choose|i: int| 0 <= i < bound && self.accepts(i);
            assert(0 <= i <= bound - 1 && self.accepts(i));
            self.lemma_first_match_up_to(bound - 1);
        } else {
            assert(self.is_first_match(bound));
        }
    }
}

/// What one worker is doing.
pub enum WorkerState {
    /// Between candidates: its next move is a pull.
    Ready,
    /// Holding the candidate of this index: its next move is a report.
    Busy(int),
    /// Gone, after a pull that found nothing to hand out.
    Exited,
}

/// Where a run stands.
#[derive(Clone, Copy, Debug, PartialEq, Eq, Structural)]
pub enum Phase {
    /// No worker has been started.
    Idle,
    /// Workers are pulling and no verdict was positive so far.
    Running,
    /// A positive verdict was recorded. Terminal.
    Found,
    /// Every worker has left and no verdict was positive. Terminal.
    Exhausted,
}

/// One move of the pool.
pub enum Event {
    /// The pool is started.
    Start,
    /// The worker of this number asks for a candidate.
    Pull(int),
    /// The worker of this number reports the verdict on what it holds.
    Report(int, bool),
}

/// The dispatcher's state.
pub struct DispatchState {
    pub problem: Problem,
    pub worker_count: nat,
    pub started: bool,
    /// How many candidates have been handed out: the index of the next one.
    pub cursor: int,
    pub workers: Seq<WorkerState>,
    /// The index of the authoritative match, once one was reported.
    pub found: Option<int>,
}

impl DispatchState {
    /// The state before the pool is started.
    pub open spec fn init(problem: Problem, worker_count: nat) -> DispatchState {
        DispatchState {
            problem,
            worker_count,
            started: false,
            cursor: 0,
            workers: Seq::<WorkerState>::empty(),
            found: None,
        }
    }

    pub open spec fn is_worker(self, w: int) -> bool {
        0 <= w < self.workers.len()
    }

    pub open spec fn is_ready(self, w: int) -> bool {
        self.is_worker(w) && self.workers[w] is Ready
    }

    /// The index that worker `w` holds, if it holds one.
    pub open spec fn holds(self, w: int) -> Option<int> {
        if self.is_worker(w) {
            match self.workers[w] {
                WorkerState::Busy(i) => Some(i),
                _ => None,
            }
        } else {
            None
        }
    }

    /// Some worker holds candidate `i`.
    pub open spec fn in_flight(self, i: int) -> bool {
        exists|w: int| self.is_worker(w) && self.workers[w] == WorkerState::Busy(i)
    }

    /// Every worker has left.
    pub open spec fn drained(self) -> bool {
        forall|w: int| self.is_worker(w) ==> self.workers[w] is Exited
    }

    pub open spec fn phase(self) -> Phase {
        if !self.started {
            Phase::Idle
        } else if self.found is Some {
            Phase::Found
        } else if self.drained() {
            Phase::Exhausted
        } else {
            Phase::Running
        }
    }

    /// A pull by `w` would hand out a candidate: `w` is ready, no match was
    /// recorded and the stream is not dry.
    pub open spec fn can_dispatch(self, w: int) -> bool {
        &&& self.is_ready(w)
        &&& self.found is None
        &&& self.cursor < self.problem.candidates.len()
    }

    /// Starts the pool: `worker_count` workers, all ready. No effect on a
    /// pool that was started before.
    pub open spec fn start(self) -> DispatchState {
        if self.started {
            self
        } else {
            DispatchState {
                started: true,
                workers: Seq::new(self.worker_count, |w: int| WorkerState::Ready),
                ..self
            }
        }
    }

    /// Worker `w` pulls. It gets the next candidate where one can be
    /// dispatched; a ready worker that gets none leaves. A pull by anything
    /// but a ready worker changes nothing.
    pub open spec fn pull(self, w: int) -> DispatchState {
        if self.can_dispatch(w) {
            DispatchState {
                workers: self.workers.update(w, WorkerState::Busy(self.cursor)),
                cursor: self.cursor + 1,
                ..self
            }
        } else if self.is_ready(w) {
            DispatchState { workers: self.workers.update(w, WorkerState::Exited), ..self }
        } else {
            self
        }
    }

    /// Worker `w` reports `matched` for the candidate it holds and becomes
    /// ready again. A positive verdict is recorded unless one was recorded
    /// before. A report by a worker that holds nothing changes nothing.
    pub open spec fn report(self, w: int, matched: bool) -> DispatchState {
        match self.holds(w) {
            Some(i) => DispatchState {
                workers: self.workers.update(w, WorkerState::Ready),
                found: if matched && self.found is None {
                    Some(i)
                } else {
                    self.found
                },
                ..self
            },
            None => self,
        }
    }

    pub open spec fn step(self, event: Event) -> DispatchState {
        match event {
            Event::Start => self.start(),
            Event::Pull(w) => self.pull(w),
            Event::Report(w, matched) => self.report(w, matched),
        }
    }

    /// A report is truthful when its verdict is the verifier's verdict on
    /// the candidate that the worker holds. Other events are always so.
    pub open spec fn truthful(self, event: Event) -> bool {
        match event {
            Event::Report(w, matched) => match self.holds(w) {
                Some(i) => matched == self.problem.accepts(i),
                None => true,
            },
            _ => true,
        }
    }

    /// What holds of every state that truthful events can reach.
    pub open spec fn inv(self) -> bool {
        &&& self.worker_count >= 1
        &&& 0 <= self.cursor <= self.problem.candidates.len()
        &&& !self.started ==> self.workers.len() == 0 && self.cursor == 0 && self.found is None
        &&& self.started ==> self.workers.len() == self.worker_count
        // a worker holds only what was handed out
        &&& forall|w: int|
            self.is_worker(w) ==> (#[trigger] self.workers[w] matches WorkerState::Busy(i) ==> 0
                <= i < self.cursor)
        // no candidate is held by two workers
        &&& forall|v: int, w: int|
            self.is_worker(v) && self.is_worker(w) && v != w && #[trigger] self.workers[v]
                is Busy ==> self.workers[v] != #[trigger] self.workers[w]
        // the recorded match is a secret
        &&& self.found matches Some(i) ==> 0 <= i < self.cursor && self.problem.accepts(i)
        // until a match is recorded, every verdict given was negative
        &&& self.found is None ==> forall|i: int|
            0 <= i < self.cursor && !self.in_flight(i) ==> !#[trigger] self.problem.accepts(i)
        // a worker leaves only when the stream is dry or stopped
        &&& forall|w: int|
            self.is_worker(w) && #[trigger] self.workers[w] is Exited ==> self.cursor
                == self.problem.candidates.len() || self.found is Some
    }
}

impl DispatchState {
    /// A pool of at least one worker starts out within the invariant.
    pub proof fn lemma_init_inv(problem: Problem, worker_count: nat)
        requires
            worker_count >= 1,
        ensures
            Self::init(problem, worker_count).inv(),
            Self::init(problem, worker_count).phase() == Phase::Idle,
    {
    }

    /// Starting keeps the invariant.
    pub proof fn lemma_start_inv(self)
        requires
            self.inv(),
        ensures
            self.start().inv(),
            self.start().started,
    {
    }

    /// A pull keeps the invariant, whoever pulls.
    pub proof fn lemma_pull_inv(self, w: int)
        requires
            self.inv(),
        ensures
            self.pull(w).inv(),
    {
        let next = self.pull(w);
        if self.can_dispatch(w) {
            assert forall|v: int, u: int|
                next.is_worker(v) && next.is_worker(u) && v != u && #[trigger] next.workers[v]
                    is Busy implies next.workers[v] != #[trigger] next.workers[u] by {
                if v != w && u != w {
                    assert(self.workers[v] != self.workers[u]);
                }
            }
            assert forall|i: int| 0 <= i < next.cursor && !next.in_flight(i) implies !#[trigger]
                next.problem.accepts(i) by {
                if i == self.cursor {
                    assert(next.is_worker(w) && next.workers[w] == WorkerState::Busy(i));
                } else if self.in_flight(i) {
                    let v = choose|v: int|
                        self.is_worker(v) && self.workers[v] == WorkerState::Busy(i);
                    assert(next.is_worker(v) && next.workers[v] == WorkerState::Busy(i));
                }
            }
        } else if self.is_ready(w) {
            if self.found is None {
                assert forall|i: int| 0 <= i < next.cursor && !next.in_flight(i) implies !#[trigger]
                    next.problem.accepts(i) by {
                    if self.in_flight(i) {
                        let v = choose|v: int|
                            self.is_worker(v) && self.workers[v] == WorkerState::Busy(i);
                        assert(next.is_worker(v) && next.workers[v] == WorkerState::Busy(i));
                    }
                }
            }
        }
    }

    /// A truthful report keeps the invariant.
    pub proof fn lemma_report_inv(self, w: int, matched: bool)
        requires
            self.inv(),
            self.truthful(Event::Report(w, matched)),
        ensures
            self.report(w, matched).inv(),
    {
        let next = self.report(w, matched);
        if let Some(held) = self.holds(w) {
            if next.found is None {
                assert forall|i: int| 0 <= i < next.cursor && !next.in_flight(i) implies !#[trigger]
                    next.problem.accepts(i) by {
                    if i != held && self.in_flight(i) {
                        let v = choose|v: int|
                            self.is_worker(v) && self.workers[v] == WorkerState::Busy(i);
                        assert(self.workers[v] != self.workers[w]);
                        assert(next.is_worker(v) && next.workers[v] == WorkerState::Busy(i));
                    }
                }
            }
        }
    }

    /// Every truthful event keeps the invariant.
    pub proof fn lemma_step_inv(self, event: Event)
        requires
            self.inv(),
            self.truthful(event),
        ensures
            self.step(event).inv(),
    {
        match event {
            Event::Start => self.lemma_start_inv(),
            Event::Pull(w) => self.lemma_pull_inv(w),
            Event::Report(w, matched) => self.lemma_report_inv(w, matched),
        }
    }

    /// At most one match is ever recorded: no event changes a recorded
    /// match, truthful or not.
    pub proof fn lemma_found_is_final(self, event: Event)
        requires
            self.found is Some,
        ensures
            self.step(event).found == self.found,
    {
    }

    /// No event touches the problem or the size of the pool.
    pub proof fn lemma_step_keeps_problem(self, event: Event)
        ensures
            self.step(event).problem == self.problem,
            self.step(event).worker_count == self.worker_count,
    {
    }
}

/// The work that the workers in `workers` still owe: a busy worker owes a
/// report and a last pull, a ready worker its last pull.
pub open spec fn load(workers: Seq<WorkerState>) -> nat
    decreases workers.len(),
{
    if workers.len() == 0 {
        0
    } else {
        load(workers.drop_last()) + match workers.last() {
            WorkerState::Ready => 1nat,
            WorkerState::Busy(_) => 2nat,
            WorkerState::Exited => 0nat,
        }
    }
}

/// How many of `workers` have not left.
pub open spec fn live(workers: Seq<WorkerState>) -> nat
    decreases workers.len(),
{
    if workers.len() == 0 {
        0
    } else {
        live(workers.drop_last()) + if workers.last() is Exited {
            0nat
        } else {
            1nat
        }
    }
}

/// Changing one worker changes the load by the difference of the two
/// states' loads.
pub proof fn lemma_load_update(workers: Seq<WorkerState>, w: int, state: WorkerState)
    requires
        0 <= w < workers.len(),
    ensures
        load(workers.update(w, state)) + load(seq![workers[w]]) == load(workers) + load(
            seq![state],
        ),
    decreases workers.len(),
{
    let changed = workers.update(w, state);
    assert(seq![workers[w]].drop_last() =~= Seq::<WorkerState>::empty());
    assert(seq![state].drop_last() =~= Seq::<WorkerState>::empty());
    assert(load(seq![workers[w]].drop_last()) == 0);
    assert(load(seq![state].drop_last()) == 0);
    if w == workers.len() - 1 {
        assert(changed.drop_last() =~= workers.drop_last());
    } else {
        assert(changed.drop_last() =~= workers.drop_last().update(w, state));
        lemma_load_update(workers.drop_last(), w, state);
    }
}

/// Changing one worker changes the number of live workers by the
/// difference of the two states' counts.
pub proof fn lemma_live_update(workers: Seq<WorkerState>, w: int, state: WorkerState)
    requires
        0 <= w < workers.len(),
    ensures
        live(workers.update(w, state)) + live(seq![workers[w]]) == live(workers) + live(
            seq![state],
        ),
    decreases workers.len(),
{
    let changed = workers.update(w, state);
    assert(seq![workers[w]].drop_last() =~= Seq::<WorkerState>::empty());
    assert(seq![state].drop_last() =~= Seq::<WorkerState>::empty());
    assert(live(seq![workers[w]].drop_last()) == 0);
    assert(live(seq![state].drop_last()) == 0);
    if w == workers.len() - 1 {
        assert(changed.drop_last() =~= workers.drop_last());
    } else {
        assert(changed.drop_last() =~= workers.drop_last().update(w, state));
        lemma_live_update(workers.drop_last(), w, state);
    }
}

/// No worker is live exactly when every worker has left.
pub proof fn lemma_live_zero(workers: Seq<WorkerState>)
    ensures
        live(workers) == 0 <==> forall|w: int| 0 <= w < workers.len() ==> workers[w] is Exited,
        live(workers) <= workers.len(),
    decreases workers.len(),
{
    if workers.len() > 0 {
        let front = workers.drop_last();
        lemma_live_zero(front);
        if live(workers) == 0 {
            assert forall|w: int| 0 <= w < workers.len() implies workers[w] is Exited by {
                if w < front.len() {
                    assert(front[w] is Exited);
                }
            }
        } else if forall|w: int| 0 <= w < workers.len() ==> workers[w] is Exited {
            assert forall|w: int| 0 <= w < front.len() implies front[w] is Exited by {
                assert(workers[w] is Exited);
            }
        }
    }
}

/// A pool of fresh workers is all live, and each owes one pull.
pub proof fn lemma_fresh_pool(count: nat)
    ensures
        live(Seq::new(count, |w: int| WorkerState::Ready)) == count,
        load(Seq::new(count, |w: int| WorkerState::Ready)) == count,
    decreases count,
{
    if count > 0 {
        let pool = Seq::new(count, |w: int| WorkerState::Ready);
        let front = Seq::new((count - 1) as nat, |w: int| WorkerState::Ready);
        assert(pool.drop_last() =~= front);
        lemma_fresh_pool((count - 1) as nat);
    }
}

impl DispatchState {
    /// The state after `events`, in order.
    pub open spec fn run(self, events: Seq<Event>) -> DispatchState
        decreases events.len(),
    {
        if events.len() == 0 {
            self
        } else {
            self.run(events.drop_last()).step(events.last())
        }
    }

    /// Every event of `events` is truthful in the state in which it happens.
    pub open spec fn honest(self, events: Seq<Event>) -> bool
        decreases events.len(),
    {
        events.len() == 0 || (self.honest(events.drop_last()) && self.run(
            events.drop_last(),
        ).truthful(events.last()))
    }

    /// The invariant holds after every honest sequence of events, and the
    /// problem and the size of the pool are what they were.
    pub proof fn lemma_run_inv(self, events: Seq<Event>)
        requires
            self.inv(),
            self.honest(events),
        ensures
            self.run(events).inv(),
            self.run(events).problem == self.problem,
            self.run(events).worker_count == self.worker_count,
        decreases events.len(),
    {
        if events.len() > 0 {
            self.lemma_run_inv(events.drop_last());
            self.run(events.drop_last()).lemma_step_inv(events.last());
        }
    }

    /// A recorded match is a secret of the token.
    pub proof fn lemma_found_is_secret(self)
        requires
            self.inv(),
            self.phase() == Phase::Found,
        ensures
            self.found is Some,
            self.problem.accepts(self.found->0),
    {
    }

    /// In the exhausted state every candidate was handed out, none is
    /// still held, and none is a secret.
    pub proof fn lemma_exhausted_is_complete(self)
        requires
            self.inv(),
            self.phase() == Phase::Exhausted,
        ensures
            self.cursor == self.problem.candidates.len(),
            forall|i: int| !self.in_flight(i),
            !self.problem.has_match(),
    {
        assert(self.started && self.drained());
        assert(self.is_worker(0));
        assert(self.workers[0] is Exited);
        assert forall|i: int| !self.in_flight(i) by {
            if self.in_flight(i) {
                let w = choose|w: int| self.is_worker(w) && self.workers[w] == WorkerState::Busy(i);
                assert(self.workers[w] is Exited);
            }
        }
        assert forall|i: int| !self.problem.accepts(i) by {
            if 0 <= i < self.cursor {
                assert(!self.in_flight(i));
            }
        }
    }

    /// Once every worker has left, the run has ended in `Found` if some
    /// candidate is a secret, and in `Exhausted` if none is.
    pub proof fn lemma_drained_outcome(self)
        requires
            self.inv(),
            self.started,
            self.drained(),
        ensures
            self.problem.has_match() ==> self.phase() == Phase::Found,
            !self.problem.has_match() ==> self.phase() == Phase::Exhausted,
    {
        if self.found is None {
            self.lemma_exhausted_is_complete();
        } else {
            assert(self.problem.accepts(self.found->0));
        }
    }

    /// The run has its outcome: a match is recorded, or every worker has
    /// left without one.
    pub open spec fn finished(self) -> bool {
        self.phase() == Phase::Found || self.phase() == Phase::Exhausted
    }

    /// Where exactly one candidate is the secret, a finished run reports
    /// that candidate.
    pub proof fn lemma_single_secret(self, secret: int)
        requires
            self.inv(),
            self.finished(),
            self.problem.accepts(secret),
            forall|i: int| self.problem.accepts(i) ==> i == secret,
        ensures
            self.phase() == Phase::Found,
            self.found == Some(secret),
    {
        if self.phase() == Phase::Exhausted {
            self.lemma_exhausted_is_complete();
        }
    }

    /// The outcome does not depend on the size of the pool, nor on the order
    /// in which the workers move: with exactly one secret among the
    /// candidates, any two honest runs that have finished report it.
    pub proof fn lemma_single_secret_any_pool(
        problem: Problem,
        secret: int,
        first_count: nat,
        first_events: Seq<Event>,
        second_count: nat,
        second_events: Seq<Event>,
    )
        requires
            first_count >= 1,
            second_count >= 1,
            problem.accepts(secret),
            forall|i: int| problem.accepts(i) ==> i == secret,
            Self::init(problem, first_count).honest(first_events),
            Self::init(problem, second_count).honest(second_events),
            Self::init(problem, first_count).run(first_events).finished(),
            Self::init(problem, second_count).run(second_events).finished(),
        ensures
            Self::init(problem, first_count).run(first_events).found == Some(secret),
            Self::init(problem, second_count).run(second_events).found == Some(secret),
            Self::init(problem, first_count).run(first_events).phase() == Phase::Found,
            Self::init(problem, second_count).run(second_events).phase() == Phase::Found,
    {
        Self::lemma_init_inv(problem, first_count);
        Self::lemma_init_inv(problem, second_count);
        Self::init(problem, first_count).lemma_run_inv(first_events);
        Self::init(problem, second_count).lemma_run_inv(second_events);
        Self::init(problem, first_count).run(first_events).lemma_single_secret(secret);
        Self::init(problem, second_count).run(second_events).lemma_single_secret(secret);
    }

    /// Without a secret among the candidates, every honest run that has
    /// finished is exhausted, whatever the size of the pool: every candidate
    /// was handed out exactly once, none is still held, and no match is
    /// recorded.
    pub proof fn lemma_no_secret_any_pool(problem: Problem, count: nat, events: Seq<Event>)
        requires
            count >= 1,
            !problem.has_match(),
            Self::init(problem, count).honest(events),
            Self::init(problem, count).run(events).finished(),
        ensures
            Self::init(problem, count).run(events).phase() == Phase::Exhausted,
            Self::init(problem, count).run(events).cursor == problem.candidates.len(),
            forall|i: int| !Self::init(problem, count).run(events).in_flight(i),
            Self::init(problem, count).run(events).found is None,
            Self::init(problem, count).deliveries(events) == Seq::new(
                problem.candidates.len(),
                |k: int| k,
            ),
    {
        Self::lemma_init_inv(problem, count);
        let end = Self::init(problem, count).run(events);
        Self::init(problem, count).lemma_deliveries_in_order(events);
        assert(Seq::new(problem.candidates.len(), |k: int| 0 + k) =~= Seq::new(
            problem.candidates.len(),
            |k: int| k,
        ));
        Self::init(problem, count).lemma_run_inv(events);
        if end.phase() == Phase::Found {
            end.lemma_found_is_secret();
        }
        end.lemma_exhausted_is_complete();
    }

    /// The candidates handed out in the course of `events`, by index, in
    /// the order of the pulls that got them.
    pub open spec fn deliveries(self, events: Seq<Event>) -> Seq<int>
        decreases events.len(),
    {
        if events.len() == 0 {
            Seq::<int>::empty()
        } else {
            let before = self.run(events.drop_last());
            let earlier = self.deliveries(events.drop_last());
            match events.last() {
                Event::Pull(w) => if before.can_dispatch(w) {
                    earlier.push(before.cursor)
                } else {
                    earlier
                },
                _ => earlier,
            }
        }
    }

    /// Whatever the workers do, the candidates go out in stream order, each
    /// exactly once: the deliveries of a run are the indices from the
    /// cursor it started at up to the cursor it ended at.
    pub proof fn lemma_deliveries_in_order(self, events: Seq<Event>)
        ensures
            self.cursor <= self.run(events).cursor,
            self.deliveries(events) == Seq::new(
                (self.run(events).cursor - self.cursor) as nat,
                |k: int| self.cursor + k,
            ),
        decreases events.len(),
    {
        if events.len() == 0 {
            assert(self.deliveries(events) =~= Seq::new(0nat, |k: int| self.cursor + k));
        } else {
            self.lemma_deliveries_in_order(events.drop_last());
            let before = self.run(events.drop_last());
            let after = self.run(events);
            assert(self.deliveries(events) =~= Seq::new(
                (after.cursor - self.cursor) as nat,
                |k: int| self.cursor + k,
            ));
        }
    }

    /// The exhausted state is final: no event changes it.
    pub proof fn lemma_exhausted_is_final(self, event: Event)
        requires
            self.inv(),
            self.phase() == Phase::Exhausted,
        ensures
            self.step(event) == self,
    {
        match event {
            Event::Start => {},
            Event::Pull(w) => {
                if self.is_worker(w) {
                    assert(self.workers[w] is Exited);
                }
            },
            Event::Report(w, matched) => {
                if self.is_worker(w) {
                    assert(self.workers[w] is Exited);
                }
            },
        }
    }

    /// A dispatched candidate is the next of the stream, and no worker
    /// holds or has held it: each candidate goes to exactly one worker.
    pub proof fn lemma_dispatch_is_fresh(self, w: int)
        requires
            self.inv(),
            self.can_dispatch(w),
        ensures
            !self.in_flight(self.cursor),
            self.pull(w).holds(w) == Some(self.cursor),
            self.pull(w).cursor == self.cursor + 1,
            forall|v: int| v != w ==> self.pull(w).holds(v) == self.holds(v),
    {
        if self.in_flight(self.cursor) {
            let v = choose|v: int|
                self.is_worker(v) && self.workers[v] == WorkerState::Busy(self.cursor);
            assert(self.workers[v] matches WorkerState::Busy(i) && i < self.cursor);
        }
    }
}

impl DispatchState {
    /// An upper bound on the moves that are still to come: two for each
    /// candidate not yet handed out, and what the workers owe.
    pub open spec fn fuel(self) -> int {
        2 * (self.problem.candidates.len() - self.cursor) + load(self.workers)
    }

    /// Every pull or report that changes the state burns fuel, so a started
    /// pool ends after at most `fuel()` effective moves, in any order.
    pub proof fn lemma_move_burns_fuel(self, event: Event)
        requires
            self.inv(),
            !(event is Start),
            self.step(event) != self,
        ensures
            0 <= self.step(event).fuel() < self.fuel(),
    {
        let next = self.step(event);
        assert(load(seq![WorkerState::Ready]) == 1 && load(seq![WorkerState::Exited]) == 0) by {
            assert(seq![WorkerState::Ready].drop_last() =~= Seq::<WorkerState>::empty());
            assert(seq![WorkerState::Exited].drop_last() =~= Seq::<WorkerState>::empty());
            assert(load(seq![WorkerState::Ready].drop_last()) == 0);
            assert(load(seq![WorkerState::Exited].drop_last()) == 0);
        }
        match event {
            Event::Start => {},
            Event::Pull(w) => {
                if self.can_dispatch(w) {
                    let busy = WorkerState::Busy(self.cursor);
                    assert(load(seq![busy]) == 2) by {
                        assert(seq![busy].drop_last() =~= Seq::<WorkerState>::empty());
                        assert(load(seq![busy].drop_last()) == 0);
                    }
                    lemma_load_update(self.workers, w, busy);
                } else {
                    lemma_load_update(self.workers, w, WorkerState::Exited);
                }
            },
            Event::Report(w, matched) => {
                let held = self.workers[w];
                assert(load(seq![held]) == 2) by {
                    assert(seq![held].drop_last() =~= Seq::<WorkerState>::empty());
                    assert(load(seq![held].drop_last()) == 0);
                }
                lemma_load_update(self.workers, w, WorkerState::Ready);
            },
        }
    }

    /// A started pool is never stuck: while a worker is left, some truthful
    /// event changes the state.
    pub proof fn lemma_never_stuck(self) -> (event: Event)
        requires
            self.inv(),
            self.started,
            !self.drained(),
        ensures
            !(event is Start),
            self.truthful(event),
            self.step(event) != self,
    {
        let w = choose|w: int| self.is_worker(w) && !(self.workers[w] is Exited);
        match self.workers[w] {
            WorkerState::Busy(i) => {
                let event = Event::Report(w, self.problem.accepts(i));
                assert(self.step(event).workers[w] is Ready);
                event
            },
            _ => {
                let event = Event::Pull(w);
                assert(!(self.step(event).workers[w] is Ready));
                event
            },
        }
    }
}

/// Whether a secret is among the candidates does not depend on their
/// order: two streams with the same candidates, each as often in one as in
/// the other, both hold a secret or neither does.
pub proof fn lemma_match_survives_reordering(first: Problem, second: Problem)
    requires
        first.signing_input == second.signing_input,
        first.signature == second.signature,
        first.candidates.to_multiset() == second.candidates.to_multiset(),
    ensures
        first.has_match() == second.has_match(),
{
    lemma_match_carries_over(first, second);
    lemma_match_carries_over(second, first);
}

proof fn lemma_match_carries_over(first: Problem, second: Problem)
    requires
        first.signing_input == second.signing_input,
        first.signature == second.signature,
        first.candidates.to_multiset() == second.candidates.to_multiset(),
    ensures
        first.has_match() ==> second.has_match(),
{
    if first.has_match() {
        let i = choose|i: int| first.accepts(i);
        let secret = first.candidates[i];
        first.candidates.to_multiset_ensures();
        second.candidates.to_multiset_ensures();
        assert(first.candidates.contains(secret));
        assert(first.candidates.to_multiset().count(secret) > 0);
        assert(second.candidates.to_multiset().count(secret) > 0);
        assert(second.candidates.contains(secret));
        let j = choose|j: int| 0 <= j < second.candidates.len() && second.candidates[j] == secret;
        assert(second.accepts(j));
    }
}

} // verus!
