//! A whole run on the calling thread: the pool's workers take turns, in
//! rounds. In each round every worker pulls once, then every worker that
//! got a candidate tests it and reports, in the order of the workers.
use crate::dispatcher::{problem_of, texts, Dispatcher, Job, Outcome};
use crate::encoding::url_safe_decoding;
use crate::error::ConfigError;
use crate::mac::check_signature;
use crate::machine::{lemma_match_survives_reordering, DispatchState, Event, Problem, WorkerState};
use crate::token::{parse_token, segments, token_error, Header, Token};
use vstd::prelude::*;
use vstd::string::StringSliceAdditionalSpecFns;

verus! {

/// `outcome` is the result of searching `problem` in stream order: the
/// first candidate that is a secret, or exhaustion where there is none.
pub open spec fn is_outcome_of(outcome: Outcome, problem: Problem) -> bool {
    match outcome {
        Outcome::Found { secret, signing_input } => {
            &&& problem.has_match()
            &&& secret@ == problem.candidates[problem.first_match()]
            &&& signing_input@ == problem.signing_input
        },
        Outcome::Exhausted => !problem.has_match(),
    }
}

/// From worker `from` on, `jobs` is what the workers hold; the workers
/// before it hold nothing.
spec fn dealt(state: DispatchState, jobs: Seq<Option<Job>>, from: int) -> bool {
    &&& jobs.len() == state.workers.len()
    &&& forall|w: int|
        from <= w < jobs.len() ==> match #[trigger] jobs[w] {
            Some(j) => {
                &&& state.workers[w] == WorkerState::Busy(j.index as int)
                &&& j.index < state.problem.candidates.len()
                &&& j.secret@ == state.problem.candidates[j.index as int]
            },
            None => !(state.workers[w] is Busy),
        }
    &&& forall|w: int| 0 <= w < from && w < jobs.len() ==> !(#[trigger] state.workers[w] is Busy)
}

/// Later workers hold later candidates.
spec fn ordered(jobs: Seq<Option<Job>>) -> bool {
    forall|u: int, v: int|
        0 <= u < v < jobs.len() && (#[trigger] jobs[u]) is Some && (#[trigger] jobs[v]) is Some
            ==> jobs[u]->0.index < jobs[v]->0.index
}

/// No worker holds a candidate.
spec fn idle(state: DispatchState) -> bool {
    forall|w: int| state.is_worker(w) ==> !(#[trigger] state.workers[w] is Busy)
}

/// Every worker pulls once, in order.
fn deal(d: &mut Dispatcher) -> (jobs: Vec<Option<Job>>)
    requires
        old(d).wf(),
        old(d)@.started,
        old(d)@.found is None,
        idle(old(d)@),
    ensures
        final(d).wf(),
        final(d)@.problem == old(d)@.problem,
        final(d)@.worker_count == old(d)@.worker_count,
        final(d)@.started,
        final(d)@.found is None,
        dealt(final(d)@, jobs@, 0),
        ordered(jobs@),
        final(d)@.fuel() <= old(d)@.fuel(),
        !old(d)@.drained() ==> final(d)@.fuel() < old(d)@.fuel(),
{
    let count: usize = d.worker_count();
    let mut jobs: Vec<Option<Job>> = Vec::new();
    let mut w: usize = 0;
    proof {
        d.lemma_wf_inv();
    }
    while w < count
        invariant
            w <= count,
            count == old(d)@.worker_count,
            d.wf(),
            d@.problem == old(d)@.problem,
            d@.worker_count == old(d)@.worker_count,
            d@.started,
            d@.found is None,
            d@.workers.len() == count,
            old(d)@.workers.len() == count,
            jobs@.len() == w,
            idle(old(d)@),
            forall|v: int| w <= v < count ==> #[trigger] d@.workers[v] == old(d)@.workers[v],
            forall|v: int|
                0 <= v < w ==> match #[trigger] jobs@[v] {
                    Some(j) => {
                        &&& d@.workers[v] == WorkerState::Busy(j.index as int)
                        &&& j.index < d@.cursor
                        &&& j.index < d@.problem.candidates.len()
                        &&& j.secret@ == d@.problem.candidates[j.index as int]
                    },
                    None => !(d@.workers[v] is Busy),
                },
            ordered(jobs@),
            d@.fuel() <= old(d)@.fuel(),
            forall|v: int|
                0 <= v < w && #[trigger] old(d)@.workers[v] is Ready ==> d@.fuel() < old(d)@.fuel(),
        decreases count - w,
    {
        let ghost before = d@;
        let ghost jobs_before = jobs@;
        proof {
            d.lemma_wf_inv();
        }
        let job = d.pull(w);
        proof {
            d.lemma_wf_inv();
            assert(d@ == before.step(Event::Pull(w as int)));
            if d@ != before {
                before.lemma_move_burns_fuel(Event::Pull(w as int));
            }
            assert(before.is_worker(w as int));
            if old(d)@.workers[w as int] is Ready {
                assert(before.workers[w as int] is Ready);
                assert(before.is_ready(w as int));
                assert(!(d@.workers[w as int] is Ready));
                assert(d@ != before);
            }
        }
        jobs.push(job);
        proof {
            assert forall|v: int| 0 <= v < w + 1 implies match #[trigger] jobs@[v] {
                Some(j) => {
                    &&& d@.workers[v] == WorkerState::Busy(j.index as int)
                    &&& j.index < d@.cursor
                    &&& j.index < d@.problem.candidates.len()
                    &&& j.secret@ == d@.problem.candidates[j.index as int]
                },
                None => !(d@.workers[v] is Busy),
            } by {
                if v < w {
                    assert(jobs@[v] == jobs_before[v]);
                    assert(d@.workers[v] == before.workers[v]);
                } else {
                    assert(!(old(d)@.workers[v] is Busy));
                }
            }
            assert forall|u: int, v: int|
                0 <= u < v < jobs@.len() && (#[trigger] jobs@[u]) is Some && (#[trigger] jobs@[v])
                    is Some implies jobs@[u]->0.index < jobs@[v]->0.index by {
                assert(jobs@[u] == jobs_before[u]);
                if v < w {
                    assert(jobs@[v] == jobs_before[v]);
                }
            }
        }
        w = w + 1;
    }
    proof {
        if !old(d)@.drained() {
            let v = choose|v: int| old(d)@.is_worker(v) && !(old(d)@.workers[v] is Exited);
            assert(!(old(d)@.workers[v] is Busy));
            assert(old(d)@.workers[v] is Ready);
        }
    }
    jobs
}

/// Every worker that holds a candidate tests it and reports, in order,
/// until a verdict is positive. Returns the candidate of that verdict.
fn settle(d: &mut Dispatcher, token: &Token, input: &str, jobs: &Vec<Option<Job>>) -> (hit: Option<
    Job,
>)
    requires
        old(d).wf(),
        old(d)@.started,
        old(d)@.found is None,
        old(d)@.problem.signing_input == token.signing_text(),
        old(d)@.problem.signature == token.signature@,
        input@ == token.signing_text(),
        dealt(old(d)@, jobs@, 0),
        ordered(jobs@),
    ensures
        final(d).wf(),
        final(d)@.problem == old(d)@.problem,
        final(d)@.worker_count == old(d)@.worker_count,
        final(d)@.started,
        final(d)@.fuel() <= old(d)@.fuel(),
        match hit {
            Some(j) => {
                &&& final(d)@.found == Some(j.index as int)
                &&& final(d)@.problem.is_first_match(j.index as int)
                &&& j.secret@ == final(d)@.problem.candidates[j.index as int]
            },
            None => final(d)@.found is None && idle(final(d)@),
        },
{
    let mut w: usize = 0;
    while w < jobs.len()
        invariant
            w <= jobs@.len(),
            d.wf(),
            d@.problem == old(d)@.problem,
            d@.worker_count == old(d)@.worker_count,
            d@.started,
            d@.found is None,
            d@.problem.signing_input == token.signing_text(),
            d@.problem.signature == token.signature@,
            input@ == token.signing_text(),
            dealt(d@, jobs@, w as int),
            ordered(jobs@),
            d@.fuel() <= old(d)@.fuel(),
        decreases jobs@.len() - w,
    {
        let ghost before = d@;
        proof {
            d.lemma_wf_inv();
        }
        match &jobs[w] {
            None => {},
            Some(job) => {
                let ghost held = job.index as int;
                let matched = check_signature(
                    job.secret.as_str(),
                    input.as_bytes(),
                    token.signature.as_slice(),
                );
                assert(before.holds(w as int) == Some(held));
                assert(matched == before.problem.accepts(held));
                proof {
                    // nothing below `held` is still held: it would sit with a
                    // later worker, whose candidate is a later one
                    assert forall|i: int| 0 <= i < held implies !before.in_flight(i) by {
                        if before.in_flight(i) {
                            let v = choose|v: int|
                                before.is_worker(v) && before.workers[v] == WorkerState::Busy(i);
                            if v < w {
                                assert(!(before.workers[v] is Busy));
                            } else {
                                assert(jobs@[v] is Some);
                                assert(jobs@[w as int] is Some);
                                assert(jobs@[v]->0.index == i);
                            }
                        }
                    }
                    assert forall|i: int| 0 <= i < held implies !before.problem.accepts(i) by {
                        assert(!before.in_flight(i));
                    }
                }
                d.report(w, matched);
                proof {
                    d.lemma_wf_inv();
                    assert(d@ == before.step(Event::Report(w as int, matched)));
                    if d@ != before {
                        before.lemma_move_burns_fuel(Event::Report(w as int, matched));
                    }
                }
                if matched {
                    return Some(Job { index: job.index, secret: job.secret.clone() });
                }
            },
        }
        proof {
            assert forall|v: int| w + 1 <= v < jobs@.len() implies match #[trigger] jobs@[v] {
                Some(j) => {
                    &&& d@.workers[v] == WorkerState::Busy(j.index as int)
                    &&& j.index < d@.problem.candidates.len()
                    &&& j.secret@ == d@.problem.candidates[j.index as int]
                },
                None => !(d@.workers[v] is Busy),
            } by {
                assert(d@.workers[v] == before.workers[v]);
            }
            assert forall|v: int| 0 <= v < w + 1 && v < jobs@.len() implies !(
            #[trigger] d@.workers[v] is Busy) by {
                if v < w {
                    assert(d@.workers[v] == before.workers[v]);
                    assert(!(before.workers[v] is Busy));
                }
            }
        }
        w = w + 1;
    }
    None
}

/// Searches `candidates` for the secret of `token` with a pool of
/// `worker_count` workers, on the calling thread.
///
/// A pool of no worker is refused before any candidate is looked at.
/// Otherwise the run ends: with the first candidate of the stream that
/// signs the token, or exhausted where none does. The size of the pool
/// does not enter into the outcome.
pub fn search(token: &Token, worker_count: usize, candidates: Vec<String>) -> (result: Result<
    Outcome,
    ConfigError,
>)
    ensures
        match result {
            Ok(outcome) => worker_count >= 1 && is_outcome_of(
                outcome,
                problem_of(token, candidates@),
            ),
            Err(e) => worker_count == 0 && e == ConfigError::ZeroWorkers,
        },
{
    let ghost problem = problem_of(token, candidates@);
    let mut d = match Dispatcher::new(token, candidates, worker_count) {
        Err(e) => {
            return Err(e);
        },
        Ok(d) => d,
    };
    let input = token.signing_input();
    proof {
        d.lemma_wf_inv();
    }
    d.start();
    proof {
        assert forall|w: int| d@.is_worker(w) implies !(#[trigger] d@.workers[w] is Busy) by {}
    }
    loop
        invariant
            worker_count >= 1,
            d.wf(),
            d@.problem == problem,
            problem == problem_of(token, candidates@),
            d@.started,
            d@.found is None,
            idle(d@),
            input@ == token.signing_text(),
        decreases d@.fuel(),
    {
        proof {
            d.lemma_wf_inv();
        }
        if d.is_drained() {
            proof {
                d@.lemma_exhausted_is_complete();
            }
            return Ok(Outcome::Exhausted);
        }
        let jobs = deal(&mut d);
        let hit = settle(&mut d, token, input.as_str(), &jobs);
        match hit {
            Some(job) => {
                proof {
                    let at = job.index as int;
                    assert(problem.accepts(at));
                    problem.lemma_first_match_exists();
                    problem.lemma_first_match_unique(at, problem.first_match());
                }
                return Ok(Outcome::Found { secret: job.secret, signing_input: input });
            },
            None => {
                proof {
                    d.lemma_wf_inv();
                }
            },
        }
    }
}

/// The problem that a token text and a list of candidates pose, for a text
/// that `token_error` finds no fault with.
pub open spec fn problem_of_text(text: Seq<char>, candidates: Seq<String>) -> Problem {
    let parts = segments(text);
    Problem {
        candidates: texts(candidates),
        signing_input: parts[0] + seq!['.'] + parts[1],
        signature: url_safe_decoding(parts[2])->0,
    }
}

/// Validates `token` against the header that was read from it, then
/// searches `input_lines` for its secret with `worker_count` workers.
///
/// A fault of the token comes first, in the order of `token_error`; then a
/// pool of no worker is refused. Neither is ever reported as "no match".
/// Otherwise the result is the outcome of the search in stream order.
pub fn crack_jwt(token: &str, header: &Header, worker_count: usize, input_lines: Vec<String>) -> (result:
    Result<Outcome, ConfigError>)
    ensures
        match result {
            Ok(outcome) => {
                &&& token_error(token@, header.typ@, header.alg@) is None
                &&& worker_count >= 1
                &&& is_outcome_of(outcome, problem_of_text(token@, input_lines@))
            },
            Err(e) => match token_error(token@, header.typ@, header.alg@) {
                Some(fault) => e == fault,
                None => worker_count == 0 && e == ConfigError::ZeroWorkers,
            },
        },
{
    let parsed = match parse_token(token, header) {
        Err(e) => {
            return Err(e);
        },
        Ok(parsed) => parsed,
    };
    assert(problem_of(&parsed, input_lines@) == problem_of_text(token@, input_lines@));
    search(&parsed, worker_count, input_lines)
}

/// The outcome of a search is determined by the problem: two outcomes of
/// one problem agree on whether a secret was found, and on its text.
pub proof fn lemma_outcome_is_determined(first: Outcome, second: Outcome, problem: Problem)
    requires
        is_outcome_of(first, problem),
        is_outcome_of(second, problem),
    ensures
        match (first, second) {
            (
                Outcome::Found { secret: a, signing_input: x },
                Outcome::Found { secret: b, signing_input: y },
            ) => a@ == b@ && x@ == y@,
            (Outcome::Exhausted, Outcome::Exhausted) => true,
            _ => false,
        },
{
}

/// Where exactly one candidate is the secret, the outcome of the search is
/// that candidate.
pub proof fn lemma_single_secret_is_reported(outcome: Outcome, problem: Problem, secret: int)
    requires
        is_outcome_of(outcome, problem),
        problem.accepts(secret),
        forall|i: int| problem.accepts(i) ==> i == secret,
    ensures
        outcome matches Outcome::Found { secret: text, .. } && text@
            == problem.candidates[secret],
{
    problem.lemma_first_match_exists();
}

/// Reordering the candidates does not change whether the search finds a
/// secret.
pub proof fn lemma_reordering_keeps_verdict(
    first: Outcome,
    first_problem: Problem,
    second: Outcome,
    second_problem: Problem,
)
    requires
        is_outcome_of(first, first_problem),
        is_outcome_of(second, second_problem),
        first_problem.signing_input == second_problem.signing_input,
        first_problem.signature == second_problem.signature,
        first_problem.candidates.to_multiset() == second_problem.candidates.to_multiset(),
    ensures
        first is Found <==> second is Found,
{
    lemma_match_survives_reordering(first_problem, second_problem);
}

} // verus!
