//! Going from endpoint to endpoint until one gives an acceptable answer.
use vstd::prelude::*;

verus! {

/// How often each endpoint is tried.
pub const MAX_RETRIES: usize = 2;

/// The pause after the first try of an endpoint; it grows with each further try.
pub const PAUSE_MILLIS: u64 = 300;

/// How far a run has come.
pub struct FailoverView {
    /// How many endpoints there are.
    pub endpoints: nat,
    /// The endpoint that is tried now.
    pub index: nat,
    /// Which try of it this is, counted from one.
    pub attempt: nat,
    /// What went wrong last.
    pub last_error: Seq<char>,
}

impl FailoverView {
    /// A run before its first try.
    pub open spec fn start(endpoints: nat) -> FailoverView {
        FailoverView { endpoints, index: 0, attempt: 1, last_error: Seq::empty() }
    }

    /// Every endpoint has been tried as often as it may be.
    pub open spec fn exhausted(self) -> bool {
        self.index >= self.endpoints
    }

    /// The endpoint and the try exist; behind the last endpoint there is nothing but the end.
    pub open spec fn well_formed(self) -> bool {
        &&& self.index <= self.endpoints
        &&& 1 <= self.attempt <= MAX_RETRIES
        &&& self.exhausted() ==> self.attempt == 1
    }

    /// The run after the current try failed with `error`.
    pub open spec fn failed(self, error: Seq<char>) -> FailoverView {
        if self.attempt < MAX_RETRIES {
            FailoverView { attempt: self.attempt + 1, last_error: error, ..self }
        } else {
            FailoverView { index: self.index + 1, attempt: 1, last_error: error, ..self }
        }
    }

    /// The run after so many failures: endpoint after endpoint, each as often as it may be tried.
    pub open spec fn after(endpoints: nat, errors: Seq<Seq<char>>) -> FailoverView {
        FailoverView {
            endpoints,
            index: errors.len() / MAX_RETRIES as nat,
            attempt: errors.len() % MAX_RETRIES as nat + 1,
            last_error: if errors.len() == 0 {
                Seq::empty()
            } else {
                errors.last()
            },
        }
    }
}

/// What follows a try.
#[derive(Debug, PartialEq, Eq)]
pub enum Step<T> {
    /// The answer is acceptable: the run is over.
    Done(T),
    /// The same endpoint is tried again after a pause.
    Retry { pause_millis: u64 },
    /// The next endpoint is tried.
    NextEndpoint,
    /// No endpoint is left.
    Exhausted,
}

/// What follows a failed try.
pub open spec fn step_after_failure<T>(state: FailoverView) -> Step<T> {
    if state.attempt < MAX_RETRIES {
        Step::Retry { pause_millis: (PAUSE_MILLIS * state.attempt) as u64 }
    } else if state.index + 1 < state.endpoints {
        Step::NextEndpoint
    } else {
        Step::Exhausted
    }
}

/// What a whole run comes to.
pub enum RunResult<T> {
    /// An endpoint gave an acceptable answer.
    Done(T),
    /// No endpoint did; this is what went wrong last.
    Failed(Seq<char>),
    /// More tries are to come.
    Unfinished,
}

/// What a run comes to whose tries end with these outcomes, one after the other.
pub open spec fn run_result<T>(state: FailoverView, outcomes: Seq<Result<T, Seq<char>>>) -> RunResult<T>
    decreases outcomes.len(),
{
    if state.exhausted() {
        RunResult::Failed(state.last_error)
    } else if outcomes.len() == 0 {
        RunResult::Unfinished
    } else {
        match outcomes[0] {
            Ok(value) => RunResult::Done(value),
            Err(error) => run_result(state.failed(error), outcomes.skip(1)),
        }
    }
}

/// A run comes to what its next try makes of it: the result, where the try succeeds, else what the
/// run after the failure comes to.
pub proof fn lemma_run_goes_by_tries<T>(
    state: FailoverView,
    outcome: Result<T, Seq<char>>,
    outcomes: Seq<Result<T, Seq<char>>>,
)
    requires
        !state.exhausted(),
    ensures
        run_result(state, seq![outcome] + outcomes) == match outcome {
            Ok(value) => RunResult::Done(value),
            Err(error) => run_result(state.failed(error), outcomes),
        },
{
    assert((seq![outcome] + outcomes).skip(1) =~= outcomes);
}

/// A run begins at the first try of the first endpoint. Each failed try is counted as one, stays with
/// the endpoint as long as it may be tried again, is what went wrong last, and only the last try of the
/// last endpoint ends the run.
pub proof fn lemma_tries_counted(state: FailoverView, error: Seq<char>)
    requires
        state.index < state.endpoints,
        1 <= state.attempt <= MAX_RETRIES,
    ensures
        FailoverView::start(state.endpoints).endpoints == state.endpoints,
        FailoverView::start(state.endpoints).index == 0,
        FailoverView::start(state.endpoints).attempt == 1,
        FailoverView::start(state.endpoints).last_error.len() == 0,
        state.failed(error).endpoints == state.endpoints,
        state.failed(error).last_error == error,
        state.failed(error).index * MAX_RETRIES + state.failed(error).attempt == state.index
            * MAX_RETRIES + state.attempt + 1,
        1 <= state.failed(error).attempt <= MAX_RETRIES,
        state.failed(error).exhausted() <==> state.index * MAX_RETRIES + state.attempt
            == state.endpoints * MAX_RETRIES,
        !state.exhausted(),
        state.well_formed(),
{
}

/// What follows a failed try is what the run has come to: the same endpoint again, after a pause that
/// grows with the tries, the next endpoint, or the end where none is left.
pub proof fn lemma_step_follows<T>(state: FailoverView, error: Seq<char>)
    requires
        state.index < state.endpoints,
        1 <= state.attempt <= MAX_RETRIES,
    ensures
        match step_after_failure::<T>(state) {
            Step::Done(_) => false,
            Step::Retry { pause_millis } => {
                &&& state.failed(error).index == state.index
                &&& pause_millis == PAUSE_MILLIS * state.attempt
            },
            Step::NextEndpoint => {
                &&& state.failed(error).index == state.index + 1
                &&& state.failed(error).index < state.endpoints
            },
            Step::Exhausted => state.failed(error).index == state.endpoints,
        },
{
}

/// As long as there have been fewer failures than tries, and no success, the run is not over.
pub proof fn lemma_run_goes_on<T>(endpoints: nat, outcomes: Seq<Result<T, Seq<char>>>)
    requires
        outcomes.len() < endpoints * MAX_RETRIES,
        forall|i: int| 0 <= i < outcomes.len() ==> (#[trigger] outcomes[i]) is Err,
    ensures
        run_result(FailoverView::start(endpoints), outcomes) == RunResult::<T>::Unfinished,
{
    lemma_run_from(endpoints, Seq::empty(), outcomes, outcomes.len() as int);
}

/// A run begins as one without failures, each failure leads on to the run with one failure more, and
/// it ends after `MAX_RETRIES` failures of each endpoint, no sooner and no later.
pub proof fn lemma_failures_in_order(endpoints: nat, errors: Seq<Seq<char>>, error: Seq<char>)
    ensures
        FailoverView::start(endpoints) == FailoverView::after(endpoints, Seq::empty()),
        FailoverView::after(endpoints, errors).failed(error) == FailoverView::after(
            endpoints,
            errors.push(error),
        ),
        FailoverView::after(endpoints, errors).exhausted() <==> errors.len() >= endpoints
            * MAX_RETRIES,
        errors.len() <= endpoints * MAX_RETRIES ==> FailoverView::after(
            endpoints,
            errors,
        ).well_formed(),
{
}

/// The first acceptable answer is the result, provided that it comes before every endpoint has been
/// tried as often as it may be.
pub proof fn lemma_first_success_wins<T>(
    endpoints: nat,
    outcomes: Seq<Result<T, Seq<char>>>,
    k: int,
    value: T,
)
    requires
        0 <= k < outcomes.len(),
        k < endpoints * MAX_RETRIES,
        forall|i: int| 0 <= i < k ==> (#[trigger] outcomes[i]) is Err,
        outcomes[k] == Ok::<T, Seq<char>>(value),
    ensures
        run_result(FailoverView::start(endpoints), outcomes) == RunResult::Done(value),
{
    lemma_run_from(endpoints, Seq::empty(), outcomes, k);
    assert(outcomes.skip(0) =~= outcomes);
}

/// Where every try of every endpoint fails, the run fails, and what it reports is what went wrong
/// last.
pub proof fn lemma_all_failures_fail<T>(endpoints: nat, outcomes: Seq<Result<T, Seq<char>>>)
    requires
        outcomes.len() == endpoints * MAX_RETRIES,
        forall|i: int| 0 <= i < outcomes.len() ==> (#[trigger] outcomes[i]) is Err,
    ensures
        run_result(FailoverView::start(endpoints), outcomes) == RunResult::<T>::Failed(
            if outcomes.len() == 0 {
                Seq::empty()
            } else {
                outcomes.last()->Err_0
            },
        ),
{
    lemma_run_from(endpoints, Seq::empty(), outcomes, outcomes.len() as int);
    assert(outcomes.skip(0) =~= outcomes);
}

/// A run that ends with a result has it from the first acceptable answer, and that answer came within
/// the tries that the endpoints have.
pub proof fn lemma_done_is_first_success<T>(
    endpoints: nat,
    outcomes: Seq<Result<T, Seq<char>>>,
    value: T,
) -> (k: int)
    requires
        run_result(FailoverView::start(endpoints), outcomes) == RunResult::Done(value),
    ensures
        0 <= k < outcomes.len(),
        k < endpoints * MAX_RETRIES,
        forall|i: int| 0 <= i < k ==> (#[trigger] outcomes[i]) is Err,
        outcomes[k] == Ok::<T, Seq<char>>(value),
{
    lemma_done_from(endpoints, Seq::empty(), outcomes, value)
}

proof fn lemma_done_from<T>(
    endpoints: nat,
    errors: Seq<Seq<char>>,
    outcomes: Seq<Result<T, Seq<char>>>,
    value: T,
) -> (k: int)
    requires
        run_result(FailoverView::after(endpoints, errors), outcomes) == RunResult::Done(value),
    ensures
        0 <= k < outcomes.len(),
        errors.len() + k < endpoints * MAX_RETRIES,
        forall|i: int| 0 <= i < k ==> (#[trigger] outcomes[i]) is Err,
        outcomes[k] == Ok::<T, Seq<char>>(value),
    decreases outcomes.len(),
{
    match outcomes[0] {
        Ok(_) => 0,
        Err(error) => {
            let rest = outcomes.skip(1);
            lemma_failures_in_order(endpoints, errors, error);
            let k = lemma_done_from(endpoints, errors.push(error), rest, value);
            assert forall|i: int| 0 <= i < k + 1 implies (#[trigger] outcomes[i]) is Err by {
                if i > 0 {
                    assert(rest[i - 1] is Err);
                }
            }
            k + 1
        },
    }
}

/// The errors of a list of outcomes.
spec fn errors_of<T>(outcomes: Seq<Result<T, Seq<char>>>) -> Seq<Seq<char>> {
    outcomes.map_values(|outcome: Result<T, Seq<char>>| outcome->Err_0)
}

proof fn lemma_run_from<T>(
    endpoints: nat,
    errors: Seq<Seq<char>>,
    outcomes: Seq<Result<T, Seq<char>>>,
    k: int,
)
    requires
        0 <= k <= outcomes.len(),
        errors.len() + k <= endpoints * MAX_RETRIES,
        forall|i: int| 0 <= i < k ==> (#[trigger] outcomes[i]) is Err,
    ensures
        run_result(FailoverView::after(endpoints, errors), outcomes) == run_result(
            FailoverView::after(endpoints, errors + errors_of(outcomes.take(k))),
            outcomes.skip(k),
        ),
    decreases k,
{
    if k == 0 {
        assert(errors + errors_of(outcomes.take(0)) =~= errors);
        assert(outcomes.skip(0) =~= outcomes);
    } else {
        let error = outcomes[0]->Err_0;
        let rest = outcomes.skip(1);
        lemma_failures_in_order(endpoints, errors, error);
        assert forall|i: int| 0 <= i < k - 1 implies (#[trigger] rest[i]) is Err by {
            assert(rest[i] == outcomes[i + 1]);
        }
        lemma_run_from(endpoints, errors.push(error), rest, k - 1);
        assert(errors.push(error) + errors_of(rest.take(k - 1)) =~= errors + errors_of(
            outcomes.take(k),
        ));
        assert(rest.skip(k - 1) =~= outcomes.skip(k));
    }
}

/// A run over a list of endpoints.
pub struct Failover {
    endpoints: usize,
    index: usize,
    attempt: usize,
    last_error: String,
}

impl View for Failover {
    type V = FailoverView;

    closed spec fn view(&self) -> FailoverView {
        FailoverView {
            endpoints: self.endpoints as nat,
            index: self.index as nat,
            attempt: self.attempt as nat,
            last_error: self.last_error@,
        }
    }
}

impl Failover {
    /// A run over so many endpoints, before its first try.
    pub fn new(endpoints: usize) -> (run: Failover)
        ensures
            run@ == FailoverView::start(endpoints as nat),
            run@.well_formed(),
    {
        Failover { endpoints, index: 0, attempt: 1, last_error: String::new() }
    }

    /// The endpoint to try now; nothing where none is left.
    pub fn endpoint(&self) -> (index: Option<usize>)
        requires
            self@.well_formed(),
        ensures
            match index {
                Some(index) => !self@.exhausted() && index == self@.index,
                None => self@.exhausted(),
            },
    {
        if self.index < self.endpoints {
            Some(self.index)
        } else {
            None
        }
    }

    /// What went wrong last.
    pub fn last_error(&self) -> (error: &str)
        ensures
            error@ == self@.last_error,
    {
        self.last_error.as_str()
    }

    /// Takes in how the current try ended, and says what follows.
    pub fn advance<T>(&mut self, outcome: Result<T, String>) -> (step: Step<T>)
        requires
            old(self)@.well_formed(),
            !old(self)@.exhausted(),
        ensures
            final(self)@.well_formed(),
            match outcome {
                Ok(value) => step == Step::Done(value) && final(self)@ == old(self)@,
                Err(error) => {
                    &&& final(self)@ == old(self)@.failed(error@)
                    &&& step == step_after_failure::<T>(old(self)@)
                },
            },
    {
        match outcome {
            Ok(value) => Step::Done(value),
            Err(error) => {
                self.last_error = error;
                if self.attempt < MAX_RETRIES {
                    let pause_millis: u64 = PAUSE_MILLIS * (self.attempt as u64);
                    self.attempt = self.attempt + 1;
                    Step::Retry { pause_millis }
                } else {
                    self.index = self.index + 1;
                    self.attempt = 1;
                    if self.index < self.endpoints {
                        Step::NextEndpoint
                    } else {
                        Step::Exhausted
                    }
                }
            },
        }
    }
}

} // verus!
