use vstd::prelude::*;

verus! {

/// Consecutive persist failures tolerated before the run aborts rather
/// than spins: a failed persist must never silently drop an update.
pub const MAX_PERSIST_FAILURES: u64 = 3;

/// The phases of the search loop. One trial walks `LoadHistory`,
/// `SampleConfig`, `Fit`, `Evaluate`, `AppendAndPersist` in order; the
/// loop repeats until the planned trial count is spent.
#[derive(Clone, Copy, PartialEq, Eq, Structural, Debug)]
pub enum Phase {
    Idle,
    LoadHistory,
    SampleConfig,
    Fit,
    Evaluate,
    AppendAndPersist,
    Done,
}

/// What the driver reports back after carrying out the current phase's
/// outside work. Fitting may fail recoverably; persisting may fail
/// transiently.
#[derive(Clone, Copy, PartialEq, Eq, Structural, Debug)]
pub enum SearchEvent {
    Started,
    HistoryLoaded,
    ConfigSampled,
    FitSucceeded,
    FitFailed,
    Evaluated,
    PersistSucceeded,
    PersistFailed,
}

/// The whole in-memory state of the loop between phases. The leaderboard
/// itself is deliberately not here: it is re-read from durable storage
/// every trial, so the trial count accumulated over restarted runs is
/// the union of all history.
#[derive(Clone, Copy, PartialEq, Eq, Structural, Debug)]
pub struct SearchState {
    pub phase: Phase,
    pub remaining_trials: u64,
    pub persist_failures: u64,
    pub aborted: bool,
}

/// Where a fresh run of `count` trials starts.
pub open spec fn initial_state(count: u64) -> SearchState {
    SearchState { phase: Phase::Idle, remaining_trials: count, persist_failures: 0, aborted: false }
}

/// One trial is over; move on or finish.
pub open spec fn next_trial(s: SearchState) -> SearchState {
    if s.remaining_trials <= 1 {
        SearchState { phase: Phase::Done, remaining_trials: 0, ..s }
    } else {
        SearchState {
            phase: Phase::LoadHistory,
            remaining_trials: (s.remaining_trials - 1) as u64,
            ..s
        }
    }
}

/// The complete decision table of the loop: what state follows each
/// phase-and-event pair. An event that the current phase cannot produce
/// changes nothing. A fit failure skips the trial and continues; a
/// persist failure is retried, and one failure too many aborts the run
/// rather than spinning or silently dropping the update.
pub open spec fn step_spec(s: SearchState, e: SearchEvent) -> SearchState {
    match (s.phase, e) {
        (Phase::Idle, SearchEvent::Started) => {
            if s.remaining_trials == 0 {
                SearchState { phase: Phase::Done, ..s }
            } else {
                SearchState { phase: Phase::LoadHistory, ..s }
            }
        },
        (Phase::LoadHistory, SearchEvent::HistoryLoaded) => {
            SearchState { phase: Phase::SampleConfig, ..s }
        },
        (Phase::SampleConfig, SearchEvent::ConfigSampled) => SearchState { phase: Phase::Fit, ..s },
        (Phase::Fit, SearchEvent::FitSucceeded) => SearchState { phase: Phase::Evaluate, ..s },
        (Phase::Fit, SearchEvent::FitFailed) => next_trial(s),
        (Phase::Evaluate, SearchEvent::Evaluated) => {
            SearchState { phase: Phase::AppendAndPersist, ..s }
        },
        (Phase::AppendAndPersist, SearchEvent::PersistSucceeded) => {
            next_trial(SearchState { persist_failures: 0, ..s })
        },
        (Phase::AppendAndPersist, SearchEvent::PersistFailed) => {
            if s.persist_failures + 1 >= MAX_PERSIST_FAILURES {
                SearchState {
                    phase: Phase::Done,
                    persist_failures: MAX_PERSIST_FAILURES,
                    aborted: true,
                    ..s
                }
            } else {
                SearchState { persist_failures: (s.persist_failures + 1) as u64, ..s }
            }
        },
        _ => s,
    }
}

impl SearchState {
    /// The failure counter never leaves its window, an aborted run is
    /// over, and a finished run has either spent its trials or aborted.
    pub open spec fn well_formed(self) -> bool {
        &&& self.persist_failures <= MAX_PERSIST_FAILURES
        &&& (self.aborted ==> self.phase is Done)
        &&& (self.phase is Done ==> self.remaining_trials == 0 || self.aborted)
    }

    pub fn new(count: u64) -> (s: SearchState)
        ensures
            s == initial_state(count),
            s.well_formed(),
    {
        SearchState {
            phase: Phase::Idle,
            remaining_trials: count,
            persist_failures: 0,
            aborted: false,
        }
    }

    /// Feeds one event through the decision table.
    pub fn step(self, e: SearchEvent) -> (next: SearchState)
        requires
            self.well_formed(),
        ensures
            next == step_spec(self, e),
            next.well_formed(),
            next.remaining_trials <= self.remaining_trials,
    {
        proof {
            lemma_step_preserves(self, e);
        }
        match (self.phase, e) {
            (Phase::Idle, SearchEvent::Started) => {
                if self.remaining_trials == 0 {
                    SearchState { phase: Phase::Done, ..self }
                } else {
                    SearchState { phase: Phase::LoadHistory, ..self }
                }
            },
            (Phase::LoadHistory, SearchEvent::HistoryLoaded) => {
                SearchState { phase: Phase::SampleConfig, ..self }
            },
            (Phase::SampleConfig, SearchEvent::ConfigSampled) => {
                SearchState { phase: Phase::Fit, ..self }
            },
            (Phase::Fit, SearchEvent::FitSucceeded) => {
                SearchState { phase: Phase::Evaluate, ..self }
            },
            (Phase::Fit, SearchEvent::FitFailed) => self.advance_trial(),
            (Phase::Evaluate, SearchEvent::Evaluated) => {
                SearchState { phase: Phase::AppendAndPersist, ..self }
            },
            (Phase::AppendAndPersist, SearchEvent::PersistSucceeded) => {
                (SearchState { persist_failures: 0, ..self }).advance_trial()
            },
            (Phase::AppendAndPersist, SearchEvent::PersistFailed) => {
                if self.persist_failures + 1 >= MAX_PERSIST_FAILURES {
                    SearchState {
                        phase: Phase::Done,
                        persist_failures: MAX_PERSIST_FAILURES,
                        aborted: true,
                        ..self
                    }
                } else {
                    SearchState { persist_failures: self.persist_failures + 1, ..self }
                }
            },
            _ => self,
        }
    }

    fn advance_trial(self) -> (next: SearchState)
        ensures
            next == next_trial(self),
    {
        if self.remaining_trials <= 1 {
            SearchState { phase: Phase::Done, remaining_trials: 0, ..self }
        } else {
            SearchState {
                phase: Phase::LoadHistory,
                remaining_trials: self.remaining_trials - 1,
                ..self
            }
        }
    }

    pub fn is_done(&self) -> (b: bool)
        ensures
            b == (self.phase is Done),
    {
        match self.phase {
            Phase::Done => true,
            _ => false,
        }
    }
}

/// The decision table keeps the state well formed and never adds trials.
pub proof fn lemma_step_preserves(s: SearchState, e: SearchEvent)
    requires
        s.well_formed(),
    ensures
        step_spec(s, e).well_formed(),
        step_spec(s, e).remaining_trials <= s.remaining_trials,
{
}

} // verus!
