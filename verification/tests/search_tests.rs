use factorization_hyperopt::hyper::{sample, MAX_EPOCHS, MAX_L2_MICROS, MAX_LATENT_DIM,
    MAX_RATE_MICROS, MIN_EPOCHS, MIN_L2_MICROS, MIN_LATENT_DIM, MIN_RATE_MICROS};
use factorization_hyperopt::search::{Phase, SearchEvent, SearchState, MAX_PERSIST_FAILURES};

fn seeded(seed: u64) -> rand::rngs::StdRng {
    <rand::rngs::StdRng as rand::SeedableRng>::seed_from_u64(seed)
}

#[test]
fn sampled_configurations_stay_in_their_priors() {
    let mut rng = seeded(11);
    for _ in 0..200 {
        let h = sample(&mut rng);
        assert!(MIN_LATENT_DIM <= h.latent_dim && h.latent_dim <= MAX_LATENT_DIM);
        assert!(MIN_EPOCHS <= h.num_epochs && h.num_epochs <= MAX_EPOCHS);
        assert!(MIN_RATE_MICROS <= h.rate_micros && h.rate_micros < MAX_RATE_MICROS);
        assert!(MIN_L2_MICROS <= h.l2_micros && h.l2_micros < MAX_L2_MICROS);
    }
}

#[test]
fn a_fixed_seed_reproduces_the_draws() {
    let mut rng1 = seeded(1234);
    let mut rng2 = seeded(1234);
    for _ in 0..20 {
        assert_eq!(sample(&mut rng1), sample(&mut rng2));
    }
}

#[test]
fn fresh_seeds_are_drawn_independently() {
    let mut rng = seeded(5);
    let a = sample(&mut rng);
    let b = sample(&mut rng);
    let c = sample(&mut rng);
    // i.i.d. draws from a fixed stream: not all three identical
    assert!(a != b || b != c);
}

#[test]
fn one_trial_walks_the_phases_in_order() {
    let s = SearchState::new(1);
    assert_eq!(s.phase, Phase::Idle);
    let s = s.step(SearchEvent::Started);
    assert_eq!(s.phase, Phase::LoadHistory);
    let s = s.step(SearchEvent::HistoryLoaded);
    assert_eq!(s.phase, Phase::SampleConfig);
    let s = s.step(SearchEvent::ConfigSampled);
    assert_eq!(s.phase, Phase::Fit);
    let s = s.step(SearchEvent::FitSucceeded);
    assert_eq!(s.phase, Phase::Evaluate);
    let s = s.step(SearchEvent::Evaluated);
    assert_eq!(s.phase, Phase::AppendAndPersist);
    let s = s.step(SearchEvent::PersistSucceeded);
    assert_eq!(s.phase, Phase::Done);
    assert_eq!(s.remaining_trials, 0);
    assert!(!s.aborted);
    assert!(s.is_done());
}

#[test]
fn a_failed_fit_skips_the_trial_and_continues() {
    let s = SearchState::new(2)
        .step(SearchEvent::Started)
        .step(SearchEvent::HistoryLoaded)
        .step(SearchEvent::ConfigSampled)
        .step(SearchEvent::FitFailed);
    assert_eq!(s.phase, Phase::LoadHistory);
    assert_eq!(s.remaining_trials, 1);
}

#[test]
fn zero_planned_trials_finish_immediately() {
    let s = SearchState::new(0).step(SearchEvent::Started);
    assert!(s.is_done());
    assert!(!s.aborted);
}

#[test]
fn repeated_persist_failures_abort_the_run() {
    let mut s = SearchState::new(5)
        .step(SearchEvent::Started)
        .step(SearchEvent::HistoryLoaded)
        .step(SearchEvent::ConfigSampled)
        .step(SearchEvent::FitSucceeded)
        .step(SearchEvent::Evaluated);
    assert_eq!(s.phase, Phase::AppendAndPersist);
    for _ in 0..MAX_PERSIST_FAILURES - 1 {
        s = s.step(SearchEvent::PersistFailed);
        assert_eq!(s.phase, Phase::AppendAndPersist);
    }
    s = s.step(SearchEvent::PersistFailed);
    assert!(s.is_done());
    assert!(s.aborted);
}

#[test]
fn a_successful_persist_resets_the_failure_count() {
    let s = SearchState::new(2)
        .step(SearchEvent::Started)
        .step(SearchEvent::HistoryLoaded)
        .step(SearchEvent::ConfigSampled)
        .step(SearchEvent::FitSucceeded)
        .step(SearchEvent::Evaluated)
        .step(SearchEvent::PersistFailed)
        .step(SearchEvent::PersistSucceeded);
    assert_eq!(s.persist_failures, 0);
    assert_eq!(s.phase, Phase::LoadHistory);
    assert_eq!(s.remaining_trials, 1);
}

#[test]
fn an_event_out_of_phase_changes_nothing() {
    let s = SearchState::new(3).step(SearchEvent::Started);
    let same = s.step(SearchEvent::PersistSucceeded);
    assert_eq!(s, same);
}
