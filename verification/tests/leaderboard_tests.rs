use factorization_hyperopt::hyper::{Hyperparameters, Loss};
use factorization_hyperopt::leaderboard::{Leaderboard, TrialResult};
use factorization_hyperopt::score::Score;

fn config(latent_dim: u64) -> Hyperparameters {
    Hyperparameters {
        latent_dim,
        num_epochs: 10,
        rate_micros: 1_000,
        l2_micros: 10,
        loss: Loss::Bpr,
    }
}

fn result(test_micros: u64, tag: u64) -> TrialResult {
    TrialResult {
        test_score: Score::Val(test_micros),
        train_score: Score::Val(test_micros / 2),
        elapsed_ms: 5,
        hyper: config(tag),
    }
}

fn nan_result(tag: u64) -> TrialResult {
    TrialResult {
        test_score: Score::Nan,
        train_score: Score::Val(1),
        elapsed_ms: 5,
        hyper: config(tag),
    }
}

#[test]
fn best_is_the_highest_score() {
    // scores 0.1, 0.5, 0.3: ascending order is [0.1, 0.3, 0.5]
    let mut lb = Leaderboard::new();
    lb.append(result(100_000, 1));
    lb.append(result(500_000, 2));
    lb.append(result(300_000, 3));
    let keys: Vec<u64> = lb.entries.iter().map(|e| e.key_val()).collect();
    assert_eq!(keys, vec![100_000, 300_000, 500_000]);
    let best = lb.best().unwrap();
    assert_eq!(best.test_score, Score::Val(500_000));
    assert_eq!(best.hyper.latent_dim, 2);
}

#[test]
fn nan_scores_are_never_admitted() {
    let mut lb = Leaderboard::new();
    for k in 0..10 {
        assert!(!lb.append(nan_result(k)));
    }
    assert_eq!(lb.len(), 0);
    lb.append(result(200_000, 1));
    for k in 0..10 {
        lb.append(nan_result(k));
    }
    assert_eq!(lb.len(), 1);
    for e in &lb.entries {
        assert!(e.test_score != Score::Nan);
    }
}

#[test]
fn missing_snapshot_means_zero_prior_trials() {
    let lb = Leaderboard::new();
    assert_eq!(lb.len(), 0);
    assert!(lb.best().is_none());
    let loaded = Leaderboard::from_entries(&Vec::new());
    assert_eq!(loaded.len(), 0);
}

#[test]
fn resumability_counts_add_up() {
    // a snapshot of 3 prior trials
    let prior = vec![result(100_000, 1), result(300_000, 2), result(600_000, 3)];
    let mut lb = Leaderboard::from_entries(&prior);
    assert_eq!(lb.len(), 3);
    // this run appends 4 results, one of them not-a-number
    let fresh = vec![result(50_000, 4), nan_result(5), result(700_000, 6), result(200_000, 7)];
    let added = lb.append_many(&fresh);
    assert_eq!(added, 3);
    assert_eq!(lb.len(), 6);
}

#[test]
fn reloading_a_snapshot_reproduces_it() {
    let mut lb = Leaderboard::new();
    lb.append_many(&vec![result(400_000, 1), result(100_000, 2), result(250_000, 3)]);
    let reloaded = Leaderboard::from_entries(&lb.entries);
    assert_eq!(reloaded.entries, lb.entries);
}

#[test]
fn append_order_does_not_matter() {
    let a = result(100_000, 1);
    let b = result(500_000, 2);
    let c = result(300_000, 3);
    let orders: Vec<Vec<TrialResult>> = vec![
        vec![a, b, c],
        vec![c, b, a],
        vec![b, a, c],
        vec![c, a, b],
    ];
    let mut finals = Vec::new();
    for order in &orders {
        let mut lb = Leaderboard::new();
        lb.append_many(order);
        finals.push(lb.entries.clone());
    }
    for f in &finals {
        assert_eq!(f, &finals[0]);
    }
}

#[test]
fn ties_keep_arrival_order() {
    let first = result(300_000, 1);
    let second = result(300_000, 2);
    let mut lb = Leaderboard::new();
    lb.append(result(100_000, 9));
    lb.append(first);
    lb.append(second);
    assert_eq!(lb.entries[1].hyper.latent_dim, 1);
    assert_eq!(lb.entries[2].hyper.latent_dim, 2);
}

#[test]
fn best_never_decreases_across_appends() {
    let mut lb = Leaderboard::new();
    let mut best_so_far = 0u64;
    for (i, score) in [300_000u64, 100_000, 600_000, 200_000].iter().enumerate() {
        lb.append(result(*score, i as u64));
        let b = lb.best().unwrap().key_val();
        assert!(b >= best_so_far);
        best_so_far = b;
    }
    assert_eq!(best_so_far, 600_000);
}
