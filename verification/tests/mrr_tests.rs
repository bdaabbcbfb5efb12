use factorization_hyperopt::mrr::{evaluate, rank_of, UserEval};
use factorization_hyperopt::score::Score;

#[test]
fn rank_counts_strictly_better_candidates() {
    // two candidates predicted above the held-out item: rank 3
    assert_eq!(rank_of(&vec![30, 20, 10, 5], 10), 3);
    // nothing predicted above: rank 1
    assert_eq!(rank_of(&vec![50, 10], 50), 1);
    // an empty candidate list leaves rank 1
    assert_eq!(rank_of(&Vec::new(), 5), 1);
}

#[test]
fn equal_predictions_do_not_worsen_the_rank() {
    assert_eq!(rank_of(&vec![50, 50, 50, 10], 50), 1);
}

#[test]
fn mrr_of_ranks_three_and_one() {
    // one user's held-out item ranks 3rd (1/3), another's ranks 1st (1):
    // the mean is 2/3, i.e. 666_666 millionths after flooring
    let users = vec![
        UserEval { held_out_key: 10, candidate_keys: vec![30, 20, 10, 5] },
        UserEval { held_out_key: 50, candidate_keys: vec![50, 10] },
    ];
    assert_eq!(evaluate(&users), Score::Val(666_666));
}

#[test]
fn mrr_of_a_single_perfect_user() {
    let users = vec![UserEval { held_out_key: 9, candidate_keys: vec![1, 2, 3] }];
    assert_eq!(evaluate(&users), Score::Val(1_000_000));
}

#[test]
fn no_qualifying_user_yields_the_nan_signal() {
    let users: Vec<UserEval> = Vec::new();
    assert_eq!(evaluate(&users), Score::Nan);
}

#[test]
fn score_accessors_mirror_the_variant() {
    assert!(Score::Val(3).valid());
    assert!(!Score::Nan.valid());
    assert_eq!(Score::Val(3).micros(), Some(3));
    assert_eq!(Score::Nan.micros(), None);
}
