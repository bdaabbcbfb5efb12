use factorization_hyperopt::fraction::Fraction;
use factorization_hyperopt::interaction::{Interaction, InteractionSet};
use factorization_hyperopt::split::{shuffle, train_test_split, user_based_split};

fn ix(user_id: u64, item_id: u64, recency: u64) -> Interaction {
    Interaction::new(user_id, item_id, recency)
}

fn fifth() -> Fraction {
    Fraction::new(1, 5).unwrap()
}

fn sorted_triples(records: &[Interaction]) -> Vec<(u64, u64, u64)> {
    let mut v: Vec<(u64, u64, u64)> = records
        .iter()
        .map(|r| (r.user_id, r.item_id, r.recency))
        .collect();
    v.sort();
    v
}

#[test]
fn fraction_accepts_only_open_unit_interval() {
    assert!(Fraction::new(1, 5).is_some());
    assert!(Fraction::new(4, 5).is_some());
    assert!(Fraction::new(0, 5).is_none());
    assert!(Fraction::new(5, 5).is_none());
    assert!(Fraction::new(7, 5).is_none());
    assert!(Fraction::new(1, 0).is_none());
}

#[test]
fn quota_is_floor_of_product() {
    let two_fifths = Fraction::new(2, 5).unwrap();
    assert_eq!(two_fifths.quota(7), 2); // floor(2.8)
    assert_eq!(two_fifths.quota(0), 0);
    assert_eq!(two_fifths.quota(5), 2);
    assert_eq!(fifth().quota(1), 0);
    assert_eq!(fifth().quota(4), 0);
    assert_eq!(fifth().quota(5), 1);
}

#[test]
fn user_based_split_takes_most_recent_per_user() {
    // user 1 has five events, user 2 has one
    let set = InteractionSet::from_vec(vec![
        ix(1, 10, 0),
        ix(2, 77, 1),
        ix(1, 11, 2),
        ix(1, 12, 3),
        ix(1, 13, 4),
        ix(1, 14, 5),
    ]);
    let (train, test) = user_based_split(&set, fifth());
    // floor(5 * 1/5) = 1 held-out event for user 1: the most recent one
    assert_eq!(test.records.len(), 1);
    assert_eq!(test.records[0], ix(1, 14, 5));
    // everything else trains, in source order
    assert_eq!(
        train.records,
        vec![ix(1, 10, 0), ix(2, 77, 1), ix(1, 11, 2), ix(1, 12, 3), ix(1, 13, 4)]
    );
}

#[test]
fn user_based_split_quota_for_every_user() {
    let mut rows = Vec::new();
    // user 1: 10 events, user 2: 4 events, user 3: 2 events
    for k in 0..10u64 {
        rows.push(ix(1, 100 + k, k));
    }
    for k in 0..4u64 {
        rows.push(ix(2, 200 + k, k));
    }
    for k in 0..2u64 {
        rows.push(ix(3, 300 + k, k));
    }
    let set = InteractionSet::from_vec(rows);
    let half = Fraction::new(1, 2).unwrap();
    let (train, test) = user_based_split(&set, half);
    let count = |recs: &Vec<Interaction>, u: u64| recs.iter().filter(|r| r.user_id == u).count();
    assert_eq!(count(&test.records, 1), 5);
    assert_eq!(count(&test.records, 2), 2);
    assert_eq!(count(&test.records, 3), 1);
    assert_eq!(count(&train.records, 1), 5);
    assert_eq!(count(&train.records, 2), 2);
    assert_eq!(count(&train.records, 3), 1);
}

#[test]
fn single_interaction_user_lands_in_train() {
    let lonely = ix(42, 7, 3);
    let set = InteractionSet::from_vec(vec![ix(1, 1, 0), ix(1, 2, 1), lonely, ix(1, 3, 2)]);
    let (train, test) = user_based_split(&set, Fraction::new(4, 5).unwrap());
    assert!(train.records.contains(&lonely));
    assert!(!test.records.contains(&lonely));
}

#[test]
fn user_based_split_partitions_exactly() {
    let rows = vec![
        ix(1, 1, 0),
        ix(2, 2, 0),
        ix(1, 3, 1),
        ix(2, 4, 1),
        ix(3, 5, 0),
        ix(1, 6, 2),
    ];
    let set = InteractionSet::from_vec(rows.clone());
    let (train, test) = user_based_split(&set, Fraction::new(1, 3).unwrap());
    let mut both = train.records.clone();
    both.extend(test.records.iter().cloned());
    assert_eq!(sorted_triples(&both), sorted_triples(&rows));
    for t in &test.records {
        assert!(!train.records.contains(t));
    }
}

#[test]
fn global_random_split_partitions_exactly() {
    let rows: Vec<Interaction> = (0..50u64).map(|k| ix(k % 7, k, k)).collect();
    let set = InteractionSet::from_vec(rows.clone());
    let mut rng = <rand::rngs::StdRng as rand::SeedableRng>::seed_from_u64(7);
    let (train, test) = train_test_split(&set, &mut rng, fifth());
    assert_eq!(train.records.len() + test.records.len(), rows.len());
    let mut both = train.records.clone();
    both.extend(test.records.iter().cloned());
    assert_eq!(sorted_triples(&both), sorted_triples(&rows));
}

#[test]
fn shuffle_keeps_membership() {
    let rows: Vec<Interaction> = (0..30u64).map(|k| ix(k, k, k)).collect();
    let mut set = InteractionSet::from_vec(rows.clone());
    let mut rng = <rand::rngs::StdRng as rand::SeedableRng>::seed_from_u64(99);
    shuffle(&mut set, &mut rng);
    assert_eq!(set.records.len(), rows.len());
    assert_eq!(sorted_triples(&set.records), sorted_triples(&rows));
}

#[test]
fn views_present_the_same_partition() {
    let rows = vec![ix(1, 1, 0), ix(2, 2, 0), ix(1, 3, 1), ix(3, 4, 0)];
    let set = InteractionSet::from_vec(rows.clone());
    let (users, items, recencies) = set.triplet();
    assert_eq!(users, vec![1, 2, 1, 3]);
    assert_eq!(items, vec![1, 2, 3, 4]);
    assert_eq!(recencies, vec![0, 0, 1, 0]);
    let groups = set.grouped();
    let mut total = 0;
    for g in &groups {
        for r in &g.items {
            assert_eq!(r.user_id, g.user_id);
            total += 1;
        }
    }
    assert_eq!(total, rows.len());
    let mut seen: Vec<u64> = groups.iter().map(|g| g.user_id).collect();
    seen.sort();
    assert_eq!(seen, vec![1, 2, 3]);
}

#[test]
fn ingestion_caps_rows_and_numbers_recency() {
    let rows: Vec<(u64, u64)> = (0..10u64).map(|k| (k, 100 + k)).collect();
    let set = factorization_hyperopt::interaction::from_rows(&rows, 4);
    assert_eq!(set.records.len(), 4);
    for (i, r) in set.records.iter().enumerate() {
        assert_eq!(r.user_id, i as u64);
        assert_eq!(r.item_id, 100 + i as u64);
        assert_eq!(r.recency, i as u64);
    }
    let all = factorization_hyperopt::interaction::from_rows(&rows, 1_000);
    assert_eq!(all.records.len(), 10);
}

#[test]
fn id_spaces_are_one_past_the_largest_id() {
    let set = InteractionSet::from_vec(vec![ix(3, 9, 0), ix(7, 2, 1), ix(5, 4, 2)]);
    assert_eq!(set.num_users(), 8);
    assert_eq!(set.num_items(), 10);
    assert_eq!(set.len(), 3);
    let empty = InteractionSet::from_vec(Vec::new());
    assert_eq!(empty.num_users(), 0);
    assert_eq!(empty.num_items(), 0);
}
