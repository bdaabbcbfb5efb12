use vstd::prelude::*;
use crate::score::{Score, SCORE_SCALE};

verus! {

/// What one qualifying user's evaluation sees: the model's predicted
/// order key for every candidate item, and the key of the true held-out
/// item. A key is an order-preserving encoding of the engine's predicted
/// score: a larger key means a higher prediction.
pub struct UserEval {
    pub held_out_key: u64,
    pub candidate_keys: Vec<u64>,
}

/// The 1-based rank of the held-out item: one more than the number of
/// candidates the model predicts strictly above it, so equal predictions
/// do not worsen the rank.
pub open spec fn rank_spec(candidates: Seq<u64>, held: u64) -> nat {
    candidates.filter(|c: u64| c > held).len() + 1
}

/// The rank of every user's held-out item, user by user.
pub open spec fn eval_ranks(users: Seq<UserEval>) -> Seq<nat> {
    Seq::new(users.len(), |i: int| rank_spec(users[i].candidate_keys@, users[i].held_out_key))
}

/// Sum of the users' reciprocal-rank terms, each the floor of one
/// `SCORE_SCALE`-th per rank step: `floor(SCORE_SCALE / rank)` millionths.
pub open spec fn sum_recip_micros(ranks: Seq<nat>) -> nat
    decreases ranks.len(),
{
    if ranks.len() == 0 {
        0
    } else {
        sum_recip_micros(ranks.drop_last()) + (SCORE_SCALE as nat) / ranks.last()
    }
}

/// Mean Reciprocal Rank in millionths: the floor of the mean of the
/// users' reciprocal-rank terms.
pub open spec fn mrr_micros_spec(ranks: Seq<nat>) -> nat
    recommends
        ranks.len() > 0,
{
    sum_recip_micros(ranks) / ranks.len()
}

/// The rank the model gives the held-out item among the candidates.
pub fn rank_of(candidates: &Vec<u64>, held: u64) -> (r: usize)
    requires
        candidates@.len() < usize::MAX,
    ensures
        r == rank_spec(candidates@, held),
        1 <= r <= candidates@.len() + 1,
{
    let mut cnt: usize = 0;
    let n = candidates.len();
    for i in 0..n
        invariant
            n == candidates@.len() < usize::MAX,
            cnt <= i,
            cnt == candidates@.take(i as int).filter(|c: u64| c > held).len(),
    {
        proof {
            candidates@.take(i as int).lemma_filter_push(candidates@[i as int], |c: u64| c > held);
            assert(candidates@.take(i as int).push(candidates@[i as int]) =~= candidates@.take(
                i as int + 1,
            ));
            candidates@.take(i as int).lemma_filter_len(|c: u64| c > held);
        }
        if candidates[i] > held {
            cnt = cnt + 1;
        }
    }
    proof {
        assert(candidates@.take(candidates@.len() as int) =~= candidates@);
        candidates@.lemma_filter_len(|c: u64| c > held);
    }
    cnt + 1
}

/// Scores a model on a held-out partition by Mean Reciprocal Rank: each
/// qualifying user contributes the reciprocal of the rank of their true
/// held-out item, and the mean is taken over the qualifying users alone.
/// With no qualifying user at all the outcome is the not-a-number signal,
/// a valid result that the leaderboard will refuse.
pub fn evaluate(users: &Vec<UserEval>) -> (s: Score)
    requires
        forall|i: int|
            0 <= i < users@.len() ==> (#[trigger] users@[i]).candidate_keys@.len() < usize::MAX,
    ensures
        users@.len() == 0 ==> s == Score::Nan,
        users@.len() > 0 ==> s == Score::Val(mrr_micros_spec(eval_ranks(users@)) as u64),
        users@.len() > 0 ==> s.micros_spec() <= SCORE_SCALE,
{
    let n = users.len();
    if n == 0 {
        return Score::Nan;
    }
    let ghost ranks = eval_ranks(users@);
    let mut sum: u128 = 0;
    for i in 0..n
        invariant
            n == users@.len(),
            ranks == eval_ranks(users@),
            forall|j: int|
                0 <= j < users@.len() ==> (#[trigger] users@[j]).candidate_keys@.len()
                    < usize::MAX,
            sum == sum_recip_micros(ranks.take(i as int)),
            sum <= (i as int) * (SCORE_SCALE as int),
    {
        let r = rank_of(&users[i].candidate_keys, users[i].held_out_key);
        let term: u64 = SCORE_SCALE / (r as u64);
        proof {
            assert(ranks.take(i as int + 1).drop_last() =~= ranks.take(i as int));
            assert(ranks.take(i as int + 1).last() == rank_spec(
                users@[i as int].candidate_keys@,
                users@[i as int].held_out_key,
            ));
            assert(term as nat == (SCORE_SCALE as nat) / (ranks.take(i as int + 1).last()));
            assert((i as int + 1) * (SCORE_SCALE as int) == (i as int) * (SCORE_SCALE as int)
                + SCORE_SCALE as int) by (nonlinear_arith);
            assert((i as int) * (SCORE_SCALE as int) <= 0xffff_ffff_ffff_ffff * 1_000_000)
                by (nonlinear_arith)
                requires
                    0 <= i as int <= 0xffff_ffff_ffff_ffff,
            ;
        }
        sum = sum + (term as u128);
    }
    proof {
        assert(ranks.take(ranks.len() as int) =~= ranks);
        assert(sum <= (n as int) * (SCORE_SCALE as int));
        vstd::arithmetic::div_mod::lemma_div_is_ordered(
            sum as int,
            (n as int) * (SCORE_SCALE as int),
            n as int,
        );
        vstd::arithmetic::div_mod::lemma_div_multiples_vanish(SCORE_SCALE as int, n as int);
    }
    let m: u64 = (sum / (n as u128)) as u64;
    Score::Val(m)
}

} // verus!
