use vstd::prelude::*;
use crate::fraction::Fraction;
use crate::interaction::{
    distinct_recency_per_user, newer_count, user_count, Interaction, InteractionSet,
};
use crate::rng::rng_below;

verus! {

/// Whether `x` is held out of `s` under the user-based rule: it is among
/// the `floor(n * f)` most recent of its user's `n` interactions.
pub open spec fn held_out(s: Seq<Interaction>, x: Interaction, f: Fraction) -> bool {
    newer_count(s, x) < f.quota_spec(user_count(s, x.user_id))
}

/// The training side of a user-based split of `s`: everything not held out,
/// in source order.
pub open spec fn train_part(s: Seq<Interaction>, f: Fraction) -> Seq<Interaction> {
    s.filter(|x: Interaction| !held_out(s, x, f))
}

/// The held-out side of a user-based split of `s`, in source order.
pub open spec fn test_part(s: Seq<Interaction>, f: Fraction) -> Seq<Interaction> {
    s.filter(|x: Interaction| held_out(s, x, f))
}

/// How many records of `records` belong to user `u`.
fn count_user(records: &Vec<Interaction>, u: u64) -> (cnt: usize)
    ensures
        cnt == user_count(records@, u),
{
    let mut cnt: usize = 0;
    let n = records.len();
    for i in 0..n
        invariant
            n == records@.len(),
            cnt <= i,
            cnt == records@.take(i as int).filter(|x: Interaction| x.user_id == u).len(),
    {
        proof {
            records@.take(i as int).lemma_filter_push(
                records@[i as int],
                |x: Interaction| x.user_id == u,
            );
            assert(records@.take(i as int).push(records@[i as int]) =~= records@.take(
                i as int + 1,
            ));
            records@.take(i as int).lemma_filter_len(|x: Interaction| x.user_id == u);
        }
        if records[i].user_id == u {
            cnt = cnt + 1;
        }
    }
    proof {
        assert(records@.take(records@.len() as int) =~= records@);
    }
    cnt
}

/// How many records of `records` share `x`'s user and are more recent.
fn count_newer(records: &Vec<Interaction>, x: Interaction) -> (cnt: usize)
    ensures
        cnt == newer_count(records@, x),
{
    let mut cnt: usize = 0;
    let n = records.len();
    for i in 0..n
        invariant
            n == records@.len(),
            cnt <= i,
            cnt == records@.take(i as int).filter(
                |y: Interaction| y.user_id == x.user_id && y.recency > x.recency,
            ).len(),
    {
        proof {
            records@.take(i as int).lemma_filter_push(
                records@[i as int],
                |y: Interaction| y.user_id == x.user_id && y.recency > x.recency,
            );
            assert(records@.take(i as int).push(records@[i as int]) =~= records@.take(
                i as int + 1,
            ));
            records@.take(i as int).lemma_filter_len(
                |y: Interaction| y.user_id == x.user_id && y.recency > x.recency,
            );
        }
        let y = records[i];
        if y.user_id == x.user_id && y.recency > x.recency {
            cnt = cnt + 1;
        }
    }
    proof {
        assert(records@.take(records@.len() as int) =~= records@);
    }
    cnt
}

/// Partitions `set` by user: for each user, the `floor(n * f)` most recent
/// of that user's `n` interactions are held out for testing and the rest
/// train. The result is `(train, test)`, each in source order. A fixed
/// input yields a fixed partition; no generator is consumed.
pub fn user_based_split(set: &InteractionSet, f: Fraction) -> (tt: (InteractionSet, InteractionSet))
    requires
        f.well_formed(),
    ensures
        tt.0@ == train_part(set@, f),
        tt.1@ == test_part(set@, f),
{
    let mut train: Vec<Interaction> = Vec::new();
    let mut test: Vec<Interaction> = Vec::new();
    let n = set.records.len();
    for i in 0..n
        invariant
            n == set@.len(),
            f.well_formed(),
            train@ == set@.take(i as int).filter(|x: Interaction| !held_out(set@, x, f)),
            test@ == set@.take(i as int).filter(|x: Interaction| held_out(set@, x, f)),
    {
        let x = set.records[i];
        let nu = count_user(&set.records, x.user_id);
        let newer = count_newer(&set.records, x);
        let k = f.quota(nu);
        proof {
            set@.take(i as int).lemma_filter_push(
                set@[i as int],
                |x: Interaction| !held_out(set@, x, f),
            );
            set@.take(i as int).lemma_filter_push(
                set@[i as int],
                |x: Interaction| held_out(set@, x, f),
            );
            assert(set@.take(i as int).push(set@[i as int]) =~= set@.take(i as int + 1));
        }
        if newer < k {
            test.push(x);
        } else {
            train.push(x);
        }
    }
    proof {
        assert(set@.take(set@.len() as int) =~= set@);
    }
    (InteractionSet { records: train }, InteractionSet { records: test })
}

/// Splitting by any predicate loses nothing and invents nothing: the two
/// filtered sides together carry exactly the source, element for element.
pub proof fn lemma_filter_split<A>(s: Seq<A>, p: spec_fn(A) -> bool)
    ensures
        s.filter(p).len() + s.filter(|x: A| !p(x)).len() == s.len(),
        s.filter(p).to_multiset().add(s.filter(|x: A| !p(x)).to_multiset()) =~= s.to_multiset(),
    decreases s.len(),
{
    broadcast use vstd::seq_lib::group_to_multiset_ensures;

    reveal(Seq::filter);
    if s.len() == 0 {
    } else {
        let s0 = s.drop_last();
        lemma_filter_split(s0, p);
        s0.lemma_filter_push(s.last(), p);
        s0.lemma_filter_push(s.last(), |x: A| !p(x));
        assert(s0.push(s.last()) =~= s);
    }
}

/// Filtering looks only at the members: predicates that agree on every
/// member of `s` filter `s` identically.
proof fn lemma_filter_congruent<A>(s: Seq<A>, p: spec_fn(A) -> bool, q: spec_fn(A) -> bool)
    requires
        forall|i: int| 0 <= i < s.len() ==> p(#[trigger] s[i]) == q(s[i]),
    ensures
        s.filter(p) == s.filter(q),
    decreases s.len(),
{
    reveal(Seq::filter);
    if s.len() > 0 {
        let s0 = s.drop_last();
        lemma_filter_congruent(s0, p, q);
        s0.lemma_filter_push(s.last(), p);
        s0.lemma_filter_push(s.last(), q);
        assert(s0.push(s.last()) =~= s);
    }
}

/// Two filters in a row are one filter by the conjunction.
proof fn lemma_filter_filter<A>(s: Seq<A>, p: spec_fn(A) -> bool, q: spec_fn(A) -> bool)
    ensures
        s.filter(p).filter(q) == s.filter(|x: A| p(x) && q(x)),
    decreases s.len(),
{
    reveal(Seq::filter);
    if s.len() > 0 {
        let s0 = s.drop_last();
        lemma_filter_filter(s0, p, q);
        s0.lemma_filter_push(s.last(), p);
        s0.lemma_filter_push(s.last(), |x: A| p(x) && q(x));
        assert(s0.push(s.last()) =~= s);
        if p(s.last()) {
            s0.filter(p).lemma_filter_push(s.last(), q);
        }
    }
}

/// A user with exactly one interaction keeps it in the training side:
/// the held-out quota of a single event is zero.
pub proof fn lemma_single_event_stays_in_train(
    s: Seq<Interaction>,
    i: int,
    f: Fraction,
)
    requires
        f.well_formed(),
        0 <= i < s.len(),
        user_count(s, s[i].user_id) == 1,
    ensures
        !held_out(s, s[i], f),
        train_part(s, f).contains(s[i]),
        !test_part(s, f).contains(s[i]),
{
    vstd::arithmetic::div_mod::lemma_basic_div(f.num as int, f.den as int);
    assert(f.quota_spec(1nat) == 0);
    assert(!held_out(s, s[i], f));
    s.lemma_filter_contains(|x: Interaction| !held_out(s, x, f), i);
    if test_part(s, f).contains(s[i]) {
        let j = choose|j: int|
            0 <= j < test_part(s, f).len() && test_part(s, f)[j] == s[i];
        s.lemma_filter_pred(|x: Interaction| held_out(s, x, f), j);
    }
}

/// Pairwise distinct recency marks.
pub open spec fn distinct_recency(g: Seq<Interaction>) -> bool {
    forall|i: int, j: int|
        0 <= i < g.len() && 0 <= j < g.len() && i != j ==> (#[trigger] g[i]).recency != (
        #[trigger] g[j]).recency
}

/// How many members of `g` are more recent than `x`.
pub open spec fn rec_gt(g: Seq<Interaction>, x: Interaction) -> nat {
    g.filter(|y: Interaction| y.recency > x.recency).len()
}

/// Filtering a single element keeps it or drops it whole.
proof fn lemma_filter_singleton<A>(a: A, p: spec_fn(A) -> bool)
    ensures
        seq![a].filter(p) == if p(a) {
            seq![a]
        } else {
            Seq::<A>::empty()
        },
{
    reveal_with_fuel(Seq::filter, 2);
    assert(seq![a].drop_last() =~= Seq::<A>::empty());
    assert(seq![a].drop_last().filter(p) =~= Seq::<A>::empty());
    assert(Seq::<A>::empty().push(a) =~= seq![a]);
}

/// Removing one element lowers a filter count by exactly that element's
/// own contribution.
proof fn lemma_filter_remove<A>(s: Seq<A>, i: int, p: spec_fn(A) -> bool)
    requires
        0 <= i < s.len(),
    ensures
        s.filter(p).len() == s.remove(i).filter(p).len() + (if p(s[i]) {
            1int
        } else {
            0int
        }),
{
    let pre = s.subrange(0, i);
    let mid = seq![s[i]];
    let post = s.subrange(i + 1, s.len() as int);
    assert(s =~= (pre + mid) + post);
    Seq::filter_distributes_over_add(pre + mid, post, p);
    Seq::filter_distributes_over_add(pre, mid, p);
    lemma_filter_singleton(s[i], p);
    assert(s.remove(i) =~= pre + post);
    Seq::filter_distributes_over_add(pre, post, p);
}

/// An index of a most recent event of a nonempty sequence.
proof fn max_recency_index(g: Seq<Interaction>) -> (i: int)
    requires
        g.len() > 0,
    ensures
        0 <= i < g.len(),
        forall|j: int| 0 <= j < g.len() ==> (#[trigger] g[j]).recency <= g[i].recency,
    decreases g.len(),
{
    if g.len() == 1 {
        0
    } else {
        let i0 = max_recency_index(g.drop_last());
        assert forall|j: int| 0 <= j < g.len() - 1 implies (#[trigger] g[j]).recency
            <= g[i0].recency by {
            assert(g.drop_last()[j] == g[j]);
        }
        if g.last().recency >= g[i0].recency {
            g.len() - 1
        } else {
            i0
        }
    }
}

/// Among events with pairwise distinct recency, exactly `k` have fewer
/// than `k` more recent peers: the "`k` most recent" are well defined.
proof fn lemma_top_k_count(g: Seq<Interaction>, k: nat)
    requires
        k <= g.len(),
        distinct_recency(g),
    ensures
        g.filter(|x: Interaction| rec_gt(g, x) < k).len() == k,
    decreases g.len(),
{
    if k == 0 {
        g.lemma_all_neg_filter_empty(|x: Interaction| rec_gt(g, x) < k);
    } else {
        let i = max_recency_index(g);
        let m = g[i];
        let g2 = g.remove(i);
        g.remove_ensures(i);
        // the rest keeps pairwise distinct recencies, all older than `m`
        assert forall|a: int, b: int|
            0 <= a < g2.len() && 0 <= b < g2.len() && a != b implies g2[a].recency
            != g2[b].recency by {
            let a1: int = if a < i { a } else { a + 1 };
            let b1: int = if b < i { b } else { b + 1 };
            assert(g2[a] == g[a1] && g2[b] == g[b1] && a1 != b1);
        }
        assert forall|a: int| 0 <= a < g2.len() implies (#[trigger] g2[a]).recency
            < m.recency by {
            let a1: int = if a < i { a } else { a + 1 };
            assert(g2[a] == g[a1] && a1 != i);
        }
        // the most recent event itself is held: no peer is more recent
        assert(g.all(|y: Interaction| !(y.recency > m.recency)));
        g.lemma_all_neg_filter_empty(|y: Interaction| y.recency > m.recency);
        assert(rec_gt(g, m) == 0);
        // every remaining event loses exactly one more recent peer
        assert forall|a: int| 0 <= a < g2.len() implies rec_gt(g, #[trigger] g2[a]) == rec_gt(
            g2,
            g2[a],
        ) + 1 by {
            lemma_filter_remove(g, i, |y: Interaction| y.recency > g2[a].recency);
        }
        lemma_filter_congruent(
            g2,
            |x: Interaction| rec_gt(g, x) < k,
            |x: Interaction| rec_gt(g2, x) < (k - 1) as nat,
        );
        lemma_top_k_count(g2, (k - 1) as nat);
        lemma_filter_remove(g, i, |x: Interaction| rec_gt(g, x) < k);
    }
}

/// The quota never exceeds the count it is taken from, and is strictly
/// below any positive count.
proof fn lemma_quota_le(n: nat, f: Fraction)
    requires
        f.well_formed(),
    ensures
        f.quota_spec(n) <= n,
        n > 0 ==> f.quota_spec(n) < n,
{
    if n > 0 {
        assert((n as int) * (f.num as int) < (f.den as int) * (n as int)) by (nonlinear_arith)
            requires
                f.num < f.den,
                n > 0,
        ;
        vstd::arithmetic::div_mod::lemma_multiply_divide_lt(
            (n as int) * (f.num as int),
            f.den as int,
            n as int,
        );
    } else {
        assert((n as int) * (f.num as int) == 0);
        vstd::arithmetic::div_mod::lemma_div_of0(f.den as int);
    }
}

/// A user's events keep pairwise distinct recencies after filtering the
/// source down to that user.
proof fn lemma_user_slice_distinct(s: Seq<Interaction>, u: u64)
    requires
        distinct_recency_per_user(s),
    ensures
        distinct_recency(s.filter(|x: Interaction| x.user_id == u)),
    decreases s.len(),
{
    reveal(Seq::filter);
    if s.len() > 0 {
        let s0 = s.drop_last();
        assert(distinct_recency_per_user(s0));
        lemma_user_slice_distinct(s0, u);
        let p = |x: Interaction| x.user_id == u;
        s0.lemma_filter_push(s.last(), p);
        assert(s0.push(s.last()) =~= s);
        let g0 = s0.filter(p);
        let g = s.filter(p);
        if p(s.last()) {
            assert(g == g0.push(s.last()));
            assert forall|a: int| 0 <= a < g0.len() implies (#[trigger] g0[a]).recency != s.last().recency by {
                assert(g0.contains(g0[a]));
                s0.lemma_filter_contains_rev(p, g0[a]);
                let j = choose|j: int| 0 <= j < s0.len() && s0[j] == g0[a];
                assert(s[j] == g0[a] && j != s.len() - 1);
            }
        }
    }
}

/// Under the user-based rule every user with `n` interactions has exactly
/// `floor(n * f)` of them held out.
pub proof fn lemma_user_quota(s: Seq<Interaction>, u: u64, f: Fraction)
    requires
        f.well_formed(),
        distinct_recency_per_user(s),
    ensures
        user_count(test_part(s, f), u) == f.quota_spec(user_count(s, u)),
{
    let by_user = |x: Interaction| x.user_id == u;
    let held = |x: Interaction| held_out(s, x, f);
    let g = s.filter(by_user);
    let n = user_count(s, u);
    let k = f.quota_spec(n);
    lemma_quota_le(n, f);
    lemma_user_slice_distinct(s, u);
    // test side restricted to `u` is the source restricted to `u`, then held
    lemma_filter_filter(s, held, by_user);
    lemma_filter_congruent(
        s,
        |x: Interaction| held(x) && by_user(x),
        |x: Interaction| by_user(x) && held(x),
    );
    lemma_filter_filter(s, by_user, held);
    assert(test_part(s, f).filter(by_user) == g.filter(held));
    // on members of `g`, being held out is having fewer than `k` newer peers
    assert forall|a: int| 0 <= a < g.len() implies held(#[trigger] g[a]) == (rec_gt(g, g[a])
        < k) by {
        s.lemma_filter_pred(by_user, a);
        let x = g[a];
        let more_recent = |y: Interaction| y.recency > x.recency;
        let conj = |y: Interaction| by_user(y) && more_recent(y);
        lemma_filter_filter(s, by_user, more_recent);
        lemma_filter_congruent(
            s,
            |y: Interaction| y.user_id == x.user_id && y.recency > x.recency,
            conj,
        );
        assert(newer_count(s, x) == rec_gt(g, x));
        lemma_filter_congruent(
            s,
            |y: Interaction| y.user_id == x.user_id,
            |y: Interaction| y.user_id == u,
        );
        assert(user_count(s, x.user_id) == user_count(s, u));
    }
    lemma_filter_congruent(g, held, |x: Interaction| rec_gt(g, x) < k);
    lemma_top_k_count(g, k);
}

/// User-based splitting is an exact partition: nothing lost, nothing
/// duplicated, no record on both sides, and each user's held-out share is
/// exactly the floored fraction of that user's events.
pub proof fn lemma_user_based_split_exact(s: Seq<Interaction>, f: Fraction)
    requires
        f.well_formed(),
        distinct_recency_per_user(s),
    ensures
        train_part(s, f).len() + test_part(s, f).len() == s.len(),
        train_part(s, f).to_multiset().add(test_part(s, f).to_multiset()) =~= s.to_multiset(),
        forall|x: Interaction|
            !(#[trigger] train_part(s, f).contains(x) && test_part(s, f).contains(x)),
        forall|u: u64| #[trigger] user_count(test_part(s, f), u) == f.quota_spec(user_count(s, u)),
{
    let held = |x: Interaction| held_out(s, x, f);
    lemma_filter_split(s, held);
    lemma_filter_congruent(s, |x: Interaction| !held(x), |x: Interaction| !held_out(s, x, f));
    assert forall|x: Interaction|
        !(#[trigger] train_part(s, f).contains(x) && test_part(s, f).contains(x)) by {
        if train_part(s, f).contains(x) && test_part(s, f).contains(x) {
            let a = choose|a: int|
                0 <= a < train_part(s, f).len() && train_part(s, f)[a] == x;
            s.lemma_filter_pred(|y: Interaction| !held_out(s, y, f), a);
            let b = choose|b: int| 0 <= b < test_part(s, f).len() && test_part(s, f)[b] == x;
            s.lemma_filter_pred(|y: Interaction| held_out(s, y, f), b);
        }
    }
    assert forall|u: u64| #[trigger] user_count(test_part(s, f), u) == f.quota_spec(
        user_count(s, u),
    ) by {
        lemma_user_quota(s, u, f);
    }
}

/// The subsequence of `s` whose mask bit equals `b`, in source order.
pub open spec fn mask_side(s: Seq<Interaction>, mask: Seq<bool>, b: bool) -> Seq<Interaction>
    recommends
        mask.len() == s.len(),
    decreases s.len(),
{
    if s.len() == 0 {
        Seq::empty()
    } else {
        let rest = mask_side(s.drop_last(), mask.drop_last(), b);
        if mask.last() == b {
            rest.push(s.last())
        } else {
            rest
        }
    }
}

/// Assigns every interaction to the held-out side independently at random
/// with probability `f` (a draw below `f.num` out of `f.den`), the rest to
/// training. Whatever the draws, the two sides are complementary mask
/// selections of the source: an exact partition in source order.
pub fn train_test_split(
    set: &InteractionSet,
    rng: &mut rand::rngs::StdRng,
    f: Fraction,
) -> (tt: (InteractionSet, InteractionSet))
    requires
        f.well_formed(),
    ensures
        exists|mask: Seq<bool>|
            mask.len() == set@.len() && tt.0@ == mask_side(set@, mask, false) && tt.1@
                == mask_side(set@, mask, true),
        tt.0@.len() + tt.1@.len() == set@.len(),
        tt.0@.to_multiset().add(tt.1@.to_multiset()) =~= set@.to_multiset(),
{
    broadcast use vstd::seq_lib::group_to_multiset_ensures;

    let mut train: Vec<Interaction> = Vec::new();
    let mut test: Vec<Interaction> = Vec::new();
    let ghost mut mask: Seq<bool> = Seq::empty();
    let n = set.records.len();
    for i in 0..n
        invariant
            n == set@.len(),
            f.well_formed(),
            mask.len() == i,
            train@ == mask_side(set@.take(i as int), mask, false),
            test@ == mask_side(set@.take(i as int), mask, true),
            train@.len() + test@.len() == i,
            train@.to_multiset().add(test@.to_multiset()) =~= set@.take(i as int).to_multiset(),
    {
        let x = set.records[i];
        let d = rng_below(rng, f.den);
        let to_test = d < f.num;
        proof {
            let mask2 = mask.push(to_test);
            assert(set@.take(i as int + 1).drop_last() =~= set@.take(i as int));
            assert(mask2.drop_last() =~= mask);
            assert(set@.take(i as int + 1).last() == set@[i as int]);
            assert(mask_side(set@.take(i as int + 1), mask2, false) == if !to_test {
                train@.push(set@[i as int])
            } else {
                train@
            });
            assert(mask_side(set@.take(i as int + 1), mask2, true) == if to_test {
                test@.push(set@[i as int])
            } else {
                test@
            });
            assert(set@.take(i as int).push(set@[i as int]) =~= set@.take(i as int + 1));
            mask = mask2;
        }
        let ghost tr0 = train@;
        let ghost te0 = test@;
        if to_test {
            test.push(x);
        } else {
            train.push(x);
        }
        proof {
            set@.take(i as int).to_multiset_ensures();
            assert(set@.take(i as int + 1).to_multiset() =~= set@.take(i as int).to_multiset().insert(
                set@[i as int],
            ));
            if to_test {
                te0.to_multiset_ensures();
                assert(test@ == te0.push(x));
                assert(test@.to_multiset() =~= te0.to_multiset().insert(x));
            } else {
                tr0.to_multiset_ensures();
                assert(train@ == tr0.push(x));
                assert(train@.to_multiset() =~= tr0.to_multiset().insert(x));
            }
            assert(train@.to_multiset().add(test@.to_multiset()) =~= set@.take(
                i as int + 1,
            ).to_multiset());
        }
    }
    proof {
        assert(set@.take(set@.len() as int) =~= set@);
    }
    (InteractionSet { records: train }, InteractionSet { records: test })
}

/// Reorders the records in place by uniform random draws. Membership never
/// changes: shuffling affects fit iteration order only, never which side
/// of a partition a record is on.
pub fn shuffle(set: &mut InteractionSet, rng: &mut rand::rngs::StdRng)
    ensures
        final(set)@.to_multiset() =~= old(set)@.to_multiset(),
        final(set)@.len() == old(set)@.len(),
{
    broadcast use vstd::seq_lib::group_to_multiset_ensures;

    let mut work: Vec<Interaction> = Vec::new();
    let n = set.records.len();
    for i in 0..n
        invariant
            n == set@.len(),
            set@ == old(set)@,
            work@ == set@.take(i as int),
    {
        work.push(set.records[i]);
        proof {
            assert(set@.take(i as int).push(set@[i as int]) =~= set@.take(i as int + 1));
        }
    }
    proof {
        assert(set@.take(set@.len() as int) =~= set@);
    }
    let mut out: Vec<Interaction> = Vec::new();
    while work.len() > 0
        invariant
            set@ == old(set)@,
            work@.len() + out@.len() == old(set)@.len(),
            work@.to_multiset().add(out@.to_multiset()) =~= old(set)@.to_multiset(),
        decreases work@.len(),
    {
        let j = rng_below(rng, work.len() as u64) as usize;
        let ghost w0 = work@;
        let ghost o0 = out@;
        let x = work.remove(j);
        out.push(x);
        proof {
            w0.to_multiset_ensures();
            o0.to_multiset_ensures();
            assert(work@ == w0.remove(j as int));
            assert(work@.to_multiset() =~= w0.to_multiset().remove(x));
            assert(out@ == o0.push(x));
            assert(out@.to_multiset() =~= o0.to_multiset().insert(x));
            assert(w0.contains(x));
            assert(w0.to_multiset().count(x) > 0);
            assert(work@.to_multiset().add(out@.to_multiset()) =~= w0.to_multiset().add(
                o0.to_multiset(),
            ));
        }
    }
    proof {
        assert(work@ =~= Seq::<Interaction>::empty());
        assert forall|x: Interaction| work@.to_multiset().count(x) == 0 by {
            if work@.to_multiset().count(x) > 0 {
                assert(work@.contains(x));
            }
        }
        assert(work@.to_multiset().add(out@.to_multiset()) =~= out@.to_multiset());
    }
    set.records = out;
}

} // verus!
