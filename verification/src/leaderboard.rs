use vstd::prelude::*;
use vstd::multiset::Multiset;
use crate::hyper::Hyperparameters;
use crate::score::Score;

verus! {

/// The outcome of one trial: held-out and training scores, wall-clock
/// duration in milliseconds, and the exact configuration that produced
/// them. Immutable once created.
#[derive(Clone, Copy, PartialEq, Eq, Structural, Debug)]
pub struct TrialResult {
    pub test_score: Score,
    pub train_score: Score,
    pub elapsed_ms: u64,
    pub hyper: Hyperparameters,
}

impl TrialResult {
    /// The comparison key: the held-out score in millionths.
    pub open spec fn key(self) -> u64 {
        self.test_score.micros_spec()
    }

    /// Admissible to the leaderboard: the held-out score is numeric.
    pub open spec fn is_valid(self) -> bool {
        self.test_score.is_valid()
    }

    pub fn key_val(&self) -> (k: u64)
        ensures
            k == self.key(),
    {
        match self.test_score {
            Score::Nan => 0,
            Score::Val(v) => v,
        }
    }

    pub fn valid(&self) -> (b: bool)
        ensures
            b == self.is_valid(),
    {
        self.test_score.valid()
    }
}

/// Ascending by held-out score.
pub open spec fn sorted_by_key(s: Seq<TrialResult>) -> bool {
    forall|i: int, j: int|
        0 <= i <= j < s.len() ==> (#[trigger] s[i]).key() <= (#[trigger] s[j]).key()
}

/// No not-a-number score anywhere.
pub open spec fn all_valid(s: Seq<TrialResult>) -> bool {
    forall|i: int| 0 <= i < s.len() ==> (#[trigger] s[i]).is_valid()
}

/// No two entries tie on key.
pub open spec fn distinct_keys(s: Seq<TrialResult>) -> bool {
    forall|i: int, j: int|
        0 <= i < s.len() && 0 <= j < s.len() && i != j ==> (#[trigger] s[i]).key() != (
        #[trigger] s[j]).key()
}

/// Where a result of key `k` lands: after every entry whose key is no
/// larger, so equal keys keep arrival order.
pub open spec fn insert_pos(s: Seq<TrialResult>, k: u64) -> int
    decreases s.len(),
{
    if s.len() == 0 {
        0
    } else if s[0].key() <= k {
        1 + insert_pos(s.drop_first(), k)
    } else {
        0
    }
}

/// One sorted, stable insertion.
pub open spec fn lb_insert(s: Seq<TrialResult>, r: TrialResult) -> Seq<TrialResult> {
    s.insert(insert_pos(s, r.key()), r)
}

/// The effect of appending a batch first to last: valid results are
/// inserted in order, not-a-number results are dropped.
pub open spec fn lb_append_all(s: Seq<TrialResult>, rs: Seq<TrialResult>) -> Seq<TrialResult>
    decreases rs.len(),
{
    if rs.len() == 0 {
        s
    } else {
        lb_append_all(
            if rs[0].is_valid() {
                lb_insert(s, rs[0])
            } else {
                s
            },
            rs.drop_first(),
        )
    }
}

proof fn lemma_insert_pos_bounds(s: Seq<TrialResult>, k: u64)
    ensures
        0 <= insert_pos(s, k) <= s.len(),
    decreases s.len(),
{
    if s.len() > 0 {
        lemma_insert_pos_bounds(s.drop_first(), k);
    }
}

/// In a sorted sequence the insertion point separates the keys no larger
/// than `k` from the keys strictly larger.
proof fn lemma_insert_pos_split(s: Seq<TrialResult>, k: u64)
    requires
        sorted_by_key(s),
    ensures
        0 <= insert_pos(s, k) <= s.len(),
        forall|j: int| 0 <= j < insert_pos(s, k) ==> (#[trigger] s[j]).key() <= k,
        forall|j: int| insert_pos(s, k) <= j < s.len() ==> (#[trigger] s[j]).key() > k,
    decreases s.len(),
{
    lemma_insert_pos_bounds(s, k);
    if s.len() > 0 {
        let t = s.drop_first();
        assert(sorted_by_key(t)) by {
            assert forall|i: int, j: int| 0 <= i <= j < t.len() implies (#[trigger] t[i]).key()
                <= (#[trigger] t[j]).key() by {
                assert(t[i] == s[i + 1] && t[j] == s[j + 1]);
            }
        }
        lemma_insert_pos_split(t, k);
        if s[0].key() <= k {
            assert forall|j: int| 0 <= j < insert_pos(s, k) implies (#[trigger] s[j]).key()
                <= k by {
                if j > 0 {
                    assert(s[j] == t[j - 1]);
                }
            }
            assert forall|j: int| insert_pos(s, k) <= j < s.len() implies (#[trigger] s[j]).key()
                > k by {
                assert(s[j] == t[j - 1]);
            }
        } else {
            assert forall|j: int| 0 <= j < s.len() implies (#[trigger] s[j]).key() > k by {
                assert(s[0].key() <= s[j].key());
            }
        }
    }
}

/// Sorted insertion keeps the order and adds exactly the new entry.
proof fn lemma_lb_insert_props(s: Seq<TrialResult>, r: TrialResult)
    requires
        sorted_by_key(s),
    ensures
        sorted_by_key(lb_insert(s, r)),
        lb_insert(s, r).len() == s.len() + 1,
        lb_insert(s, r).to_multiset() =~= s.to_multiset().insert(r),
        all_valid(s) && r.is_valid() ==> all_valid(lb_insert(s, r)),
{
    let k = r.key();
    let pos = insert_pos(s, k);
    lemma_insert_pos_split(s, k);
    s.insert_ensures(pos, r);
    let out = lb_insert(s, r);
    assert forall|i: int, j: int| 0 <= i <= j < out.len() implies (#[trigger] out[i]).key()
        <= (#[trigger] out[j]).key() by {
        if i < pos {
            assert(out[i] == s[i]);
        }
        if i > pos {
            assert(out[i] == s[i - 1]);
        }
        if j < pos {
            assert(out[j] == s[j]);
        }
        if j > pos {
            assert(out[j] == s[j - 1]);
        }
    }
    // multiset: the insertion is a prefix, the new entry, and a suffix
    let pre = s.subrange(0, pos);
    let post = s.subrange(pos, s.len() as int);
    assert(out =~= pre.push(r) + post);
    assert(s =~= pre + post);
    vstd::seq_lib::lemma_multiset_commutative(pre.push(r), post);
    vstd::seq_lib::lemma_multiset_commutative(pre, post);
    pre.to_multiset_ensures();
    assert(pre.push(r).to_multiset() =~= pre.to_multiset().insert(r));
    if all_valid(s) && r.is_valid() {
        assert forall|i: int| 0 <= i < out.len() implies (#[trigger] out[i]).is_valid() by {
            if i < pos {
                assert(out[i] == s[i]);
            } else if i > pos {
                assert(out[i] == s[i - 1]);
            }
        }
    }
}

/// A batch append keeps the leaderboard sorted and valid, and its entries
/// are exactly the old ones plus the valid results of the batch.
pub proof fn lemma_lb_append_all_props(s: Seq<TrialResult>, rs: Seq<TrialResult>)
    requires
        sorted_by_key(s),
        all_valid(s),
    ensures
        sorted_by_key(lb_append_all(s, rs)),
        all_valid(lb_append_all(s, rs)),
        lb_append_all(s, rs).to_multiset() =~= s.to_multiset().add(
            rs.filter(|r: TrialResult| r.is_valid()).to_multiset(),
        ),
        lb_append_all(s, rs).len() == s.len() + rs.filter(|r: TrialResult| r.is_valid()).len(),
    decreases rs.len(),
{
    broadcast use vstd::seq_lib::group_to_multiset_ensures;

    reveal_with_fuel(Seq::filter, 2);
    if rs.len() == 0 {
        assert(rs.filter(|r: TrialResult| r.is_valid()) =~= rs);
    } else {
        let pred = |r: TrialResult| r.is_valid();
        let r0 = rs[0];
        let tail = rs.drop_first();
        let singleton = seq![r0];
        let step = if r0.is_valid() {
            lb_insert(s, r0)
        } else {
            s
        };
        if r0.is_valid() {
            lemma_lb_insert_props(s, r0);
        }
        lemma_lb_append_all_props(step, tail);
        // the filtered batch splits as its head and its filtered tail
        assert(singleton + tail =~= rs);
        Seq::filter_distributes_over_add(singleton, tail, pred);
        assert(singleton.drop_last() =~= Seq::<TrialResult>::empty());
        assert(singleton.drop_last().filter(pred) =~= Seq::<TrialResult>::empty());
        let emp = Seq::<TrialResult>::empty();
        emp.to_multiset_ensures();
        assert(emp.to_multiset() =~= Multiset::<TrialResult>::empty()) by {
            assert forall|x: TrialResult| emp.to_multiset().count(x) == 0 by {
                if emp.to_multiset().count(x) > 0 {
                    assert(emp.contains(x));
                }
            }
        }
        assert(singleton =~= emp.push(r0));
        assert(singleton.to_multiset() =~= Multiset::<TrialResult>::empty().insert(r0));
        if r0.is_valid() {
            assert(singleton.filter(pred) =~= emp.push(r0));
            vstd::seq_lib::lemma_multiset_commutative(singleton.filter(pred), tail.filter(pred));
        } else {
            assert(singleton.filter(pred) =~= emp);
            vstd::seq_lib::lemma_multiset_commutative(singleton.filter(pred), tail.filter(pred));
        }
    }
}

/// The durable, resumable history of admitted trial outcomes, ascending
/// by held-out score. A not-a-number score never enters, however many
/// such trials are attempted.
pub struct Leaderboard {
    pub entries: Vec<TrialResult>,
}

impl Leaderboard {
    /// Sorted ascending by held-out score; no not-a-number entry.
    pub open spec fn well_formed(self) -> bool {
        sorted_by_key(self.entries@) && all_valid(self.entries@)
    }

    /// Zero prior trials: what a missing snapshot loads as.
    pub fn new() -> (lb: Leaderboard)
        ensures
            lb.entries@.len() == 0,
            lb.well_formed(),
    {
        Leaderboard { entries: Vec::new() }
    }

    /// Rebuilds a leaderboard from a loaded snapshot as if every record
    /// were appended in file order: not-a-number records are dropped and
    /// the order is restored, so a well-formed snapshot loads verbatim.
    pub fn from_entries(entries: &Vec<TrialResult>) -> (lb: Leaderboard)
        ensures
            lb.entries@ == lb_append_all(Seq::empty(), entries@),
            lb.well_formed(),
            sorted_by_key(entries@) && all_valid(entries@) ==> lb.entries@ == entries@,
    {
        let mut lb = Leaderboard { entries: Vec::new() };
        lb.append_many(entries);
        proof {
            if sorted_by_key(entries@) && all_valid(entries@) {
                lemma_load_identity(entries@);
            }
        }
        lb
    }

    pub fn len(&self) -> (n: usize)
        ensures
            n == self.entries@.len(),
    {
        self.entries.len()
    }

    /// Admits `r` exactly when its held-out score is numeric, keeping the
    /// order sorted and stable: the new entry lands after every entry
    /// scoring no higher. Returns whether it was admitted.
    pub fn append(&mut self, r: TrialResult) -> (added: bool)
        requires
            old(self).well_formed(),
        ensures
            final(self).well_formed(),
            added == r.is_valid(),
            r.is_valid() ==> final(self).entries@ == lb_insert(old(self).entries@, r),
            !r.is_valid() ==> final(self).entries@ == old(self).entries@,
    {
        if !r.valid() {
            return false;
        }
        let k = r.key_val();
        let n = self.entries.len();
        let mut i: usize = 0;
        proof {
            lemma_insert_pos_bounds(self.entries@, k);
            assert(self.entries@.skip(0) =~= self.entries@);
        }
        while i < n && self.entries[i].key_val() <= k
            invariant
                n == self.entries@.len(),
                i <= n,
                self.entries@ == old(self).entries@,
                0 <= insert_pos(self.entries@, k) <= n,
                insert_pos(self.entries@, k) == i + insert_pos(self.entries@.skip(i as int), k),
            decreases n - i,
        {
            proof {
                let rest = self.entries@.skip(i as int);
                assert(rest[0] == self.entries@[i as int]);
                assert(rest.drop_first() =~= self.entries@.skip(i as int + 1));
            }
            i = i + 1;
        }
        proof {
            let rest = self.entries@.skip(i as int);
            if i < n {
                assert(rest[0] == self.entries@[i as int]);
                assert(insert_pos(rest, k) == 0);
            }
            assert(insert_pos(self.entries@, k) == i);
            lemma_lb_insert_props(self.entries@, r);
        }
        self.entries.insert(i, r);
        true
    }

    /// Appends a whole batch in arrival order.
    pub fn append_many(&mut self, rs: &Vec<TrialResult>) -> (added: usize)
        requires
            old(self).well_formed(),
        ensures
            final(self).well_formed(),
            final(self).entries@ == lb_append_all(old(self).entries@, rs@),
            final(self).entries@.len() == old(self).entries@.len() + added,
            added == rs@.filter(|r: TrialResult| r.is_valid()).len(),
    {
        let n = rs.len();
        let mut added: usize = 0;
        proof {
            rs@.lemma_filter_len(|r: TrialResult| r.is_valid());
            assert(rs@.skip(0) =~= rs@);
            assert(rs@.take(0) =~= Seq::<TrialResult>::empty());
        }
        for i in 0..n
            invariant
                n == rs@.len(),
                self.well_formed(),
                added <= i,
                added == rs@.take(i as int).filter(|r: TrialResult| r.is_valid()).len(),
                lb_append_all(old(self).entries@, rs@) == lb_append_all(
                    self.entries@,
                    rs@.skip(i as int),
                ),
        {
            proof {
                let rest = rs@.skip(i as int);
                assert(rest[0] == rs@[i as int]);
                assert(rest.drop_first() =~= rs@.skip(i as int + 1));
                rs@.take(i as int).lemma_filter_push(rs@[i as int], |r: TrialResult| r.is_valid());
                assert(rs@.take(i as int).push(rs@[i as int]) =~= rs@.take(i as int + 1));
                rs@.take(i as int).lemma_filter_len(|r: TrialResult| r.is_valid());
            }
            let was = self.append(rs[i]);
            if was {
                added = added + 1;
            }
        }
        proof {
            assert(rs@.skip(rs@.len() as int) =~= Seq::<TrialResult>::empty());
            assert(rs@.take(rs@.len() as int) =~= rs@);
            lemma_lb_append_all_props(old(self).entries@, rs@);
        }
        added
    }

    /// The best-known outcome: the last, highest-scoring entry; absent
    /// only when there is no history at all.
    pub fn best(&self) -> (b: Option<TrialResult>)
        requires
            self.well_formed(),
        ensures
            b is Some <==> self.entries@.len() > 0,
            b is Some ==> b->Some_0 == self.entries@.last(),
            b is Some ==> forall|i: int|
                0 <= i < self.entries@.len() ==> (#[trigger] self.entries@[i]).key()
                    <= b->Some_0.key(),
    {
        let n = self.entries.len();
        if n == 0 {
            None
        } else {
            Some(self.entries[n - 1])
        }
    }
}

/// Filtering for validity keeps an all-valid batch whole.
proof fn lemma_filter_all_valid(s: Seq<TrialResult>)
    requires
        all_valid(s),
    ensures
        s.filter(|r: TrialResult| r.is_valid()) == s,
    decreases s.len(),
{
    reveal(Seq::filter);
    if s.len() > 0 {
        let s0 = s.drop_last();
        assert(all_valid(s0)) by {
            assert forall|i: int| 0 <= i < s0.len() implies (#[trigger] s0[i]).is_valid() by {
                assert(s0[i] == s[i]);
            }
        }
        lemma_filter_all_valid(s0);
        s0.lemma_filter_push(s.last(), |r: TrialResult| r.is_valid());
        assert(s0.push(s.last()) =~= s);
    }
}

/// Entries determine keys: a reordering of a tie-free collection is
/// tie-free too.
proof fn lemma_distinct_keys_transfer(s: Seq<TrialResult>, t: Seq<TrialResult>)
    requires
        s.to_multiset() == t.to_multiset(),
        distinct_keys(s),
    ensures
        distinct_keys(t),
{
    s.to_multiset_ensures();
    t.to_multiset_ensures();
    assert forall|i: int, j: int|
        0 <= i < t.len() && 0 <= j < t.len() && i != j implies (#[trigger] t[i]).key() != (
        #[trigger] t[j]).key() by {
        if t[i].key() == t[j].key() {
            if t[i] == t[j] {
                // one value twice in t means a count of at least two,
                // so two distinct positions in s share that key
                let v = t[i];
                assert(t.remove(i).to_multiset() =~= t.to_multiset().remove(v));
                t.remove_ensures(i);
                let j2: int = if j < i {
                    j
                } else {
                    j - 1
                };
                assert(t.remove(i)[j2] == v);
                assert(t.remove(i).contains(v));
                t.remove(i).to_multiset_ensures();
                assert(t.remove(i).to_multiset().count(v) > 0);
                assert(t.to_multiset().remove(v).count(v) > 0);
                assert(t.to_multiset().count(v) >= 2);
                assert(s.to_multiset().count(v) >= 2);
                assert(s.contains(v));
                let a = choose|a: int| 0 <= a < s.len() && s[a] == v;
                assert(s.remove(a).to_multiset() =~= s.to_multiset().remove(v));
                s.remove(a).to_multiset_ensures();
                assert(s.remove(a).to_multiset().count(v) > 0);
                assert(s.remove(a).contains(v));
                let b2 = choose|b2: int| 0 <= b2 < s.remove(a).len() && s.remove(a)[b2] == v;
                s.remove_ensures(a);
                let b: int = if b2 < a {
                    b2
                } else {
                    b2 + 1
                };
                assert(s[b] == v && b != a);
            } else {
                assert(t.contains(t[i]) && t.contains(t[j]));
                assert(t.to_multiset().count(t[i]) > 0 && t.to_multiset().count(t[j]) > 0);
                assert(s.to_multiset().count(t[i]) > 0 && s.to_multiset().count(t[j]) > 0);
                assert(s.contains(t[i]) && s.contains(t[j]));
                let a = choose|a: int| 0 <= a < s.len() && s[a] == t[i];
                let b = choose|b: int| 0 <= b < s.len() && s[b] == t[j];
                assert(a != b);
            }
        }
    }
}

/// Sorted, tie-free sequences holding the same entries are identical.
pub proof fn lemma_sorted_unique(s1: Seq<TrialResult>, s2: Seq<TrialResult>)
    requires
        sorted_by_key(s1),
        sorted_by_key(s2),
        distinct_keys(s1),
        s1.to_multiset() == s2.to_multiset(),
    ensures
        s1 == s2,
    decreases s1.len(),
{
    s1.to_multiset_ensures();
    s2.to_multiset_ensures();
    assert(s1.len() == s2.len());
    if s1.len() == 0 {
        assert(s1 =~= s2);
    } else {
        let v1 = s1.last();
        let v2 = s2.last();
        assert(s1.contains(v1) && s2.contains(v2));
        assert(s1.to_multiset().count(v1) > 0 && s2.to_multiset().count(v2) > 0);
        assert(s2.to_multiset().count(v1) > 0 && s1.to_multiset().count(v2) > 0);
        assert(s2.contains(v1) && s1.contains(v2));
        let a = choose|a: int| 0 <= a < s2.len() && s2[a] == v1;
        let b = choose|b: int| 0 <= b < s1.len() && s1[b] == v2;
        assert(s2[a].key() <= s2[s2.len() - 1].key());
        assert(s1[b].key() <= s1[s1.len() - 1].key());
        assert(v1.key() == v2.key());
        assert(b == s1.len() - 1);
        assert(v1 == v2);
        let t1 = s1.drop_last();
        let t2 = s2.drop_last();
        assert(t1.push(v1) =~= s1);
        assert(t2.push(v1) =~= s2);
        t1.to_multiset_ensures();
        t2.to_multiset_ensures();
        assert(t1.to_multiset().insert(v1) =~= s1.to_multiset());
        assert(t2.to_multiset().insert(v1) =~= s2.to_multiset());
        assert(t1.to_multiset() =~= t2.to_multiset()) by {
            assert forall|x: TrialResult| t1.to_multiset().count(x) == t2.to_multiset().count(
                x,
            ) by {
                assert(t1.to_multiset().insert(v1).count(x) == t2.to_multiset().insert(v1).count(
                    x,
                ));
            }
        }
        assert(sorted_by_key(t1)) by {
            assert forall|i: int, j: int| 0 <= i <= j < t1.len() implies (#[trigger] t1[i]).key()
                <= (#[trigger] t1[j]).key() by {
                assert(t1[i] == s1[i] && t1[j] == s1[j]);
            }
        }
        assert(sorted_by_key(t2)) by {
            assert forall|i: int, j: int| 0 <= i <= j < t2.len() implies (#[trigger] t2[i]).key()
                <= (#[trigger] t2[j]).key() by {
                assert(t2[i] == s2[i] && t2[j] == s2[j]);
            }
        }
        assert(distinct_keys(t1)) by {
            assert forall|i: int, j: int|
                0 <= i < t1.len() && 0 <= j < t1.len() && i != j implies (
            #[trigger] t1[i]).key() != (#[trigger] t1[j]).key() by {
                assert(t1[i] == s1[i] && t1[j] == s1[j]);
            }
        }
        lemma_sorted_unique(t1, t2);
        assert(s1 =~= s2);
    }
}

/// Appending the same valid results in any arrival order yields the same
/// final leaderboard, as long as no two of the entries involved tie on
/// key; with ties, arrival order decides how equal scores are ordered.
pub proof fn lemma_append_order_independent(
    base: Seq<TrialResult>,
    rs1: Seq<TrialResult>,
    rs2: Seq<TrialResult>,
)
    requires
        sorted_by_key(base),
        all_valid(base),
        all_valid(rs1),
        all_valid(rs2),
        rs1.to_multiset() == rs2.to_multiset(),
        distinct_keys(base + rs1),
    ensures
        lb_append_all(base, rs1) == lb_append_all(base, rs2),
{
    let out1 = lb_append_all(base, rs1);
    let out2 = lb_append_all(base, rs2);
    lemma_lb_append_all_props(base, rs1);
    lemma_lb_append_all_props(base, rs2);
    lemma_filter_all_valid(rs1);
    lemma_filter_all_valid(rs2);
    vstd::seq_lib::lemma_multiset_commutative(base, rs1);
    assert(out1.to_multiset() =~= (base + rs1).to_multiset());
    assert(out2.to_multiset() =~= (base + rs1).to_multiset());
    lemma_distinct_keys_transfer(base + rs1, out1);
    lemma_sorted_unique(out1, out2);
}

/// Inserting a result scoring at least everything present lands at the end.
proof fn lemma_insert_pos_at_end(s: Seq<TrialResult>, k: u64)
    requires
        forall|j: int| 0 <= j < s.len() ==> (#[trigger] s[j]).key() <= k,
    ensures
        insert_pos(s, k) == s.len(),
    decreases s.len(),
{
    if s.len() > 0 {
        let t = s.drop_first();
        assert forall|j: int| 0 <= j < t.len() implies (#[trigger] t[j]).key() <= k by {
            assert(t[j] == s[j + 1]);
        }
        lemma_insert_pos_at_end(t, k);
    }
}

/// Re-appending an already sorted, all-valid history onto a prefix it
/// extends reproduces it verbatim.
proof fn lemma_append_all_sorted_identity(base: Seq<TrialResult>, s: Seq<TrialResult>)
    requires
        sorted_by_key(base + s),
        all_valid(s),
    ensures
        lb_append_all(base, s) == base + s,
    decreases s.len(),
{
    if s.len() == 0 {
        assert(base + s =~= base);
    } else {
        let r0 = s[0];
        let tail = s.drop_first();
        assert forall|j: int| 0 <= j < base.len() implies (#[trigger] base[j]).key()
            <= r0.key() by {
            assert((base + s)[j] == base[j]);
            assert((base + s)[base.len() as int] == r0);
        }
        lemma_insert_pos_at_end(base, r0.key());
        assert(lb_insert(base, r0) =~= base.push(r0));
        assert(base.push(r0) + tail =~= base + s);
        lemma_append_all_sorted_identity(base.push(r0), tail);
        assert(lb_append_all(base, s) == lb_append_all(base.push(r0), tail));
    }
}

/// Loading a well-formed snapshot reproduces it entry for entry: loading
/// and persisting with nothing new appended leaves the history unchanged.
pub proof fn lemma_load_identity(s: Seq<TrialResult>)
    requires
        sorted_by_key(s),
        all_valid(s),
    ensures
        lb_append_all(Seq::empty(), s) == s,
{
    assert(sorted_by_key(Seq::<TrialResult>::empty() + s)) by {
        assert(Seq::<TrialResult>::empty() + s =~= s);
    }
    lemma_append_all_sorted_identity(Seq::empty(), s);
    assert(Seq::<TrialResult>::empty() + s =~= s);
}

/// The best-known score never decreases across persisted snapshots:
/// admitting one more result can only raise the top of the order.
pub proof fn lemma_best_monotone(s: Seq<TrialResult>, r: TrialResult)
    requires
        sorted_by_key(s),
        s.len() > 0,
    ensures
        lb_insert(s, r).last().key() >= s.last().key(),
{
    let k = r.key();
    let pos = insert_pos(s, k);
    lemma_insert_pos_split(s, k);
    s.insert_ensures(pos, r);
    let out = lb_insert(s, r);
    if pos == s.len() {
        assert(out.last() == r);
        assert(s[s.len() - 1].key() <= k);
    } else {
        assert(out[s.len() as int] == s[s.len() - 1]);
    }
}

} // verus!
