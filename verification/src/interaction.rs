use vstd::prelude::*;

verus! {

/// One observed user-item event. `recency` orders one user's events from
/// oldest to newest; the splitter expects it to be distinct within a user.
#[derive(Clone, Copy, PartialEq, Eq, Structural, Debug, Hash)]
pub struct Interaction {
    pub user_id: u64,
    pub item_id: u64,
    pub recency: u64,
}

impl Interaction {
    pub fn new(user_id: u64, item_id: u64, recency: u64) -> (r: Interaction)
        ensures
            r == (Interaction { user_id, item_id, recency }),
    {
        Interaction { user_id, item_id, recency }
    }
}

/// How many of `s` belong to user `u`.
pub open spec fn user_count(s: Seq<Interaction>, u: u64) -> nat {
    s.filter(|x: Interaction| x.user_id == u).len()
}

/// How many of `s` belong to `x`'s user and are more recent than `x`.
pub open spec fn newer_count(s: Seq<Interaction>, x: Interaction) -> nat {
    s.filter(|y: Interaction| y.user_id == x.user_id && y.recency > x.recency).len()
}

/// No user has two events with the same recency mark.
pub open spec fn distinct_recency_per_user(s: Seq<Interaction>) -> bool {
    forall|i: int, j: int|
        0 <= i < s.len() && 0 <= j < s.len() && i != j && s[i].user_id == s[j].user_id
            ==> s[i].recency != s[j].recency
}

/// Whether some group of `gs` carries user `u`.
pub open spec fn has_user(gs: Seq<UserGroup>, u: u64) -> bool {
    exists|k: int| 0 <= k < gs.len() && (#[trigger] gs[k]).user_id == u
}

/// An unordered collection of interactions, held in arrival order; the
/// flat and the grouped projections below both present exactly this
/// collection, with nothing duplicated and nothing lost.
pub struct InteractionSet {
    pub records: Vec<Interaction>,
}

impl View for InteractionSet {
    type V = Seq<Interaction>;

    open spec fn view(&self) -> Seq<Interaction> {
        self.records@
    }
}

/// All of one user's interactions, in arrival order: one entry of the
/// grouped projection used for evaluation.
pub struct UserGroup {
    pub user_id: u64,
    pub items: Vec<Interaction>,
}

impl InteractionSet {
    pub fn from_vec(records: Vec<Interaction>) -> (r: InteractionSet)
        ensures
            r@ == records@,
    {
        InteractionSet { records }
    }

    pub fn len(&self) -> (n: usize)
        ensures
            n == self@.len(),
    {
        self.records.len()
    }

    /// The flat ordered projection used for fitting: parallel columns of
    /// user, item and recency, row for row the source records.
    pub fn triplet(&self) -> (t: (Vec<u64>, Vec<u64>, Vec<u64>))
        ensures
            t.0@.len() == self@.len(),
            t.1@.len() == self@.len(),
            t.2@.len() == self@.len(),
            forall|i: int| 0 <= i < self@.len() ==> t.0@[i] == self@[i].user_id,
            forall|i: int| 0 <= i < self@.len() ==> t.1@[i] == self@[i].item_id,
            forall|i: int| 0 <= i < self@.len() ==> t.2@[i] == self@[i].recency,
    {
        let mut users: Vec<u64> = Vec::new();
        let mut items: Vec<u64> = Vec::new();
        let mut recencies: Vec<u64> = Vec::new();
        let n = self.records.len();
        for i in 0..n
            invariant
                n == self@.len(),
                users@.len() == i,
                items@.len() == i,
                recencies@.len() == i,
                forall|j: int| 0 <= j < i ==> users@[j] == self@[j].user_id,
                forall|j: int| 0 <= j < i ==> items@[j] == self@[j].item_id,
                forall|j: int| 0 <= j < i ==> recencies@[j] == self@[j].recency,
        {
            users.push(self.records[i].user_id);
            items.push(self.records[i].item_id);
            recencies.push(self.records[i].recency);
        }
        (users, items, recencies)
    }

    /// One more than the largest user identifier, zero for an empty set.
    pub fn num_users(&self) -> (n: u64)
        requires
            forall|i: int| 0 <= i < self@.len() ==> #[trigger] self@[i].user_id < u64::MAX,
        ensures
            forall|i: int| 0 <= i < self@.len() ==> #[trigger] self@[i].user_id < n,
            n > 0 ==> exists|i: int| 0 <= i < self@.len() && self@[i].user_id + 1 == n,
    {
        let mut n: u64 = 0;
        let len = self.records.len();
        for i in 0..len
            invariant
                len == self@.len(),
                forall|j: int| 0 <= j < self@.len() ==> #[trigger] self@[j].user_id < u64::MAX,
                forall|j: int| 0 <= j < i ==> #[trigger] self@[j].user_id < n,
                n > 0 ==> exists|j: int| 0 <= j < i && self@[j].user_id + 1 == n,
        {
            if self.records[i].user_id + 1 > n {
                n = self.records[i].user_id + 1;
            }
        }
        n
    }

    /// One more than the largest item identifier, zero for an empty set.
    pub fn num_items(&self) -> (n: u64)
        requires
            forall|i: int| 0 <= i < self@.len() ==> #[trigger] self@[i].item_id < u64::MAX,
        ensures
            forall|i: int| 0 <= i < self@.len() ==> #[trigger] self@[i].item_id < n,
            n > 0 ==> exists|i: int| 0 <= i < self@.len() && self@[i].item_id + 1 == n,
    {
        let mut n: u64 = 0;
        let len = self.records.len();
        for i in 0..len
            invariant
                len == self@.len(),
                forall|j: int| 0 <= j < self@.len() ==> #[trigger] self@[j].item_id < u64::MAX,
                forall|j: int| 0 <= j < i ==> #[trigger] self@[j].item_id < n,
                n > 0 ==> exists|j: int| 0 <= j < i && self@[j].item_id + 1 == n,
        {
            if self.records[i].item_id + 1 > n {
                n = self.records[i].item_id + 1;
            }
        }
        n
    }

    /// The per-user grouped projection used for evaluation. Each group
    /// holds exactly the source records of its user, in source order; no
    /// two groups share a user; every record's user has a group.
    pub fn grouped(&self) -> (gs: Vec<UserGroup>)
        ensures
            forall|k: int|
                0 <= k < gs@.len() ==> (#[trigger] gs@[k]).items@ == self@.filter(
                    |x: Interaction| x.user_id == gs@[k].user_id,
                ),
            forall|k: int, l: int|
                0 <= k < gs@.len() && 0 <= l < gs@.len() && k != l ==> (#[trigger] gs@[k]).user_id
                    != (#[trigger] gs@[l]).user_id,
            forall|j: int|
                0 <= j < self@.len() ==> has_user(gs@, (#[trigger] self@[j]).user_id),
            forall|k: int| 0 <= k < gs@.len() ==> (#[trigger] gs@[k]).items@.len() > 0,
    {
        let mut gs: Vec<UserGroup> = Vec::new();
        let n = self.records.len();
        for i in 0..n
            invariant
                n == self@.len(),
                forall|k: int|
                    0 <= k < gs@.len() ==> (#[trigger] gs@[k]).items@ == self@.filter(
                        |x: Interaction| x.user_id == gs@[k].user_id,
                    ),
                forall|k: int, l: int|
                    0 <= k < gs@.len() && 0 <= l < gs@.len() && k != l ==> (
                    #[trigger] gs@[k]).user_id != (#[trigger] gs@[l]).user_id,
                forall|j: int| 0 <= j < i ==> has_user(gs@, (#[trigger] self@[j]).user_id),
                forall|k: int| 0 <= k < gs@.len() ==> (#[trigger] gs@[k]).items@.len() > 0,
        {
            let ghost pre = gs@;
            let u = self.records[i].user_id;
            let mut seen = false;
            let glen = gs.len();
            for k in 0..glen
                invariant
                    glen == gs@.len(),
                    seen ==> has_user(gs@, u),
                    !seen ==> forall|k2: int| 0 <= k2 < k ==> (#[trigger] gs@[k2]).user_id != u,
            {
                if gs[k].user_id == u {
                    seen = true;
                    assert(has_user(gs@, u));
                }
            }
            if !seen {
                let items = collect_user(&self.records, u);
                proof {
                    self@.lemma_filter_contains(|x: Interaction| x.user_id == u, i as int);
                }
                gs.push(UserGroup { user_id: u, items });
                assert(gs@[gs@.len() - 1].user_id == u);
                assert(gs@[gs@.len() - 1].items@.len() > 0);
                assert forall|w: u64| has_user(pre, w) implies has_user(gs@, w) by {
                    let k = choose|k: int| 0 <= k < pre.len() && (#[trigger] pre[k]).user_id == w;
                    assert(gs@[k].user_id == w);
                }
            }
            assert(has_user(gs@, u));
        }
        gs
    }
}

/// Exactly user `u`'s records of `records`, in source order.
pub fn collect_user(records: &Vec<Interaction>, u: u64) -> (out: Vec<Interaction>)
    ensures
        out@ == records@.filter(|x: Interaction| x.user_id == u),
{
    let mut out: Vec<Interaction> = Vec::new();
    let n = records.len();
    for i in 0..n
        invariant
            n == records@.len(),
            out@ == records@.take(i as int).filter(|x: Interaction| x.user_id == u),
    {
        let x = records[i];
        proof {
            records@.take(i as int).lemma_filter_push(
                records@[i as int],
                |x: Interaction| x.user_id == u,
            );
            assert(records@.take(i as int).push(records@[i as int]) =~= records@.take(
                i as int + 1,
            ));
        }
        if x.user_id == u {
            out.push(x);
        }
    }
    proof {
        assert(records@.take(records@.len() as int) =~= records@);
    }
    out
}

/// Builds the store from parsed `(user, item)` rows in file order,
/// reading at most `cap` rows for very large sources. The row index is
/// the recency proxy: rows arrive oldest first.
pub fn from_rows(rows: &Vec<(u64, u64)>, cap: usize) -> (r: InteractionSet)
    ensures
        r@.len() == if cap < rows@.len() {
            cap as int
        } else {
            rows@.len() as int
        },
        forall|i: int|
            0 <= i < r@.len() ==> r@[i] == (Interaction {
                user_id: rows@[i].0,
                item_id: rows@[i].1,
                recency: i as u64,
            }),
{
    let mut records: Vec<Interaction> = Vec::new();
    let n = if cap < rows.len() {
        cap
    } else {
        rows.len()
    };
    for i in 0..n
        invariant
            n <= rows@.len(),
            records@.len() == i,
            forall|j: int|
                0 <= j < i ==> records@[j] == (Interaction {
                    user_id: rows@[j].0,
                    item_id: rows@[j].1,
                    recency: j as u64,
                }),
    {
        let (u, it) = rows[i];
        records.push(Interaction { user_id: u, item_id: it, recency: i as u64 });
    }
    InteractionSet { records }
}

} // verus!
