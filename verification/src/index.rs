use vstd::prelude::*;
use crate::timestamp::Timestamp;
use crate::timestamp::ts_before;

verus! {

/// One favourited item on the remote service: when it was favourited,
/// and the remote identifier needed to unfavourite it.
#[derive(Clone, Copy, PartialEq, Eq, Structural, Debug)]
pub struct FavoriteRecord {
    pub ts: Timestamp,
    pub id: u64,
}

/// Entries strictly ascending by timestamp key (so keys are unique),
/// every timestamp well formed.
pub open spec fn sorted_wf(s: Seq<FavoriteRecord>) -> bool {
    &&& forall|i: int, j: int|
        0 <= i < j < s.len() ==> s[i].ts.key() < s[j].ts.key()
    &&& forall|i: int| 0 <= i < s.len() ==> s[i].ts.wf()
}

/// What keyed insertion yields: the record goes to its place in key order,
/// and an entry with the very same timestamp is silently overwritten —
/// the later insertion wins, an accepted collision limitation.
pub open spec fn spec_insert(s: Seq<FavoriteRecord>, r: FavoriteRecord) -> Seq<FavoriteRecord>
    decreases s.len(),
{
    if s.len() == 0 {
        seq![r]
    } else if s[0].ts.key() < r.ts.key() {
        seq![s[0]] + spec_insert(s.drop_first(), r)
    } else if s[0].ts.key() == r.ts.key() {
        seq![r] + s.drop_first()
    } else {
        seq![r] + s
    }
}

/// An ordered mapping from favourite timestamp to remote id, the local
/// snapshot of what the account has favourited.
pub struct FavoriteIndex {
    pub entries: Vec<FavoriteRecord>,
}

impl View for FavoriteIndex {
    type V = Seq<FavoriteRecord>;

    open spec fn view(&self) -> Seq<FavoriteRecord> {
        self.entries@
    }
}

/// On a sorted sequence, `spec_insert` lands at the first position whose key
/// is not below the new record's, either overwriting or shifting the tail.
proof fn lemma_spec_insert_at(s: Seq<FavoriteRecord>, r: FavoriteRecord, i: int)
    requires
        0 <= i <= s.len(),
        forall|j: int| 0 <= j < i ==> s[j].ts.key() < r.ts.key(),
        i < s.len() ==> s[i].ts.key() >= r.ts.key(),
    ensures
        i < s.len() && s[i].ts.key() == r.ts.key() ==> spec_insert(s, r) == s.update(i, r),
        !(i < s.len() && s[i].ts.key() == r.ts.key()) ==> spec_insert(s, r) == s.insert(i, r),
    decreases i,
{
    if i == 0 {
        if s.len() == 0 {
            assert(spec_insert(s, r) =~= s.insert(0, r));
        } else if s[0].ts.key() == r.ts.key() {
            assert(spec_insert(s, r) =~= s.update(0, r));
        } else {
            assert(s[0].ts.key() > r.ts.key());
            assert(spec_insert(s, r) =~= s.insert(0, r));
        }
    } else {
        let t = s.drop_first();
        assert(forall|j: int| 0 <= j < i - 1 ==> t[j].ts.key() < r.ts.key());
        lemma_spec_insert_at(t, r, i - 1);
        assert(s[0].ts.key() < r.ts.key());
        assert(spec_insert(s, r) == seq![s[0]] + spec_insert(t, r));
        if i < s.len() && s[i].ts.key() == r.ts.key() {
            assert(spec_insert(t, r) == t.update(i - 1, r));
            assert(seq![s[0]] + t.update(i - 1, r) =~= s.update(i, r));
        } else {
            assert(spec_insert(t, r) == t.insert(i - 1, r));
            assert(seq![s[0]] + t.insert(i - 1, r) =~= s.insert(i, r));
        }
    }
}

/// Keyed insertion into a sorted sequence keeps it sorted and well formed.
pub proof fn lemma_spec_insert_sorted(s: Seq<FavoriteRecord>, r: FavoriteRecord)
    requires
        sorted_wf(s),
        r.ts.wf(),
    ensures
        sorted_wf(spec_insert(s, r)),
    decreases s.len(),
{
    if s.len() == 0 {
    } else if s[0].ts.key() < r.ts.key() {
        let t = s.drop_first();
        assert(forall|j: int| 0 <= j < t.len() ==> t[j] == s[j + 1]);
        lemma_spec_insert_sorted(t, r);
        lemma_spec_insert_membership(t, r);
        let u = spec_insert(t, r);
        assert(forall|j: int| 0 <= j < t.len() ==> s[0].ts.key() < t[j].ts.key());
        assert forall|k: int| 0 <= k < u.len() implies s[0].ts.key() < u[k].ts.key() by {
            if u[k] != r {
                assert(t.contains(u[k]));
            }
        }
        assert(spec_insert(s, r) == seq![s[0]] + u);
        assert(forall|k: int| 1 <= k < spec_insert(s, r).len() ==> spec_insert(s, r)[k] == u[k - 1]);
    } else {
    }
}

/// Every entry of a keyed insertion is the new record or an old entry,
/// and its length grows exactly when no old entry shared the key.
pub proof fn lemma_spec_insert_membership(s: Seq<FavoriteRecord>, r: FavoriteRecord)
    requires
        sorted_wf(s),
        r.ts.wf(),
    ensures
        forall|k: int|
            0 <= k < spec_insert(s, r).len() ==> (spec_insert(s, r)[k] == r || s.contains(
                spec_insert(s, r)[k],
            )),
        spec_insert(s, r).contains(r),
        spec_insert(s, r).len() == s.len() + (if exists|j: int|
            0 <= j < s.len() && s[j].ts.key() == r.ts.key() {
            0int
        } else {
            1int
        }),
    decreases s.len(),
{
    if s.len() == 0 {
        assert(spec_insert(s, r)[0] == r);
    } else if s[0].ts.key() < r.ts.key() {
        let t = s.drop_first();
        assert(forall|j: int| 0 <= j < t.len() ==> t[j] == s[j + 1]);
        lemma_spec_insert_membership(t, r);
        assert(spec_insert(s, r) == seq![s[0]] + spec_insert(t, r));
        let u = spec_insert(t, r);
        let k = choose|k: int| 0 <= k < u.len() && u[k] == r;
        assert(spec_insert(s, r)[k + 1] == r);
        assert(spec_insert(s, r)[0] == s[0]);
        assert(s.contains(s[0]));
        assert(forall|k: int|
            1 <= k < spec_insert(s, r).len() && spec_insert(s, r)[k] != r ==> t.contains(
                spec_insert(s, r)[k],
            ));
        assert(forall|e: FavoriteRecord| t.contains(e) ==> s.contains(e));
        if exists|j: int| 0 <= j < s.len() && s[j].ts.key() == r.ts.key() {
            let j = choose|j: int| 0 <= j < s.len() && s[j].ts.key() == r.ts.key();
            assert(j != 0);
            assert(t[j - 1].ts.key() == r.ts.key());
        }
        if exists|j: int| 0 <= j < t.len() && t[j].ts.key() == r.ts.key() {
            let j = choose|j: int| 0 <= j < t.len() && t[j].ts.key() == r.ts.key();
            assert(s[j + 1].ts.key() == r.ts.key());
        }
    } else if s[0].ts.key() == r.ts.key() {
        assert(spec_insert(s, r) == seq![r] + s.drop_first());
        assert(forall|k: int|
            1 <= k < spec_insert(s, r).len() ==> spec_insert(s, r)[k] == s[k] && s.contains(s[k]));
        assert(spec_insert(s, r)[0] == r);
        assert(s[0].ts.key() == r.ts.key());
    } else {
        assert(spec_insert(s, r) == seq![r] + s);
        assert(spec_insert(s, r)[0] == r);
        assert(forall|k: int|
            1 <= k < spec_insert(s, r).len() ==> spec_insert(s, r)[k] == s[k - 1] && s.contains(
                s[k - 1],
            ));
        assert(forall|j: int| 0 < j < s.len() ==> #[trigger] s[j].ts.key() > s[0].ts.key());
        assert(forall|j: int| 0 <= j < s.len() ==> #[trigger] s[j].ts.key() > r.ts.key());
    }
}

impl FavoriteIndex {
    /// Sorted, unique keys, well-formed timestamps.
    pub open spec fn wf(self) -> bool {
        sorted_wf(self@)
    }

    /// An empty index.
    pub fn new() -> (r: Self)
        ensures
            r@ == Seq::<FavoriteRecord>::empty(),
            r.wf(),
    {
        FavoriteIndex { entries: Vec::new() }
    }

    /// Number of cached favourites.
    pub fn len(&self) -> (r: usize)
        ensures
            r == self@.len(),
    {
        self.entries.len()
    }

    /// Whether the index holds no entries at all.
    pub fn is_empty(&self) -> (r: bool)
        ensures
            r == (self@.len() == 0),
    {
        self.entries.len() == 0
    }

    /// The entry at position `i` in ascending timestamp order.
    pub fn record_at(&self, i: usize) -> (r: FavoriteRecord)
        requires
            i < self@.len(),
        ensures
            r == self@[i as int],
    {
        self.entries[i]
    }

    /// Insert keyed by timestamp; an entry with an equal timestamp is
    /// silently overwritten by the newcomer.
    pub fn insert(&mut self, rec: FavoriteRecord)
        requires
            old(self).wf(),
            rec.ts.wf(),
        ensures
            final(self)@ == spec_insert(old(self)@, rec),
            final(self).wf(),
    {
        let ghost s0 = self.entries@;
        let mut i: usize = 0;
        while i < self.entries.len() && ts_before(&self.entries[i].ts, &rec.ts)
            invariant
                i <= self.entries.len(),
                self.entries@ == s0,
                forall|j: int| 0 <= j < i ==> s0[j].ts.key() < rec.ts.key(),
            decreases self.entries.len() - i,
        {
            i = i + 1;
        }
        proof {
            lemma_spec_insert_at(s0, rec, i as int);
            lemma_spec_insert_sorted(s0, rec);
        }
        if i < self.entries.len() && !ts_before(&rec.ts, &self.entries[i].ts) {
            assert(s0[i as int].ts.key() == rec.ts.key());
            self.entries.remove(i);
            self.entries.insert(i, rec);
            assert(self.entries@ =~= s0.update(i as int, rec));
        } else {
            self.entries.insert(i, rec);
        }
    }
}

} // verus!
