use vstd::prelude::*;
use crate::index::FavoriteIndex;
use crate::index::FavoriteRecord;
use crate::timestamp::Timestamp;
use crate::timestamp::ts_before;

verus! {

/// What one remote unfavourite attempt came to.
#[derive(Clone, Copy, PartialEq, Eq, Structural, Debug)]
pub enum DeleteOutcome {
    /// The remote service removed the favourite.
    Succeeded,
    /// The remote item was already gone — deleted by the user or elsewhere.
    NotFound,
    /// Any other failure: network, auth, rate limit, server error. Fatal.
    Failed,
}

/// Outcomes after which the entry no longer exists remotely, so it may be
/// dropped from the local snapshot.
pub open spec fn handled(o: DeleteOutcome) -> bool {
    o == DeleteOutcome::Succeeded || o == DeleteOutcome::NotFound
}

/// Exec mirror of `handled`.
pub fn outcome_handled(o: &DeleteOutcome) -> (r: bool)
    ensures
        r == handled(*o),
{
    match o {
        DeleteOutcome::Succeeded => true,
        DeleteOutcome::NotFound => true,
        DeleteOutcome::Failed => false,
    }
}

/// One run's deletion pass over an index. The entries strictly older than
/// the cutoff form a prefix of the (ascending) index; they are attempted
/// oldest first. Handled entries advance a watermark; any other failure
/// aborts the run, and the residual keeps everything from the failed entry on.
pub struct Reconciler {
    pub index: FavoriteIndex,
    pub cutoff: Timestamp,
    pub old_count: usize,
    pub handled_count: usize,
    pub aborted: bool,
}

impl Reconciler {
    pub open spec fn wf(self) -> bool {
        &&& self.index.wf()
        &&& self.handled_count <= self.old_count <= self.index@.len()
        &&& forall|i: int|
            0 <= i < self.old_count ==> #[trigger] self.index@[i].ts.key() < self.cutoff.key()
        &&& forall|i: int|
            self.old_count <= i < self.index@.len() ==> #[trigger] self.index@[i].ts.key()
                >= self.cutoff.key()
    }

    /// Start a pass: select every entry strictly older than the cutoff —
    /// an entry exactly at the cutoff is retained.
    pub fn new(index: FavoriteIndex, cutoff: Timestamp) -> (r: Reconciler)
        requires
            index.wf(),
        ensures
            r.wf(),
            r.index@ == index@,
            r.cutoff == cutoff,
            r.handled_count == 0,
            !r.aborted,
    {
        let mut n: usize = 0;
        while n < index.len() && ts_before(&index.record_at(n).ts, &cutoff)
            invariant
                n <= index@.len(),
                forall|j: int| 0 <= j < n ==> #[trigger] index@[j].ts.key() < cutoff.key(),
                index.wf(),
            decreases index@.len() - n,
        {
            n = n + 1;
        }
        proof {
            if n < index@.len() {
                assert(index@[n as int].ts.key() >= cutoff.key());
                assert forall|i: int| n <= i < index@.len() implies #[trigger] index@[i].ts.key()
                    >= cutoff.key() by {
                    if i > n {
                        assert(index@[n as int].ts.key() < index@[i].ts.key());
                    }
                }
            }
        }
        Reconciler { index, cutoff, old_count: n, handled_count: 0, aborted: false }
    }

    /// The next entry whose deletion should be attempted, oldest first;
    /// nothing once the pass is complete or aborted.
    pub fn next_target(&self) -> (r: Option<FavoriteRecord>)
        requires
            self.wf(),
        ensures
            !self.aborted && self.handled_count < self.old_count ==> r == Some(
                self.index@[self.handled_count as int],
            ),
            self.aborted || self.handled_count >= self.old_count ==> r is None,
    {
        if !self.aborted && self.handled_count < self.old_count {
            Some(self.index.record_at(self.handled_count))
        } else {
            None
        }
    }

    /// Record what the remote call for the current target came to.
    pub fn record_outcome(&mut self, o: DeleteOutcome)
        requires
            old(self).wf(),
            !old(self).aborted,
            old(self).handled_count < old(self).old_count,
        ensures
            final(self).wf(),
            *final(self) == spec_step(*old(self), o),
    {
        if outcome_handled(&o) {
            self.handled_count = self.handled_count + 1;
        } else {
            self.aborted = true;
        }
    }

    /// Whether the pass has nothing further to attempt.
    pub fn done(&self) -> (r: bool)
        ensures
            r == (self.aborted || self.handled_count >= self.old_count),
    {
        self.aborted || self.handled_count >= self.old_count
    }

    /// Whether the pass stopped on a fatal remote error.
    pub fn was_aborted(&self) -> (r: bool)
        ensures
            r == self.aborted,
    {
        self.aborted
    }

    /// The index as it must now be persisted: entries confirmed gone are
    /// removed; the failed entry, the never-attempted ones, and everything
    /// not older than the cutoff all stay.
    pub fn residual(&self) -> (r: FavoriteIndex)
        requires
            self.wf(),
        ensures
            r@ == self.index@.skip(self.handled_count as int),
            r.wf(),
    {
        let mut out: Vec<FavoriteRecord> = Vec::new();
        let mut i: usize = self.handled_count;
        while i < self.index.len()
            invariant
                self.handled_count <= i <= self.index@.len(),
                out@ == self.index@.subrange(self.handled_count as int, i as int),
                self.wf(),
            decreases self.index@.len() - i,
        {
            let rec = self.index.record_at(i);
            out.push(rec);
            proof {
                assert(out@ =~= self.index@.subrange(self.handled_count as int, i + 1));
            }
            i = i + 1;
        }
        proof {
            assert(out@ =~= self.index@.skip(self.handled_count as int));
            let s = self.index@.skip(self.handled_count as int);
            assert(forall|j: int| 0 <= j < s.len() ==> s[j] == self.index@[
                j + self.handled_count]);
        }
        FavoriteIndex { entries: out }
    }
}

/// One transition of the pass: a handled outcome advances the watermark,
/// any other outcome aborts the run on the spot.
pub open spec fn spec_step(r: Reconciler, o: DeleteOutcome) -> Reconciler {
    if handled(o) {
        Reconciler { handled_count: (r.handled_count + 1) as usize, ..r }
    } else {
        Reconciler { aborted: true, ..r }
    }
}

/// The pass after a whole sequence of outcomes, applied in order.
pub open spec fn spec_run(r: Reconciler, outcomes: Seq<DeleteOutcome>) -> Reconciler
    decreases outcomes.len(),
{
    if outcomes.len() == 0 {
        r
    } else {
        spec_run(spec_step(r, outcomes[0]), outcomes.drop_first())
    }
}

/// Cutoff boundary: position `i` is selected for deletion exactly when its
/// timestamp is strictly before the cutoff. An entry whose timestamp equals
/// the cutoff is never selected; one a single unit earlier always is.
pub proof fn lemma_cutoff_boundary(r: Reconciler, i: int)
    requires
        r.wf(),
        0 <= i < r.index@.len(),
    ensures
        (i < r.old_count) == (r.index@[i].ts.key() < r.cutoff.key()),
{
    if i < r.old_count {
        assert(r.index@[i].ts.key() < r.cutoff.key());
    } else {
        assert(r.index@[i].ts.key() >= r.cutoff.key());
    }
}

/// A no-op pass: when nothing is older than the cutoff, no deletion is ever
/// attempted and the residual equals the index. Two such passes in immediate
/// succession therefore see the same entries, issue the same (empty) call
/// sequence, and leave identical residuals.
pub proof fn lemma_noop_run(r: Reconciler)
    requires
        r.wf(),
        r.handled_count == 0,
        forall|i: int|
            0 <= i < r.index@.len() ==> #[trigger] r.index@[i].ts.key() >= r.cutoff.key(),
    ensures
        r.old_count == 0,
        r.index@.skip(r.handled_count as int) == r.index@,
{
    if r.old_count > 0 {
        assert(r.index@[0].ts.key() < r.cutoff.key());
        assert(r.index@[0].ts.key() >= r.cutoff.key());
    }
    assert(r.index@.skip(0) =~= r.index@);
}

/// A clearing pass: when every entry is older than the cutoff and every
/// attempt was handled, the residual is empty — and the store then removes
/// the cache file rather than writing an empty one.
pub proof fn lemma_full_clear(r: Reconciler)
    requires
        r.wf(),
        r.handled_count == r.old_count,
        forall|i: int|
            0 <= i < r.index@.len() ==> #[trigger] r.index@[i].ts.key() < r.cutoff.key(),
    ensures
        r.handled_count == r.index@.len(),
        r.index@.skip(r.handled_count as int) == Seq::<FavoriteRecord>::empty(),
{
    if r.old_count < r.index@.len() {
        assert(r.index@[r.old_count as int].ts.key() >= r.cutoff.key());
        assert(r.index@[r.old_count as int].ts.key() < r.cutoff.key());
    }
    assert(r.index@.skip(r.handled_count as int) =~= Seq::<FavoriteRecord>::empty());
}

/// An entry already gone remotely counts exactly as one just deleted:
/// the two outcomes drive the pass through the very same transition.
pub proof fn lemma_already_gone_equiv(r: Reconciler)
    ensures
        spec_step(r, DeleteOutcome::NotFound) == spec_step(r, DeleteOutcome::Succeeded),
{
}

/// A run of outcomes never touches the selection: the index, the cutoff and
/// the old-entry count are those the pass started with.
proof fn lemma_run_frame(r: Reconciler, outcomes: Seq<DeleteOutcome>)
    ensures
        spec_run(r, outcomes).index == r.index,
        spec_run(r, outcomes).cutoff == r.cutoff,
        spec_run(r, outcomes).old_count == r.old_count,
    decreases outcomes.len(),
{
    if outcomes.len() > 0 {
        lemma_run_frame(spec_step(r, outcomes[0]), outcomes.drop_first());
    }
}

/// Fatal-error abort with partial persistence: when the first `k` attempts
/// are handled and attempt `k` fails, the pass ends aborted having handled
/// exactly `k` entries — so the persisted residual drops precisely the `k`
/// entries confirmed gone, and keeps the failing entry and every later one.
pub proof fn lemma_abort_partial_persistence(r: Reconciler, outcomes: Seq<DeleteOutcome>, k: int)
    requires
        r.wf(),
        r.handled_count == 0,
        !r.aborted,
        0 <= k < r.old_count,
        outcomes.len() == k + 1,
        forall|j: int| 0 <= j < k ==> handled(#[trigger] outcomes[j]),
        !handled(outcomes[k]),
    ensures
        spec_run(r, outcomes).aborted,
        spec_run(r, outcomes).handled_count == k,
        spec_run(r, outcomes).index == r.index,
{
    lemma_run_prefix(r, outcomes, k);
    lemma_run_frame(r, outcomes);
}

/// Helper for the abort law, generalized over the starting watermark.
proof fn lemma_run_prefix(r: Reconciler, outcomes: Seq<DeleteOutcome>, k: int)
    requires
        0 <= k,
        outcomes.len() == k + 1,
        forall|j: int| 0 <= j < k ==> handled(#[trigger] outcomes[j]),
        !handled(outcomes[k]),
        r.handled_count + k <= usize::MAX,
        !r.aborted,
    ensures
        spec_run(r, outcomes).aborted,
        spec_run(r, outcomes).handled_count == r.handled_count + k,
    decreases k,
{
    let r1 = spec_step(r, outcomes[0]);
    let rest = outcomes.drop_first();
    assert(spec_run(r, outcomes) == spec_run(r1, rest));
    if k == 0 {
        assert(!handled(outcomes[0]));
        assert(rest.len() == 0);
        assert(spec_run(r1, rest) == r1);
        assert(r1.aborted);
        assert(r1.handled_count == r.handled_count);
    } else {
        assert(handled(outcomes[0]));
        assert(forall|j: int| 0 <= j < k - 1 ==> handled(#[trigger] rest[j]));
        assert(!handled(rest[k - 1]));
        assert(r1.handled_count == r.handled_count + 1);
        lemma_run_prefix(r1, rest, k - 1);
    }
}

} // verus!
