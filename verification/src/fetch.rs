use vstd::prelude::*;
use crate::index::spec_insert;
use crate::index::FavoriteIndex;
use crate::index::FavoriteRecord;

verus! {

/// Every record of a page inserted in order: a later record with the same
/// timestamp overwrites an earlier one, as keyed insertion does.
pub open spec fn spec_insert_all(s: Seq<FavoriteRecord>, page: Seq<FavoriteRecord>) -> Seq<
    FavoriteRecord,
>
    decreases page.len(),
{
    if page.len() == 0 {
        s
    } else {
        spec_insert_all(spec_insert(s, page[0]), page.drop_first())
    }
}

/// Appending one record to the page inserts it after the rest.
pub proof fn lemma_insert_all_push(s: Seq<FavoriteRecord>, page: Seq<FavoriteRecord>,
    x: FavoriteRecord)
    ensures
        spec_insert_all(s, page.push(x)) == spec_insert(spec_insert_all(s, page), x),
    decreases page.len(),
{
    if page.len() == 0 {
        assert(page.push(x)[0] == x);
        assert(page.push(x).drop_first() =~= Seq::<FavoriteRecord>::empty());
        assert(spec_insert_all(s, page.push(x)) == spec_insert_all(
            spec_insert(s, x),
            Seq::<FavoriteRecord>::empty(),
        ));
        assert(spec_insert_all(spec_insert(s, x), Seq::<FavoriteRecord>::empty()) == spec_insert(
            s,
            x,
        ));
        assert(spec_insert_all(s, page) == s);
    } else {
        assert(page.push(x)[0] == page[0]);
        assert(page.push(x).drop_first() =~= page.drop_first().push(x));
        assert(spec_insert_all(s, page.push(x)) == spec_insert_all(
            spec_insert(s, page[0]),
            page.drop_first().push(x),
        ));
        lemma_insert_all_push(spec_insert(s, page[0]), page.drop_first(), x);
        assert(spec_insert_all(s, page) == spec_insert_all(
            spec_insert(s, page[0]),
            page.drop_first(),
        ));
    }
}

/// Accumulates the pages of one full favourites fetch into an index.
/// Pages are taken until the first empty page: empty means end of the
/// collection, never a transient condition, so the fetch then stops.
pub struct FetchAccumulator {
    pub index: FavoriteIndex,
    pub done: bool,
}

impl FetchAccumulator {
    pub open spec fn wf(self) -> bool {
        self.index.wf()
    }

    /// A fetch that has seen no page yet.
    pub fn new() -> (r: Self)
        ensures
            r.wf(),
            r.index@ == Seq::<FavoriteRecord>::empty(),
            !r.done,
    {
        FetchAccumulator { index: FavoriteIndex::new(), done: false }
    }

    /// Feed the next page; answers whether a further page must be fetched.
    /// The first empty page ends the fetch; every record of a non-empty page
    /// lands in the index keyed by its timestamp.
    pub fn add_page(&mut self, page: &Vec<FavoriteRecord>) -> (more: bool)
        requires
            old(self).wf(),
            !old(self).done,
            forall|i: int| 0 <= i < page@.len() ==> (#[trigger] page@[i]).ts.wf(),
        ensures
            final(self).wf(),
            final(self).index@ == spec_insert_all(old(self).index@, page@),
            final(self).done == (page@.len() == 0),
            more == (page@.len() != 0),
    {
        if page.len() == 0 {
            self.done = true;
            return false;
        }
        let ghost s0 = self.index@;
        let mut i: usize = 0;
        while i < page.len()
            invariant
                i <= page@.len(),
                self.index@ == spec_insert_all(s0, page@.take(i as int)),
                self.index.wf(),
                self.done == false,
                forall|j: int| 0 <= j < page@.len() ==> (#[trigger] page@[j]).ts.wf(),
            decreases page@.len() - i,
        {
            let rec = page[i];
            proof {
                assert(page@.take(i + 1) =~= page@.take(i as int).push(page@[i as int]));
                lemma_insert_all_push(s0, page@.take(i as int), page@[i as int]);
            }
            self.index.insert(rec);
            i = i + 1;
        }
        proof {
            assert(page@.take(page@.len() as int) =~= page@);
        }
        true
    }

    /// Whether the fetch has reached the end of the collection.
    pub fn is_done(&self) -> (r: bool)
        ensures
            r == self.done,
    {
        self.done
    }

    /// Hand the fetched index over.
    pub fn into_index(self) -> (r: FavoriteIndex)
        ensures
            r == self.index,
    {
        self.index
    }
}

} // verus!
