//! Enumeration of the candidate documents in batches of non-decreasing proximity.
use crate::bitmap::{bitmap_clone, bitmap_is_empty, bitmap_new, docs};
use crate::words::DerivedWords;
use roaring::RoaringBitmap;
use vstd::prelude::*;

verus! {

/// The union of the batches' documents.
pub open spec fn batches_union(batches: Seq<(u8, Set<u32>)>) -> Set<u32>
    decreases batches.len(),
{
    if batches.len() == 0 {
        Set::empty()
    } else {
        batches_union(batches.drop_last()).union(batches.last().1)
    }
}

/// The enumerator over the candidates of a query: each call of `next` yields the
/// documents whose best proximity is the next level, skipping empty levels.
///
/// The snapshot holds no word positions, so every candidate is at its best at the
/// first level, proximity zero, and the candidates come out in a single batch.
pub struct Mdfs {
    pub remaining: RoaringBitmap,
    pub proximity: u8,
    /// The candidates the enumeration started from.
    pub candidates: Ghost<Set<u32>>,
    /// The batches yielded so far.
    pub yielded: Ghost<Seq<(u8, Set<u32>)>>,
}

impl Mdfs {
    /// The documents not yielded yet.
    pub open spec fn rest(&self) -> Set<u32> {
        docs(self.remaining)
    }

    /// The batches are not empty, pairwise disjoint and of non-decreasing
    /// proximity; with what is left they make up the candidates.
    pub open spec fn inv(&self) -> bool {
        let y = self.yielded@;
        &&& forall|i: int| 0 <= i < y.len() ==> !(#[trigger] y[i]).1.is_empty()
        &&& forall|i: int, j: int| 0 <= i < j < y.len() ==> (#[trigger] y[i]).1.disjoint((#[trigger] y[j]).1)
        &&& forall|i: int, j: int| 0 <= i < j < y.len() ==> (#[trigger] y[i]).0 <= (#[trigger] y[j]).0
        &&& forall|i: int| 0 <= i < y.len() ==> (#[trigger] y[i]).1.disjoint(self.rest())
        &&& forall|i: int| 0 <= i < y.len() ==> (#[trigger] y[i]).0 <= self.proximity
        &&& batches_union(y).union(self.rest()) == self.candidates@
    }

    pub fn new(derived_words: &Vec<DerivedWords>, candidates: RoaringBitmap) -> (r: Mdfs)
        ensures
            r.inv(),
            r.candidates@ == docs(candidates),
            r.rest() == docs(candidates),
            r.yielded@ == Seq::<(u8, Set<u32>)>::empty(),
            r.proximity == 0,
    {
        let r = Mdfs {
            remaining: candidates,
            proximity: 0,
            candidates: Ghost(docs(candidates)),
            yielded: Ghost(Seq::empty()),
        };
        assert(batches_union(r.yielded@).union(r.rest()) =~= r.candidates@);
        r
    }

    /// The next batch: `None` once every candidate has been yielded.
    pub fn next(&mut self) -> (r: Option<(u8, RoaringBitmap)>)
        requires
            old(self).inv(),
        ensures
            final(self).inv(),
            final(self).candidates@ == old(self).candidates@,
            r is None <==> old(self).rest().is_empty(),
            r is None ==> final(self).yielded@ == old(self).yielded@ && final(self).rest() == old(self).rest(),
            r is Some ==> docs(r->Some_0.1) == old(self).rest() && final(self).rest().is_empty()
                && final(self).yielded@ == old(self).yielded@.push((r->Some_0.0, docs(r->Some_0.1))),
            r is Some ==> r->Some_0.0 == old(self).proximity,
            final(self).proximity == old(self).proximity,
    {
        if bitmap_is_empty(&self.remaining) {
            return None;
        }
        let batch = bitmap_clone(&self.remaining);
        self.remaining = bitmap_new();
        proof {
            assert(!docs(batch).is_empty()) by {
                if docs(batch).is_empty() {
                    assert(docs(batch) =~= Set::<u32>::empty());
                }
            }
        }
        let ghost y0 = self.yielded@;
        self.yielded = Ghost(y0.push((self.proximity, docs(batch))));
        proof {
            let y = self.yielded@;
            assert(y.drop_last() =~= y0);
            assert forall|i: int| 0 <= i < y.len() implies (#[trigger] y[i]).1.disjoint(self.rest()) by {
                assert(self.rest() =~= Set::<u32>::empty());
            }
            assert(batches_union(y).union(self.rest()) =~= self.candidates@);
        }
        Some((self.proximity, batch))
    }
}

} // verus!
