//! Ordering documents by the value of a numeric facet.
use crate::bitmap::{bitmap_clone, bitmap_difference_with, bitmap_intersect_with, bitmap_to_vec, docs, in_order};
use crate::index::{DocumentId, FacetType, FieldId, Index, Order};
use crate::search::SearchError;
use roaring::RoaringBitmap;
use vstd::prelude::*;

verus! {

/// The value groups of field `fid`: those of its first entry, none if it has none.
pub open spec fn facet_lookup(entries: Seq<(FieldId, Vec<RoaringBitmap>)>, fid: FieldId) -> Seq<Set<u32>>
    decreases entries.len(),
{
    if entries.len() == 0 {
        Seq::empty()
    } else if entries[0].0 == fid {
        entries[0].1@.map_values(|b: RoaringBitmap| docs(b))
    } else {
        facet_lookup(entries.drop_first(), fid)
    }
}

/// The groups in the order of the walk: increasing values for `Asc`, decreasing for `Desc`.
pub open spec fn directed(groups: Seq<Set<u32>>, order: Order) -> Seq<Set<u32>> {
    match order {
        Order::Asc => groups,
        Order::Desc => Seq::new(groups.len(), |i: int| groups[groups.len() - 1 - i]),
    }
}

/// Walks the groups: from each, the documents of `remaining` that it holds, in
/// increasing order of id, each document at its first group only.
pub open spec fn walk(groups: Seq<Set<u32>>, remaining: Set<u32>) -> Seq<u32>
    decreases groups.len(),
{
    if groups.len() == 0 {
        Seq::empty()
    } else {
        in_order(groups[0].intersect(remaining)) + walk(groups.drop_first(), remaining.difference(groups[0]))
    }
}

/// The first `n` elements of `s`, or all of them when it has fewer.
pub open spec fn first_n<A>(s: Seq<A>, n: nat) -> Seq<A> {
    if n < s.len() {
        s.take(n as int)
    } else {
        s
    }
}

/// The value groups of field `fid` in the order of the walk.
pub open spec fn directed_groups(index: Index, fid: FieldId, order: Order) -> Seq<Set<u32>> {
    directed(facet_lookup(index.facet_numbers@, fid), order)
}

/// The first `limit` documents of `documents` in the order of field `fid`'s values.
pub open spec fn facet_order(index: Index, fid: FieldId, order: Order, documents: Set<u32>, limit: nat) -> Seq<u32> {
    first_n(walk(directed_groups(index, fid, order), documents), limit)
}

impl Index {
    pub fn facet_numbers_get(&self, fid: FieldId) -> (r: Option<&Vec<RoaringBitmap>>)
        ensures
            r is None ==> facet_lookup(self.facet_numbers@, fid) == Seq::<Set<u32>>::empty(),
            r is Some ==> facet_lookup(self.facet_numbers@, fid) == r->Some_0@.map_values(
                |b: RoaringBitmap| docs(b),
            ),
    {
        let mut i: usize = 0;
        assert(self.facet_numbers@.subrange(0, self.facet_numbers@.len() as int) =~= self.facet_numbers@);
        while i < self.facet_numbers.len()
            invariant
                i <= self.facet_numbers@.len(),
                facet_lookup(self.facet_numbers@, fid) == facet_lookup(
                    self.facet_numbers@.subrange(i as int, self.facet_numbers@.len() as int),
                    fid,
                ),
            decreases self.facet_numbers@.len() - i,
        {
            let ghost rest = self.facet_numbers@.subrange(i as int, self.facet_numbers@.len() as int);
            proof {
                assert(rest.drop_first() =~= self.facet_numbers@.subrange(
                    i + 1,
                    self.facet_numbers@.len() as int,
                ));
            }
            if self.facet_numbers[i].0 == fid {
                return Some(&self.facet_numbers[i].1);
            }
            i = i + 1;
        }
        None
    }
}

/// Orders `documents_ids` by the values of numeric field `field_id` in direction
/// `order`, keeping the first `limit`; documents without a value are left out.
/// The walk stops as soon as `limit` documents are found.
pub fn facet_ordered(
    index: &Index,
    field_id: FieldId,
    facet_type: FacetType,
    order: Order,
    documents_ids: RoaringBitmap,
    limit: usize,
) -> (r: Result<Vec<DocumentId>, SearchError>)
    ensures
        facet_type == FacetType::String <==> r is Err,
        r is Err ==> r->Err_0 == SearchError::CriteriaFacetTypeNotNumber,
        r is Ok ==> r->Ok_0@ == facet_order(*index, field_id, order, docs(documents_ids), limit as nat),
{
    if facet_type == FacetType::String {
        return Err(SearchError::CriteriaFacetTypeNotNumber);
    }
    let ghost groups = directed(facet_lookup(index.facet_numbers@, field_id), order);
    let ghost whole = walk(groups, docs(documents_ids));
    let mut output: Vec<DocumentId> = Vec::new();
    let leaves = match index.facet_numbers_get(field_id) {
        Some(l) => l,
        None => {
            proof {
                assert(output@ =~= first_n(whole, limit as nat));
            }
            return Ok(output);
        },
    };
    let n = leaves.len();
    let mut remaining = documents_ids;
    let mut k: usize = 0;
    assert(groups.subrange(0, n as int) =~= groups);
    while k < n && output.len() < limit
        invariant
            n == leaves@.len() == groups.len(),
            k <= n,
            groups == directed(leaves@.map_values(|b: RoaringBitmap| docs(b)), order),
            whole == output@ + walk(groups.subrange(k as int, n as int), docs(remaining)),
        decreases n - k,
    {
        let leaf = match order {
            Order::Asc => &leaves[k],
            Order::Desc => &leaves[n - 1 - k],
        };
        let ghost rest = groups.subrange(k as int, n as int);
        assert(docs(*leaf) == groups[k as int]);
        assert(rest.drop_first() =~= groups.subrange(k + 1, n as int));
        let mut found = bitmap_clone(leaf);
        bitmap_intersect_with(&mut found, &remaining);
        bitmap_difference_with(&mut remaining, leaf);
        let ids = bitmap_to_vec(&found);
        let ghost out0 = output@;
        let mut t: usize = 0;
        while t < ids.len()
            invariant
                t <= ids@.len(),
                output@ == out0 + ids@.take(t as int),
            decreases ids@.len() - t,
        {
            output.push(ids[t]);
            t = t + 1;
            assert(ids@.take(t as int) =~= ids@.take(t - 1).push(ids@[t - 1]));
        }
        assert(ids@.take(ids@.len() as int) =~= ids@);
        k = k + 1;
    }
    proof {
        if k == n {
            assert(groups.subrange(k as int, n as int) =~= Seq::<Set<u32>>::empty());
            assert(whole =~= output@);
        }
        assert(first_n(whole, limit as nat) =~= first_n(output@, limit as nat));
    }
    if output.len() > limit {
        output.truncate(limit);
    }
    Ok(output)
}

} // verus!
