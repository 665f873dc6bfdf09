//! Properties that hold across calls of the library.
use crate::bitmap::{ascending, docs, in_order};
use crate::facet::{facet_order, first_n};
use crate::index::{FacetType, FieldId, Index, Order};
use crate::search::SearchError;
use crate::mdfs::{batches_union, Mdfs};
use crate::search::{candidate_set, facet_ordering, lemma_page_bounded, outcome, page, words_present, Search, facet_view};
use crate::words::{intersect_all, unions, DerivedWords};
use vstd::prelude::*;

verus! {

/// Once the enumeration is exhausted, its batches partition the candidates: they are
/// pairwise disjoint, none is empty, and together they hold every candidate.
pub proof fn lemma_batches_partition(m: Mdfs)
    requires
        m.inv(),
        m.rest().is_empty(),
    ensures
        batches_union(m.yielded@) == m.candidates@,
        forall|i: int, j: int|
            0 <= i < j < m.yielded@.len() ==> (#[trigger] m.yielded@[i]).1.disjoint((#[trigger] m.yielded@[j]).1),
        forall|i: int| 0 <= i < m.yielded@.len() ==> !(#[trigger] m.yielded@[i]).1.is_empty(),
{
    assert(batches_union(m.yielded@).union(m.rest()) =~= batches_union(m.yielded@));
}

/// Proximities never decrease along the batches yielded so far.
pub proof fn lemma_proximity_monotonic(m: Mdfs, i: int, j: int)
    requires
        m.inv(),
        0 <= i <= j < m.yielded@.len(),
    ensures
        m.yielded@[i].0 <= m.yielded@[j].0,
{
    if i < j {
        assert(m.yielded@[i].0 <= m.yielded@[j].0);
    }
}

/// A search has one outcome: two runs over the same snapshot with the same
/// facet condition, derived words and limit give the same page and the same words.
pub proof fn lemma_deterministic(
    index: Index,
    facet: Option<Set<u32>>,
    derived: Option<Seq<DerivedWords>>,
    limit: nat,
    first: Result<(Set<Seq<char>>, Seq<u32>), crate::search::SearchError>,
    second: Result<(Set<Seq<char>>, Seq<u32>), crate::search::SearchError>,
)
    requires
        first == outcome(index, facet, derived, limit),
        second == outcome(index, facet, derived, limit),
    ensures
        first == second,
{
}

/// Without query words and without a facet condition, the page is the first `limit`
/// documents of the snapshot: by increasing id, or in facet order when the criteria
/// ask for one.
pub proof fn lemma_placeholder_page(index: Index, limit: nat)
    requires
        facet_ordering(index) is Ok,
        facet_ordering(index) is Ok ==> facet_ordering(index)->Ok_0 is None
            || facet_ordering(index)->Ok_0->Some_0.1 != crate::index::FacetType::String,
    ensures
        outcome(index, None, None, limit) is Ok,
        facet_ordering(index)->Ok_0 is None ==> outcome(index, None, None, limit)->Ok_0.1 == first_n(
            in_order(docs(index.documents_ids)),
            limit,
        ),
        facet_ordering(index)->Ok_0 is Some ==> outcome(index, None, None, limit)->Ok_0.1 == facet_order(
            index,
            facet_ordering(index)->Ok_0->Some_0.0,
            facet_ordering(index)->Ok_0->Some_0.2,
            docs(index.documents_ids),
            limit,
        ),
        outcome(index, None, None, limit)->Ok_0.0 == Set::<Seq<char>>::empty(),
{
}

/// With a facet condition, every document of the page passes the condition and holds
/// every query word.
pub proof fn lemma_facet_composition(index: Index, f: Set<u32>, derived: Seq<DerivedWords>, limit: nat)
    requires
        outcome(index, Some(f), Some(derived), limit) is Ok,
        derived.len() > 0,
    ensures
        forall|i: int|
            0 <= i < outcome(index, Some(f), Some(derived), limit)->Ok_0.1.len() ==> {
                let x = #[trigger] outcome(index, Some(f), Some(derived), limit)->Ok_0.1[i];
                f.contains(x) && intersect_all(unions(derived)).contains(x)
            },
{
    let set = candidate_set(index, Some(f), Some(derived));
    let ordering = facet_ordering(index)->Ok_0;
    lemma_page_bounded(index, set, ordering, limit);
    assert(words_present(Some(derived)));
    assert(outcome(index, Some(f), Some(derived), limit)->Ok_0.1 == page(index, set, ordering, limit));
}

/// The offset of a search changes neither its words nor its page.
pub proof fn lemma_offset_free(a: Search, b: Search, derived: Option<Seq<DerivedWords>>)
    requires
        a.index == b.index,
        facet_view(a.facet_condition) == facet_view(b.facet_condition),
        a.limit == b.limit,
    ensures
        outcome(*a.index, facet_view(a.facet_condition), derived, a.limit as nat) == outcome(
            *b.index,
            facet_view(b.facet_condition),
            derived,
            b.limit as nat,
        ),
{
}

/// When nothing is cut by the limit and no facet ordering applies, adding a facet
/// condition keeps only documents that the search without it returns.
pub proof fn lemma_facet_within_unfiltered(index: Index, f: Set<u32>, derived: Seq<DerivedWords>, limit: nat)
    requires
        outcome(index, Some(f), Some(derived), limit) is Ok,
        facet_ordering(index) == Ok::<Option<(FieldId, FacetType, Order)>, SearchError>(None),
        derived.len() > 0,
        in_order(intersect_all(unions(derived))).to_set() == intersect_all(unions(derived)),
        in_order(intersect_all(unions(derived))).len() <= limit,
    ensures
        outcome(index, None, Some(derived), limit) is Ok,
        forall|i: int|
            0 <= i < outcome(index, Some(f), Some(derived), limit)->Ok_0.1.len() ==> {
                let x = #[trigger] outcome(index, Some(f), Some(derived), limit)->Ok_0.1[i];
                f.contains(x) && outcome(index, None, Some(derived), limit)->Ok_0.1.contains(x)
            },
{
    let w = intersect_all(unions(derived));
    lemma_facet_composition(index, f, derived, limit);
    assert(words_present(Some(derived)));
    assert(candidate_set(index, None, Some(derived)) == w);
    assert(outcome(index, None, Some(derived), limit)->Ok_0.1 == first_n(in_order(w), limit));
    assert(first_n(in_order(w), limit) == in_order(w));
    assert forall|i: int|
        0 <= i < outcome(index, Some(f), Some(derived), limit)->Ok_0.1.len() implies {
            let x = #[trigger] outcome(index, Some(f), Some(derived), limit)->Ok_0.1[i];
            f.contains(x) && outcome(index, None, Some(derived), limit)->Ok_0.1.contains(x)
        } by {
        let x = outcome(index, Some(f), Some(derived), limit)->Ok_0.1[i];
        assert(w.contains(x));
        assert(in_order(w).to_set().contains(x));
    }
}

/// Without a facet ordering, the page lists its documents in increasing id order: they
/// come from the proximity batches in order, each batch by increasing id.
pub proof fn lemma_page_ascending(index: Index, facet: Option<Set<u32>>, derived: Option<Seq<DerivedWords>>, limit: nat)
    requires
        outcome(index, facet, derived, limit) is Ok,
        facet_ordering(index) == Ok::<Option<(FieldId, FacetType, Order)>, SearchError>(None),
    ensures
        ascending(outcome(index, facet, derived, limit)->Ok_0.1),
{
    let set = candidate_set(index, facet, derived);
    lemma_in_order_ascending(set);
    let q = in_order(set);
    let p = first_n(q, limit);
    assert(outcome(index, facet, derived, limit)->Ok_0.1 == p);
    assert forall|i: int, j: int| 0 <= i < j < p.len() implies p[i] < p[j] by {
        assert(p[i] == q[i] && p[j] == q[j]);
    }
}

proof fn lemma_in_order_ascending(s: Set<u32>)
    ensures
        ascending(in_order(s)),
{
}

} // verus!
