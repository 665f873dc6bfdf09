//! The search orchestrator: from a query and a facet condition to a page of documents.
use crate::bitmap::{ascending, bitmap_clone, bitmap_intersect_with, bitmap_len, bitmap_to_vec, docs, in_order};
use crate::facet::{directed_groups, facet_order, facet_ordered, first_n, walk};
use crate::index::{Criterion, DocumentId, FacetType, FieldId, Index, Order};
use crate::mdfs::Mdfs;
use crate::query::{plan_word, query_tokens, query_words};
use crate::words::{all_ok, derives, fails_with, plan_matches, fst_words, compute_candidates, fetch_words_docids, intersect_all, unions, Automata, DerivedWords};
use roaring::RoaringBitmap;
use vstd::prelude::*;
use vstd::utf8::{decode_utf8, encode_utf8_decode_utf8, valid_utf8};

verus! {

/// Why a search failed.
#[derive(Clone, Copy, Debug, PartialEq, Eq, Structural)]
pub enum SearchError {
    /// A word of the dictionary is not valid UTF-8.
    InvalidWord,
    /// A word of the dictionary has no postings.
    MissingWordDocids,
    /// The ordering criterion names a field that is not faceted.
    UnknownFieldId,
    /// The ordering criterion names a field of string facets.
    CriteriaFacetTypeNotNumber,
}

impl SearchError {
    pub fn message(&self) -> (r: &'static str)
        ensures
            *self == SearchError::InvalidWord ==> r@ == "a word of the dictionary is not valid UTF-8"@,
            *self == SearchError::MissingWordDocids ==> r@ == "a word of the dictionary has no postings"@,
            *self == SearchError::UnknownFieldId ==> r@ == "unknown field id"@,
            *self == SearchError::CriteriaFacetTypeNotNumber ==> r@ == "criteria facet type must be a number"@,
    {
        match self {
            SearchError::InvalidWord => "a word of the dictionary is not valid UTF-8",
            SearchError::MissingWordDocids => "a word of the dictionary has no postings",
            SearchError::UnknownFieldId => "unknown field id",
            SearchError::CriteriaFacetTypeNotNumber => "criteria facet type must be a number",
        }
    }
}

/// A filter on facet values, already evaluated to the documents it selects.
pub struct FacetCondition {
    pub documents_ids: RoaringBitmap,
}

impl FacetCondition {
    /// The documents of the snapshot that the condition selects.
    pub fn evaluate(&self, index: &Index) -> (r: RoaringBitmap)
        ensures
            docs(r) == docs(self.documents_ids),
    {
        bitmap_clone(&self.documents_ids)
    }
}

/// The first `Asc` or `Desc` criterion, as a field and a direction.
pub open spec fn first_directional(criteria: Seq<Criterion>) -> Option<(FieldId, Order)>
    decreases criteria.len(),
{
    if criteria.len() == 0 {
        None
    } else {
        match criteria[0] {
            Criterion::Asc(fid) => Some((fid, Order::Asc)),
            Criterion::Desc(fid) => Some((fid, Order::Desc)),
            _ => first_directional(criteria.drop_first()),
        }
    }
}

/// The facet type of field `fid`: that of its first entry.
pub open spec fn field_type(fields: Seq<(FieldId, FacetType)>, fid: FieldId) -> Option<FacetType>
    decreases fields.len(),
{
    if fields.len() == 0 {
        None
    } else if fields[0].0 == fid {
        Some(fields[0].1)
    } else {
        field_type(fields.drop_first(), fid)
    }
}

/// The facet ordering that the index's criteria ask for, or the error they lead to.
pub open spec fn facet_ordering(index: Index) -> Result<Option<(FieldId, FacetType, Order)>, SearchError> {
    match first_directional(index.criteria@) {
        None => Ok(None),
        Some((fid, order)) => match field_type(index.faceted_fields@, fid) {
            None => Err(SearchError::UnknownFieldId),
            Some(t) => Ok(Some((fid, t, order))),
        },
    }
}

/// Finds the facet ordering that the index's criteria ask for.
pub fn order_by_facet(index: &Index) -> (r: Result<Option<(FieldId, FacetType, Order)>, SearchError>)
    ensures
        r == facet_ordering(*index),
{
    let mut i: usize = 0;
    let n = index.criteria.len();
    let mut found: Option<(FieldId, Order)> = None;
    assert(index.criteria@.subrange(0, n as int) =~= index.criteria@);
    while i < n
        invariant_except_break
            found is None,
        invariant
            n == index.criteria@.len(),
            i <= n,
            first_directional(index.criteria@) == first_directional(index.criteria@.subrange(i as int, n as int)),
        ensures
            found == first_directional(index.criteria@),
        decreases n - i,
    {
        assert(index.criteria@.subrange(i as int, n as int).drop_first() =~= index.criteria@.subrange(
            i + 1,
            n as int,
        ));
        match index.criteria[i] {
            Criterion::Asc(fid) => {
                found = Some((fid, Order::Asc));
                break;
            },
            Criterion::Desc(fid) => {
                found = Some((fid, Order::Desc));
                break;
            },
            _ => {},
        }
        i = i + 1;
    }
    let (fid, order) = match found {
        None => {
            return Ok(None);
        },
        Some(f) => f,
    };
    let m = index.faceted_fields.len();
    let mut j: usize = 0;
    assert(index.faceted_fields@.subrange(0, m as int) =~= index.faceted_fields@);
    while j < m
        invariant
            m == index.faceted_fields@.len(),
            j <= m,
            field_type(index.faceted_fields@, fid) == field_type(index.faceted_fields@.subrange(j as int, m as int), fid),
            first_directional(index.criteria@) == Some((fid, order)),
        decreases m - j,
    {
        assert(index.faceted_fields@.subrange(j as int, m as int).drop_first() =~= index.faceted_fields@.subrange(j + 1, m as int));
        assert(index.faceted_fields@.subrange(j as int, m as int)[0] == index.faceted_fields@[j as int]);
        if index.faceted_fields[j].0 == fid {
            assert(field_type(index.faceted_fields@.subrange(j as int, m as int), fid) == Some(index.faceted_fields@[j as int].1));
            return Ok(Some((fid, index.faceted_fields[j].1, order)));
        }
        j = j + 1;
    }
    Err(SearchError::UnknownFieldId)
}

/// What a search found: the dictionary words derived from the query, and a page of documents.
pub struct SearchResult {
    pub found_words: Vec<String>,
    pub documents_ids: Vec<DocumentId>,
}

/// Words were derived from a query that has at least one word.
pub open spec fn words_present(derived: Option<Seq<DerivedWords>>) -> bool {
    derived is Some && derived->Some_0.len() > 0
}

/// The documents a search draws its page from: those holding every query word (and
/// passing the facet condition), or without query words all documents (or those
/// passing the facet condition).
pub open spec fn candidate_set(index: Index, facet: Option<Set<u32>>, derived: Option<Seq<DerivedWords>>) -> Set<u32> {
    if words_present(derived) {
        let w = intersect_all(unions(derived->Some_0));
        match facet {
            Some(f) => f.intersect(w),
            None => w,
        }
    } else {
        match facet {
            Some(f) => f,
            None => docs(index.documents_ids),
        }
    }
}

/// The page: the first `limit` documents of `set`, by increasing id, or by the facet ordering.
pub open spec fn page(index: Index, set: Set<u32>, ordering: Option<(FieldId, FacetType, Order)>, limit: nat) -> Seq<u32> {
    match ordering {
        None => first_n(in_order(set), limit),
        Some((fid, _t, order)) => facet_order(index, fid, order, set, limit),
    }
}

/// The dictionary words derived from the query words.
pub open spec fn found_set(derived: Option<Seq<DerivedWords>>) -> Set<Seq<char>> {
    if words_present(derived) {
        let d = derived->Some_0;
        Set::new(
            |w: Seq<char>|
                exists|i: int, k: int|
                    0 <= i < d.len() && 0 <= k < d[i].words@.len() && (#[trigger] d[i].words@[k]).word@ == w,
        )
    } else {
        Set::empty()
    }
}

/// The outcome of a search, given the words derived from its query: the found words
/// and the page, or the error.
pub open spec fn outcome(index: Index, facet: Option<Set<u32>>, derived: Option<Seq<DerivedWords>>, limit: nat) -> Result<(Set<Seq<char>>, Seq<u32>), SearchError> {
    let set = candidate_set(index, facet, derived);
    match facet_ordering(index) {
        Err(e) => Err(e),
        Ok(ordering) => {
            if ordering is Some && ordering->Some_0.1 == FacetType::String && (!words_present(derived)
                || (limit > 0 && !set.is_empty())) {
                Err(SearchError::CriteriaFacetTypeNotNumber)
            } else {
                Ok((found_set(derived), page(index, set, ordering, limit)))
            }
        },
    }
}

/// `w` decodes a word of the index's dictionary.
pub open spec fn in_dictionary(index: Index, w: Seq<char>) -> bool {
    exists|b: Seq<u8>| #[trigger] fst_words(index.words_fst).contains(b) && valid_utf8(b) && decode_utf8(b) == w
}

pub open spec fn no_duplicates<A>(s: Seq<A>) -> bool {
    forall|i: int, j: int| 0 <= i < j < s.len() ==> s[i] != s[j]
}

/// A search over a snapshot. `offset` is kept for the caller: the page always starts
/// at the first result.
pub struct Search<'a> {
    pub query: Option<String>,
    pub facet_condition: Option<FacetCondition>,
    pub offset: usize,
    pub limit: usize,
    pub index: &'a Index,
    pub automata: &'a Automata,
}

pub open spec fn facet_view(c: Option<FacetCondition>) -> Option<Set<u32>> {
    match c {
        Some(f) => Some(docs(f.documents_ids)),
        None => None,
    }
}

pub open spec fn derived_view(d: Option<Vec<DerivedWords>>) -> Option<Seq<DerivedWords>> {
    match d {
        Some(v) => Some(v@),
        None => None,
    }
}

/// The first `limit` ids of a bitmap, in increasing order.
fn first_page(set: &RoaringBitmap, limit: usize) -> (r: Vec<DocumentId>)
    ensures
        r@ == first_n(in_order(docs(*set)), limit as nat),
{
    let mut ids = bitmap_to_vec(set);
    if ids.len() > limit {
        ids.truncate(limit);
        assert(ids@ =~= in_order(docs(*set)).take(limit as int));
    }
    ids
}

/// Whether `w` is among `words`.
fn contains_word(words: &Vec<String>, w: &String) -> (r: bool)
    ensures
        r == exists|j: int| 0 <= j < words@.len() && (#[trigger] words@[j])@ == w@,
{
    let mut j: usize = 0;
    while j < words.len()
        invariant
            j <= words@.len(),
            forall|k: int| 0 <= k < j ==> (#[trigger] words@[k])@ != w@,
        decreases words@.len() - j,
    {
        if crate::index::bytes_eq(words[j].as_str().as_bytes(), w.as_str().as_bytes()) {
            proof {
                encode_utf8_decode_utf8(words@[j as int]@);
                encode_utf8_decode_utf8(w@);
            }
            return true;
        }
        j = j + 1;
    }
    false
}

/// The words derived from any of the query words.
pub open spec fn words_of(d: Seq<DerivedWords>) -> Set<Seq<char>> {
    Set::new(
        |w: Seq<char>|
            exists|i: int, k: int|
                0 <= i < d.len() && 0 <= k < d[i].words@.len() && (#[trigger] d[i].words@[k]).word@ == w,
    )
}

/// The words derived from the query words before position `(i, k)`.
pub open spec fn words_before(d: Seq<DerivedWords>, i: int, k: int) -> Set<Seq<char>> {
    Set::new(
        |w: Seq<char>|
            exists|a: int, b: int|
                0 <= a < d.len() && 0 <= b < d[a].words@.len() && (a < i || (a == i && b < k))
                    && (#[trigger] d[a].words@[b]).word@ == w,
    )
}

pub open spec fn holds_word(words: Seq<String>, w: Seq<char>) -> bool {
    exists|j: int| 0 <= j < words.len() && (#[trigger] words[j])@ == w
}

/// The derived words, each once.
fn collect_found_words(derived: &Vec<DerivedWords>) -> (r: Vec<String>)
    ensures
        forall|w: Seq<char>| holds_word(r@, w) <==> #[trigger] words_of(derived@).contains(w),
        forall|a: int, b: int| 0 <= a < b < r@.len() ==> (#[trigger] r@[a])@ != (#[trigger] r@[b])@,
{
    let ghost d = derived@;
    let mut found: Vec<String> = Vec::new();
    let mut i: usize = 0;
    while i < derived.len()
        invariant
            d == derived@,
            i <= d.len(),
            forall|w: Seq<char>| holds_word(found@, w) <==> #[trigger] words_before(d, i as int, 0).contains(w),
            forall|a: int, b: int| 0 <= a < b < found@.len() ==> (#[trigger] found@[a])@ != (#[trigger] found@[b])@,
        decreases d.len() - i,
    {
        let words = &derived[i].words;
        let mut k: usize = 0;
        while k < words.len()
            invariant
                d == derived@,
                i < d.len(),
                words@ == d[i as int].words@,
                k <= words@.len(),
                forall|w: Seq<char>| holds_word(found@, w) <==> #[trigger] words_before(d, i as int, k as int).contains(w),
                forall|a: int, b: int| 0 <= a < b < found@.len() ==> (#[trigger] found@[a])@ != (#[trigger] found@[b])@,
            decreases words@.len() - k,
        {
            let w = &words[k].word;
            let ghost before = found@;
            if !contains_word(&found, w) {
                found.push(w.clone());
                proof {
                    assert(found@.last()@ == w@);
                    assert forall|j: int| 0 <= j < before.len() implies #[trigger] found@[j] == before[j] by {}
                }
            }
            proof {
                assert forall|x: Seq<char>| holds_word(found@, x) <==> #[trigger] words_before(d, i as int, k + 1).contains(x) by {
                    if holds_word(found@, x) {
                        let j = choose|j: int| 0 <= j < found@.len() && (#[trigger] found@[j])@ == x;
                        if j < before.len() {
                            assert(found@[j] == before[j]);
                            assert(holds_word(before, x));
                            assert(words_before(d, i as int, k as int).contains(x));
                            let (a, b) = choose|a: int, b: int|
                                0 <= a < d.len() && 0 <= b < d[a].words@.len() && (a < i || (a == i && b < k))
                                    && (#[trigger] d[a].words@[b]).word@ == x;
                            assert(d[a].words@[b].word@ == x);
                        } else {
                            assert(d[i as int].words@[k as int].word@ == x);
                        }
                    }
                    if words_before(d, i as int, k + 1).contains(x) {
                        let (a, b) = choose|a: int, b: int|
                            0 <= a < d.len() && 0 <= b < d[a].words@.len() && (a < i || (a == i && b < k + 1))
                                && (#[trigger] d[a].words@[b]).word@ == x;
                        if a == i && b == k {
                            if holds_word(before, x) {
                                let j = choose|j: int| 0 <= j < before.len() && (#[trigger] before[j])@ == x;
                                assert(found@[j] == before[j]);
                            } else {
                                assert(found@.last()@ == x);
                                assert(found@[found@.len() - 1]@ == x);
                            }
                        } else {
                            assert(d[a].words@[b].word@ == x);
                            assert(words_before(d, i as int, k as int).contains(x));
                            let j = choose|j: int| 0 <= j < before.len() && (#[trigger] before[j])@ == x;
                            assert(found@[j] == before[j]);
                        }
                    }
                }
            }
            k = k + 1;
        }
        proof {
            assert forall|x: Seq<char>| words_before(d, i as int, k as int).contains(x) <==> #[trigger] words_before(d, i + 1, 0).contains(x) by {
                if words_before(d, i as int, k as int).contains(x) {
                    let (a, b) = choose|a: int, b: int|
                        0 <= a < d.len() && 0 <= b < d[a].words@.len() && (a < i || (a == i && b < k))
                            && (#[trigger] d[a].words@[b]).word@ == x;
                    assert(d[a].words@[b].word@ == x);
                }
                if words_before(d, i + 1, 0).contains(x) {
                    let (a, b) = choose|a: int, b: int|
                        0 <= a < d.len() && 0 <= b < d[a].words@.len() && (a < i + 1 || (a == i + 1 && b < 0))
                            && (#[trigger] d[a].words@[b]).word@ == x;
                    assert(d[a].words@[b].word@ == x);
                }
            }
        }
        i = i + 1;
    }
    proof {
        assert forall|x: Seq<char>| words_before(d, i as int, 0).contains(x) <==> #[trigger] words_of(d).contains(x) by {
            if words_of(d).contains(x) {
                let (a, b) = choose|a: int, b: int|
                    0 <= a < d.len() && 0 <= b < d[a].words@.len() && (#[trigger] d[a].words@[b]).word@ == x;
                assert(d[a].words@[b].word@ == x);
            }
            if words_before(d, i as int, 0).contains(x) {
                let (a, b) = choose|a: int, b: int|
                    0 <= a < d.len() && 0 <= b < d[a].words@.len() && (a < i || (a == i && b < 0))
                        && (#[trigger] d[a].words@[b]).word@ == x;
                assert(d[a].words@[b].word@ == x);
            }
        }
    }
    found
}

proof fn lemma_first_n_zero(s: Seq<u32>)
    ensures
        first_n(s, 0) == Seq::<u32>::empty(),
{
    assert(first_n(s, 0) =~= Seq::<u32>::empty());
}

proof fn lemma_in_order_empty()
    ensures
        in_order(Set::<u32>::empty()) == Seq::<u32>::empty(),
{
    let e = Seq::<u32>::empty();
    assert(e.to_set() =~= Set::<u32>::empty());
    assert(ascending(e));
    let q = in_order(Set::<u32>::empty());
    if q.len() > 0 {
        assert(q.to_set().contains(q[0]));
    }
    assert(q =~= e);
}

proof fn lemma_walk_empty(groups: Seq<Set<u32>>)
    ensures
        walk(groups, Set::empty()) == Seq::<u32>::empty(),
    decreases groups.len(),
{
    if groups.len() > 0 {
        lemma_walk_empty(groups.drop_first());
        lemma_in_order_empty();
        assert(groups[0].intersect(Set::<u32>::empty()) =~= Set::<u32>::empty());
        assert(Set::<u32>::empty().difference(groups[0]) =~= Set::<u32>::empty());
        assert(walk(groups, Set::empty()) =~= Seq::<u32>::empty());
    }
}

proof fn lemma_in_order(s: Set<u32>)
    ensures
        ascending(in_order(s)),
        forall|i: int| 0 <= i < in_order(s).len() ==> s.contains(#[trigger] in_order(s)[i]),
{
    let q = in_order(s);
    if exists|q: Seq<u32>| ascending(q) && q.to_set() == s {
        assert forall|i: int| 0 <= i < q.len() implies s.contains(#[trigger] q[i]) by {
            assert(q.to_set().contains(q[i]));
        }
    }
}

proof fn lemma_walk(groups: Seq<Set<u32>>, remaining: Set<u32>)
    ensures
        no_duplicates(walk(groups, remaining)),
        forall|i: int| 0 <= i < walk(groups, remaining).len() ==> remaining.contains(#[trigger] walk(groups, remaining)[i]),
    decreases groups.len(),
{
    if groups.len() > 0 {
        let g = groups[0];
        let a = in_order(g.intersect(remaining));
        let rest = remaining.difference(g);
        let b = walk(groups.drop_first(), rest);
        lemma_walk(groups.drop_first(), rest);
        lemma_in_order(g.intersect(remaining));
        let w = walk(groups, remaining);
        assert(w == a + b);
        assert forall|i: int| 0 <= i < w.len() implies remaining.contains(#[trigger] w[i]) by {
            if i < a.len() {
                assert(g.intersect(remaining).contains(a[i]));
            } else {
                assert(w[i] == b[i - a.len()]);
                assert(rest.contains(b[i - a.len()]));
            }
        }
        assert forall|i: int, j: int| 0 <= i < j < w.len() implies w[i] != w[j] by {
            if j < a.len() {
                assert(a[i] < a[j]);
            } else if i >= a.len() {
                assert(w[i] == b[i - a.len()]);
                assert(w[j] == b[j - a.len()]);
            } else {
                assert(g.intersect(remaining).contains(a[i]));
                assert(w[j] == b[j - a.len()]);
                assert(rest.contains(b[j - a.len()]));
            }
        }
    }
}

proof fn lemma_first_n(s: Seq<u32>, n: nat)
    requires
        no_duplicates(s),
    ensures
        first_n(s, n).len() <= n,
        no_duplicates(first_n(s, n)),
        forall|i: int| 0 <= i < first_n(s, n).len() ==> s.contains(#[trigger] first_n(s, n)[i]),
{
    let f = first_n(s, n);
    assert forall|i: int| 0 <= i < f.len() implies s.contains(#[trigger] f[i]) by {
        assert(f[i] == s[i]);
    }
    assert forall|i: int, j: int| 0 <= i < j < f.len() implies f[i] != f[j] by {
        assert(f[i] == s[i] && f[j] == s[j]);
    }
}

/// A page holds at most `limit` documents, each once, all of them from `set`.
pub proof fn lemma_page_bounded(index: Index, set: Set<u32>, ordering: Option<(FieldId, FacetType, Order)>, limit: nat)
    ensures
        page(index, set, ordering, limit).len() <= limit,
        no_duplicates(page(index, set, ordering, limit)),
        forall|i: int| 0 <= i < page(index, set, ordering, limit).len() ==> set.contains(#[trigger] page(index, set, ordering, limit)[i]),
{
    match ordering {
        None => {
            lemma_in_order(set);
            let q = in_order(set);
            assert forall|i: int, j: int| 0 <= i < j < q.len() implies q[i] != q[j] by {
                assert(q[i] < q[j]);
            }
            lemma_first_n(q, limit);
            assert forall|i: int| 0 <= i < first_n(q, limit).len() implies set.contains(#[trigger] first_n(q, limit)[i]) by {
                let x = first_n(q, limit)[i];
                assert(q.contains(x));
                let k = choose|k: int| 0 <= k < q.len() && q[k] == x;
                assert(set.contains(q[k]));
            }
        },
        Some((fid, _t, order)) => {
            let w = walk(directed_groups(index, fid, order), set);
            lemma_walk(directed_groups(index, fid, order), set);
            lemma_first_n(w, limit);
            assert forall|i: int| 0 <= i < first_n(w, limit).len() implies set.contains(#[trigger] first_n(w, limit)[i]) by {
                let x = first_n(w, limit)[i];
                assert(w.contains(x));
                let k = choose|k: int| 0 <= k < w.len() && w[k] == x;
                assert(set.contains(w[k]));
            }
        },
    }
}

/// The query has no word.
pub open spec fn no_query_words(query: Option<String>) -> bool {
    query is None || query_tokens(query->Some_0@).len() == 0
}

/// The dictionary matches of the `i`-th word of query `q`.
pub open spec fn query_plan_matches(index: Index, q: Seq<char>, i: int) -> Seq<(Seq<u8>, u8)> {
    plan_matches(index, plan_word(q, i))
}

/// Every query word's matches can be taken.
pub open spec fn query_all_ok(index: Index, q: Seq<char>) -> bool {
    forall|i: int| 0 <= i < query_tokens(q).len() ==> all_ok(index, #[trigger] query_plan_matches(index, q, i))
}

/// `r` is what outcome `o` says: the same error, or the same page and found words,
/// the words each once.
pub open spec fn result_is(r: Result<SearchResult, SearchError>, o: Result<(Set<Seq<char>>, Seq<u32>), SearchError>) -> bool {
    &&& r is Ok <==> o is Ok
    &&& r is Err ==> r->Err_0 == o->Err_0
    &&& r is Ok ==> r->Ok_0.documents_ids@ == o->Ok_0.1
    &&& r is Ok ==> forall|w: Seq<char>| holds_word(r->Ok_0.found_words@, w) <==> #[trigger] o->Ok_0.0.contains(w)
    &&& r is Ok ==> forall|a: int, b: int|
        0 <= a < b < r->Ok_0.found_words@.len() ==> (#[trigger] r->Ok_0.found_words@[a])@ != (#[trigger] r->Ok_0.found_words@[b])@
}

impl<'a> Search<'a> {
    /// A search over `index` with no query and no facet condition, for the first
    /// twenty documents.
    pub fn new(index: &'a Index, automata: &'a Automata) -> (r: Search<'a>)
        ensures
            r.query is None,
            r.facet_condition is None,
            r.offset == 0,
            r.limit == 20,
            r.index == index,
    {
        Search { query: None, facet_condition: None, offset: 0, limit: 20, index, automata }
    }

    /// Sets the query; the returned handle allows chaining.
    pub fn query(&mut self, query: String) -> (r: &mut Search<'a>)
        ensures
            r.query == Some(query),
            r.facet_condition == old(self).facet_condition,
            r.offset == old(self).offset,
            r.limit == old(self).limit,
            r.index == old(self).index,
            *final(self) == *final(r),
    {
        self.query = Some(query);
        self
    }

    /// Sets the offset; the returned handle allows chaining.
    pub fn offset(&mut self, offset: usize) -> (r: &mut Search<'a>)
        ensures
            r.offset == offset,
            r.query == old(self).query,
            r.facet_condition == old(self).facet_condition,
            r.limit == old(self).limit,
            r.index == old(self).index,
            *final(self) == *final(r),
    {
        self.offset = offset;
        self
    }

    /// Sets the limit; the returned handle allows chaining.
    pub fn limit(&mut self, limit: usize) -> (r: &mut Search<'a>)
        ensures
            r.limit == limit,
            r.query == old(self).query,
            r.facet_condition == old(self).facet_condition,
            r.offset == old(self).offset,
            r.index == old(self).index,
            *final(self) == *final(r),
    {
        self.limit = limit;
        self
    }

    /// Sets the facet condition; the returned handle allows chaining.
    pub fn facet_condition(&mut self, condition: FacetCondition) -> (r: &mut Search<'a>)
        ensures
            r.facet_condition == Some(condition),
            r.query == old(self).query,
            r.offset == old(self).offset,
            r.limit == old(self).limit,
            r.index == old(self).index,
            *final(self) == *final(r),
    {
        self.facet_condition = Some(condition);
        self
    }

    /// Runs the search, given the words derived from its query (`None` when there is
    /// no query): intersects, enumerates by proximity and pages.
    pub fn execute_with_words(&self, derived: Option<Vec<DerivedWords>>) -> (r: Result<SearchResult, SearchError>)
        ensures
            r is Ok <==> outcome(*self.index, facet_view(self.facet_condition), derived_view(derived), self.limit as nat) is Ok,
            r is Err ==> r->Err_0 == outcome(*self.index, facet_view(self.facet_condition), derived_view(derived), self.limit as nat)->Err_0,
            r is Ok ==> r->Ok_0.documents_ids@ == outcome(*self.index, facet_view(self.facet_condition), derived_view(derived), self.limit as nat)->Ok_0.1,
            r is Ok ==> forall|w: Seq<char>| holds_word(r->Ok_0.found_words@, w) <==> #[trigger] outcome(*self.index, facet_view(self.facet_condition), derived_view(derived), self.limit as nat)->Ok_0.0.contains(w),
            r is Ok ==> forall|a: int, b: int| 0 <= a < b < r->Ok_0.found_words@.len() ==> (#[trigger] r->Ok_0.found_words@[a])@ != (#[trigger] r->Ok_0.found_words@[b])@,
    {
        let ghost dv = derived_view(derived);
        let ghost set = candidate_set(*self.index, facet_view(self.facet_condition), dv);
        let limit = self.limit;
        let facet_candidates = match &self.facet_condition {
            Some(condition) => Some(condition.evaluate(self.index)),
            None => None,
        };
        let ordering = match order_by_facet(self.index) {
            Ok(o) => o,
            Err(e) => {
                return Err(e);
            },
        };
        let d = match derived {
            Some(d) if d.len() > 0 => d,
            _ => {
                let all = match facet_candidates {
                    Some(f) => f,
                    None => bitmap_clone(&self.index.documents_ids),
                };
                let documents_ids = match ordering {
                    Some((fid, ftype, order)) => match facet_ordered(self.index, fid, ftype, order, all, limit) {
                        Ok(ids) => ids,
                        Err(e) => {
                            return Err(e);
                        },
                    },
                    None => first_page(&all, limit),
                };
                proof {
                    assert(found_set(dv) =~= Set::<Seq<char>>::empty());
                }
                return Ok(SearchResult { found_words: Vec::new(), documents_ids });
            },
        };
        let mut candidates = compute_candidates(&d);
        if let Some(f) = facet_candidates {
            let mut f = f;
            bitmap_intersect_with(&mut f, &candidates);
            candidates = f;
        }
        assert(docs(candidates) == set);
        let mut mdfs = Mdfs::new(&d, candidates);
        let mut batches: Vec<RoaringBitmap> = Vec::new();
        let mut total: u64 = 0;
        while total < limit as u64
            invariant
                mdfs.inv(),
                mdfs.candidates@ == set,
                batches@.len() <= 1,
                batches@.len() == 0 ==> mdfs.rest() == set && total == 0,
                batches@.len() == 1 ==> docs(batches@[0]) == set && mdfs.rest().is_empty() && !set.is_empty()
                    && limit > 0,
            ensures
                batches@.len() == 0 ==> (limit == 0 || set.is_empty()),
            decreases 1 - batches@.len(),
        {
            match mdfs.next() {
                Some((_proximity, answer)) => {
                    total = bitmap_len(&answer);
                    batches.push(answer);
                },
                None => {
                    break;
                },
            }
        }
        let found_words = collect_found_words(&d);
        assert(found_set(dv) =~= words_of(d@));
        let documents_ids = match batches.pop() {
            Some(batch) => match ordering {
                Some((fid, ftype, order)) => match facet_ordered(self.index, fid, ftype, order, batch, limit) {
                    Ok(ids) => ids,
                    Err(e) => {
                        return Err(e);
                    },
                },
                None => first_page(&batch, limit),
            },
            None => {
                proof {
                    lemma_first_n_zero(in_order(set));
                    lemma_in_order_empty();
                    if let Some((fid, t, order)) = ordering {
                        lemma_first_n_zero(walk(directed_groups(*self.index, fid, order), set));
                        if set.is_empty() {
                            assert(set == Set::<u32>::empty());
                            lemma_walk_empty(directed_groups(*self.index, fid, order));
                        }
                    }
                    if set.is_empty() {
                        assert(set =~= Set::<u32>::empty());
                    }
                }
                Vec::new()
            },
        };
        Ok(SearchResult { found_words, documents_ids })
    }

    /// Runs the search: plans the query words, expands them in the dictionary, then
    /// intersects, enumerates by proximity and pages. Without query words the outcome
    /// is that of the placeholder search; with them, the first query word whose
    /// dictionary matches cannot be taken gives the error, and otherwise the outcome
    /// is that of the words derived from the matches. Every found word is a word of
    /// the dictionary; the page holds at most `limit` documents, each once.
    pub fn execute(&self) -> (r: Result<SearchResult, SearchError>)
        ensures
            no_query_words(self.query) ==> result_is(
                r,
                outcome(*self.index, facet_view(self.facet_condition), None, self.limit as nat),
            ),
            !no_query_words(self.query) && !query_all_ok(*self.index, self.query->Some_0@) ==> r is Err
                && exists|i: int|
                0 <= i < query_tokens(self.query->Some_0@).len() && (forall|j: int|
                    0 <= j < i ==> all_ok(*self.index, #[trigger] query_plan_matches(*self.index, self.query->Some_0@, j)))
                    && fails_with(*self.index, #[trigger] query_plan_matches(*self.index, self.query->Some_0@, i), r->Err_0),
            !no_query_words(self.query) && query_all_ok(*self.index, self.query->Some_0@) ==> exists|d: Seq<DerivedWords>|
                d.len() == query_tokens(self.query->Some_0@).len() && (forall|i: int|
                    0 <= i < d.len() ==> derives(*self.index, query_plan_matches(*self.index, self.query->Some_0@, i), #[trigger] d[i]))
                    && #[trigger] result_is(r, outcome(*self.index, facet_view(self.facet_condition), Some(d), self.limit as nat)),
            r is Ok ==> forall|j: int|
                0 <= j < r->Ok_0.found_words@.len() ==> #[trigger] in_dictionary(*self.index, r->Ok_0.found_words@[j]@),
            r is Ok ==> r->Ok_0.documents_ids@.len() <= self.limit,
            r is Ok ==> no_duplicates(r->Ok_0.documents_ids@),
    {
        let derived = match &self.query {
            Some(q) => {
                let plan = query_words(q.as_str());
                proof {
                    assert forall|i: int| 0 <= i < plan@.len() implies #[trigger] plan_matches(*self.index, plan@[i].view())
                        == query_plan_matches(*self.index, q@, i) && plan@[i].typos <= 2 by {
                        assert(plan@[i].view() == plan_word(q@, i));
                    }
                }
                if plan.len() > 0 {
                    match fetch_words_docids(self.index, self.automata, &plan) {
                        Ok(d) => {
                            proof {
                                assert forall|i: int| 0 <= i < d@.len() implies derives(*self.index, query_plan_matches(*self.index, q@, i), #[trigger] d@[i]) by {
                                    assert(plan_matches(*self.index, plan@[i].view()) == query_plan_matches(*self.index, q@, i));
                                }
                                assert forall|i: int| 0 <= i < plan@.len() implies all_ok(*self.index, #[trigger] query_plan_matches(*self.index, q@, i)) by {
                                    assert(plan_matches(*self.index, plan@[i].view()) == query_plan_matches(*self.index, q@, i));
                                }
                            }
                            Some(d)
                        },
                        Err(e) => {
                            proof {
                                let i = choose|i: int|
                                    0 <= i < plan@.len() && (forall|j: int|
                                        0 <= j < i ==> all_ok(*self.index, plan_matches(*self.index, (#[trigger] plan@[j]).view())))
                                        && fails_with(*self.index, plan_matches(*self.index, (#[trigger] plan@[i]).view()), e);
                                assert(plan_matches(*self.index, plan@[i].view()) == query_plan_matches(*self.index, q@, i));
                                assert forall|j: int| 0 <= j < i implies all_ok(*self.index, #[trigger] query_plan_matches(*self.index, q@, j)) by {
                                    assert(plan_matches(*self.index, plan@[j].view()) == query_plan_matches(*self.index, q@, j));
                                }
                                assert(fails_with(*self.index, query_plan_matches(*self.index, q@, i), e));
                            }
                            return Err(e);
                        },
                    }
                } else {
                    None
                }
            },
            None => None,
        };
        assert(derived is Some ==> forall|i: int|
            0 <= i < derived->Some_0@.len() ==> (#[trigger] derived->Some_0@[i]).from_index(*self.index));
        let ghost dv = derived_view(derived);
        let r = self.execute_with_words(derived);
        proof {
            if r is Ok {
                let res = r->Ok_0;
                lemma_page_bounded(*self.index, candidate_set(*self.index, facet_view(self.facet_condition), dv), facet_ordering(*self.index)->Ok_0, self.limit as nat);
                assert forall|j: int| 0 <= j < res.found_words@.len() implies #[trigger] in_dictionary(*self.index, res.found_words@[j]@) by {
                    let w = res.found_words@[j]@;
                    assert(holds_word(res.found_words@, w));
                    let oc = outcome(*self.index, facet_view(self.facet_condition), dv, self.limit as nat);
                    assert(oc is Ok);
                    assert(oc->Ok_0.0 == found_set(dv));
                    assert(oc->Ok_0.0.contains(w));
                    assert(found_set(dv).contains(w));
                    assert(words_present(dv));
                    let dd = dv->Some_0;
                    assert(words_of(dd).contains(w));
                    let (a, b) = choose|a: int, b: int|
                        0 <= a < dd.len() && 0 <= b < dd[a].words@.len() && (#[trigger] dd[a].words@[b]).word@ == w;
                    assert(dd[a].from_index(*self.index));
                    assert(dd[a].words@[b].word@ == w);
                }
            }
            if !no_query_words(self.query) {
                let d = dv->Some_0;
                assert(result_is(r, outcome(*self.index, facet_view(self.facet_condition), Some(d), self.limit as nat)));
            }
        }
        r
    }
}

} // verus!
