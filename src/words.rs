//! Expansion of the query words into the words of the dictionary within the typo
//! bound, with their postings, and the candidates that hold every query word.
use crate::bitmap::{bitmap_clone, bitmap_intersect_with, bitmap_len, bitmap_new, bitmap_union_with, docs};
use crate::index::{lookup, Index};
use crate::query::QueryWord;
use crate::search::SearchError;
use fst::{IntoStreamer, Streamer};
use levenshtein_automata::LevenshteinAutomatonBuilder;
use roaring::RoaringBitmap;
use vstd::prelude::*;
use vstd::utf8::{decode_utf8, valid_utf8};

verus! {

#[verifier::external_type_specification]
#[verifier::external_body]
pub struct ExLevenshteinAutomatonBuilder(LevenshteinAutomatonBuilder);

/// The words that an in-memory word dictionary holds, as bytes.
pub uninterp spec fn fst_words(s: fst::Set<Vec<u8>>) -> Set<Seq<u8>>;

/// Relies on `LevenshteinAutomatonBuilder::new`, with a transposition counted as one
/// edit. Its cost grows exponentially with the distance, so only small ones are asked.
#[verifier::external_body]
fn lev_builder(max_distance: u8) -> LevenshteinAutomatonBuilder
    requires
        max_distance <= 2,
{
    LevenshteinAutomatonBuilder::new(max_distance, true)
}

/// The words of a dictionary within `typos` edits of `word` (a transposition counting
/// as one), in increasing byte order, each with its distance.
pub uninterp spec fn lev_matches(words: Set<Seq<u8>>, word: Seq<char>, typos: u8) -> Seq<(Seq<u8>, u8)>;

/// The words of a dictionary that start with a word within `typos` edits of `word`, in
/// increasing byte order, each with its distance.
pub uninterp spec fn lev_prefix_matches(words: Set<Seq<u8>>, word: Seq<char>, typos: u8) -> Seq<(Seq<u8>, u8)>;

/// The dictionary matches as plain values.
pub open spec fn match_view(m: Seq<(Vec<u8>, u8)>) -> Seq<(Seq<u8>, u8)> {
    m.map_values(|p: (Vec<u8>, u8)| (p.0@, p.1))
}

/// Relies on `LevenshteinAutomatonBuilder::build_dfa`, `fst::Set::search_with_state`
/// and `DFA::distance`: the words of the set that the automaton of the builder for
/// `typos` accepts, streamed once each in increasing order, with their distances.
#[verifier::external_body]
fn dictionary_words(set: &fst::Set<Vec<u8>>, automata: &Automata, word: &str, typos: u8) -> (r: Vec<(Vec<u8>, u8)>)
    requires
        typos <= 2,
    ensures
        match_view(r@) == lev_matches(fst_words(*set), word@, typos),
        forall|i: int| 0 <= i < r@.len() ==> fst_words(*set).contains((#[trigger] r@[i]).0@),
        forall|i: int, j: int| 0 <= i < j < r@.len() ==> (#[trigger] r@[i]).0@ != (#[trigger] r@[j]).0@,
{
    let dfa = automata.levs[typos as usize].build_dfa(word);
    let mut out = Vec::new();
    let mut stream = set.search_with_state(&dfa).into_stream();
    while let Some((w, state)) = stream.next() {
        out.push((w.to_vec(), dfa.distance(state).to_u8()));
    }
    out
}

/// Relies on `LevenshteinAutomatonBuilder::build_prefix_dfa`,
/// `fst::Set::search_with_state` and `DFA::distance`: the words of the set that the
/// prefix automaton of the builder for `typos` accepts, streamed once each in
/// increasing order, with their distances.
#[verifier::external_body]
fn dictionary_prefix_words(set: &fst::Set<Vec<u8>>, automata: &Automata, word: &str, typos: u8) -> (r: Vec<(Vec<u8>, u8)>)
    requires
        typos <= 2,
    ensures
        match_view(r@) == lev_prefix_matches(fst_words(*set), word@, typos),
        forall|i: int| 0 <= i < r@.len() ==> fst_words(*set).contains((#[trigger] r@[i]).0@),
        forall|i: int, j: int| 0 <= i < j < r@.len() ==> (#[trigger] r@[i]).0@ != (#[trigger] r@[j]).0@,
{
    let dfa = automata.levs[typos as usize].build_prefix_dfa(word);
    let mut out = Vec::new();
    let mut stream = set.search_with_state(&dfa).into_stream();
    while let Some((w, state)) = stream.next() {
        out.push((w.to_vec(), dfa.distance(state).to_u8()));
    }
    out
}

/// Relies on `String::from_utf8`: succeeds exactly on valid UTF-8, which it decodes.
#[verifier::external_body]
fn utf8_string(bytes: Vec<u8>) -> (r: Option<String>)
    ensures
        r is Some <==> valid_utf8(bytes@),
        r is Some ==> r->Some_0@ == decode_utf8(bytes@),
{
    String::from_utf8(bytes).ok()
}

/// The three automaton factories: the one at index `d` allows at most `d` typos.
/// Building them is costly: make them once and share them.
pub struct Automata {
    levs: [LevenshteinAutomatonBuilder; 3],
}

impl Automata {
    pub fn new() -> Automata {
        Automata { levs: [lev_builder(0), lev_builder(1), lev_builder(2)] }
    }
}

/// The dictionary matches of a planned query word `(word, is_prefix, typos)`.
pub open spec fn plan_matches(index: Index, w: (Seq<char>, bool, u8)) -> Seq<(Seq<u8>, u8)> {
    if w.1 {
        lev_prefix_matches(fst_words(index.words_fst), w.0, w.2)
    } else {
        lev_matches(fst_words(index.words_fst), w.0, w.2)
    }
}

/// Every matched word can be taken.
pub open spec fn all_ok(index: Index, m: Seq<(Seq<u8>, u8)>) -> bool {
    forall|i: int| 0 <= i < m.len() ==> match_ok(index, #[trigger] m[i].0)
}

/// `e` is the error of the first matched word that cannot be taken.
pub open spec fn fails_with(index: Index, m: Seq<(Seq<u8>, u8)>, e: SearchError) -> bool {
    exists|k: int|
        0 <= k < m.len() && !match_ok(index, #[trigger] m[k].0) && (forall|j: int|
            0 <= j < k ==> match_ok(index, #[trigger] m[j].0)) && e == match_error(m[k].0)
}

/// `d` holds the matched words, decoded, with their distances and postings, and the
/// union of the postings.
pub open spec fn derives(index: Index, m: Seq<(Seq<u8>, u8)>, d: DerivedWords) -> bool {
    &&& d.words@.len() == m.len()
    &&& forall|i: int|
        0 <= i < m.len() ==> (#[trigger] d.words@[i]).word@ == decode_utf8(m[i].0) && d.words@[i].distance
            == m[i].1 && lookup(index.word_docids@, m[i].0) == Some(docs(d.words@[i].docids))
    &&& docs(d.union_docids) == union_all(d.postings())
}

/// A word of the dictionary derived from a query word.
pub struct DerivedWord {
    pub word: String,
    pub distance: u8,
    pub docids: RoaringBitmap,
}

/// The words derived from one query word, and the union of their postings.
pub struct DerivedWords {
    pub words: Vec<DerivedWord>,
    pub union_docids: RoaringBitmap,
}

/// The union of a sequence of sets.
pub open spec fn union_all(s: Seq<Set<u32>>) -> Set<u32>
    decreases s.len(),
{
    if s.len() == 0 {
        Set::empty()
    } else {
        union_all(s.drop_last()).union(s.last())
    }
}

/// A dictionary word can be taken: it is UTF-8 and has postings.
pub open spec fn match_ok(index: Index, w: Seq<u8>) -> bool {
    valid_utf8(w) && lookup(index.word_docids@, w) is Some
}

/// The error for a dictionary word that cannot be taken.
pub open spec fn match_error(w: Seq<u8>) -> SearchError {
    if !valid_utf8(w) {
        SearchError::InvalidWord
    } else {
        SearchError::MissingWordDocids
    }
}

impl DerivedWords {
    pub open spec fn postings(&self) -> Seq<Set<u32>> {
        self.words@.map_values(|d: DerivedWord| docs(d.docids))
    }

    /// Every word is a word of the index's dictionary, with its postings, and the
    /// union is that of all the postings.
    pub open spec fn from_index(&self, index: Index) -> bool {
        &&& forall|k: int|
            0 <= k < self.words@.len() ==> exists|b: Seq<u8>|
                #![trigger fst_words(index.words_fst).contains(b)]
                fst_words(index.words_fst).contains(b) && valid_utf8(b) && decode_utf8(b)
                    == (#[trigger] self.words@[k]).word@ && lookup(index.word_docids@, b) == Some(
                    docs(self.words@[k].docids),
                )
        &&& docs(self.union_docids) == union_all(self.postings())
    }
}

/// Takes the dictionary words that an automaton accepted: fetches their postings and
/// unites them. Fails on the first word that is not UTF-8 or has no postings.
pub fn derive_words(index: &Index, matches: Vec<(Vec<u8>, u8)>) -> (r: Result<DerivedWords, SearchError>)
    ensures
        r is Ok <==> all_ok(*index, match_view(matches@)),
        r is Err ==> fails_with(*index, match_view(matches@), r->Err_0),
        r is Ok ==> derives(*index, match_view(matches@), r->Ok_0),
{
    let ghost m = match_view(matches@);
    let mut words: Vec<DerivedWord> = Vec::new();
    let mut union_docids = bitmap_new();
    let mut i: usize = 0;
    while i < matches.len()
        invariant
            m == match_view(matches@),
            i <= matches@.len(),
            words@.len() == i,
            forall|j: int| 0 <= j < i ==> match_ok(*index, #[trigger] matches@[j].0@),
            forall|j: int|
                0 <= j < i ==> (#[trigger] words@[j]).word@ == decode_utf8(matches@[j].0@)
                    && words@[j].distance == matches@[j].1 && lookup(index.word_docids@, matches@[j].0@)
                    == Some(docs(words@[j].docids)),
            docs(union_docids) == union_all(words@.map_values(|d: DerivedWord| docs(d.docids))),
        decreases matches@.len() - i,
    {
        assert(m[i as int] == (matches@[i as int].0@, matches@[i as int].1));
        proof {
            assert forall|j: int| 0 <= j < i implies match_ok(*index, #[trigger] m[j].0) by {
                assert(m[j] == (matches@[j].0@, matches@[j].1));
            }
        }
        let bytes = &matches[i].0;
        let docids = match index.word_docids_get(bytes.as_slice()) {
            Some(d) => d,
            None => {
                let e = match utf8_string(bytes.clone()) {
                    Some(_) => SearchError::MissingWordDocids,
                    None => SearchError::InvalidWord,
                };
                proof {
                    assert(!match_ok(*index, m[i as int].0) && e == match_error(m[i as int].0));
                    assert(fails_with(*index, m, e));
                }
                return Err(e);
            },
        };
        let word = match utf8_string(bytes.clone()) {
            Some(w) => w,
            None => {
                proof {
                    assert(!match_ok(*index, m[i as int].0));
                    assert(SearchError::InvalidWord == match_error(m[i as int].0));
                    assert(fails_with(*index, m, SearchError::InvalidWord));
                }
                return Err(SearchError::InvalidWord);
            },
        };
        bitmap_union_with(&mut union_docids, &docids);
        let ghost before = words@;
        words.push(DerivedWord { word, distance: matches[i].1, docids });
        proof {
            assert(words@.map_values(|d: DerivedWord| docs(d.docids)).drop_last() =~= before.map_values(
                |d: DerivedWord| docs(d.docids),
            ));
        }
        i = i + 1;
    }
    proof {
        assert forall|j: int| 0 <= j < m.len() implies match_ok(*index, #[trigger] m[j].0) by {
            assert(m[j] == (matches@[j].0@, matches@[j].1));
        }
        assert forall|j: int| 0 <= j < m.len() implies (#[trigger] words@[j]).word@ == decode_utf8(m[j].0)
            && words@[j].distance == m[j].1 && lookup(index.word_docids@, m[j].0) == Some(docs(words@[j].docids)) by {
            assert(m[j] == (matches@[j].0@, matches@[j].1));
        }
    }
    Ok(DerivedWords { words, union_docids })
}

/// Looks up every planned query word in the dictionary and fetches the postings of
/// the words it derives.
pub fn fetch_words_docids(index: &Index, automata: &Automata, plan: &Vec<QueryWord>) -> (r: Result<
    Vec<DerivedWords>,
    SearchError,
>)
    requires
        forall|i: int| 0 <= i < plan@.len() ==> (#[trigger] plan@[i]).typos <= 2,
    ensures
        r is Ok <==> forall|i: int| 0 <= i < plan@.len() ==> all_ok(*index, plan_matches(*index, (#[trigger] plan@[i]).view())),
        r is Err ==> exists|i: int|
            0 <= i < plan@.len() && (forall|j: int|
                0 <= j < i ==> all_ok(*index, plan_matches(*index, (#[trigger] plan@[j]).view())))
                && fails_with(*index, plan_matches(*index, (#[trigger] plan@[i]).view()), r->Err_0),
        r is Ok ==> r->Ok_0@.len() == plan@.len() && forall|i: int|
            0 <= i < plan@.len() ==> derives(*index, plan_matches(*index, plan@[i].view()), #[trigger] r->Ok_0@[i])
                && r->Ok_0@[i].from_index(*index),
{
    let mut derived: Vec<DerivedWords> = Vec::new();
    let mut i: usize = 0;
    while i < plan.len()
        invariant
            i <= plan@.len(),
            derived@.len() == i,
            forall|j: int| 0 <= j < plan@.len() ==> (#[trigger] plan@[j]).typos <= 2,
            forall|j: int| 0 <= j < i ==> all_ok(*index, plan_matches(*index, (#[trigger] plan@[j]).view())),
            forall|j: int|
                0 <= j < i ==> derives(*index, plan_matches(*index, plan@[j].view()), #[trigger] derived@[j])
                    && derived@[j].from_index(*index),
        decreases plan@.len() - i,
    {
        let w = &plan[i];
        let matches = if w.is_prefix {
            dictionary_prefix_words(&index.words_fst, automata, w.word.as_str(), w.typos)
        } else {
            dictionary_words(&index.words_fst, automata, w.word.as_str(), w.typos)
        };
        let ghost m = matches@;
        assert(match_view(m) == plan_matches(*index, plan@[i as int].view()));
        let d = match derive_words(index, matches) {
            Ok(d) => d,
            Err(e) => {
                return Err(e);
            },
        };
        proof {
            assert forall|k: int| 0 <= k < d.words@.len() implies exists|b: Seq<u8>|
                #![trigger fst_words(index.words_fst).contains(b)]
                fst_words(index.words_fst).contains(b) && valid_utf8(b) && decode_utf8(b)
                    == (#[trigger] d.words@[k]).word@ && lookup(index.word_docids@, b) == Some(
                    docs(d.words@[k].docids),
                ) by {
                assert(match_view(m)[k] == (m[k].0@, m[k].1));
                assert(match_ok(*index, match_view(m)[k].0));
                assert(fst_words(index.words_fst).contains(m[k].0@));
            }
        }
        derived.push(d);
        i = i + 1;
    }
    Ok(derived)
}

/// The documents in every one of the sets; none when there are no sets.
pub open spec fn intersect_all(s: Seq<Set<u32>>) -> Set<u32> {
    if s.len() == 0 {
        Set::empty()
    } else {
        Set::new(|d: u32| forall|i: int| 0 <= i < s.len() ==> (#[trigger] s[i]).contains(d))
    }
}

pub open spec fn unions(derived: Seq<DerivedWords>) -> Seq<Set<u32>> {
    derived.map_values(|d: DerivedWords| docs(d.union_docids))
}

/// Index `x` occurs in `s`.
pub open spec fn covered(s: Seq<usize>, x: int) -> bool {
    exists|k: int| 0 <= k < s.len() && #[trigger] s[k] == x
}

/// Orders the indices of `derived` by increasing size of their unions.
fn by_popularity(derived: &Vec<DerivedWords>) -> (r: Vec<usize>)
    ensures
        r@.len() == derived@.len(),
        forall|k: int| 0 <= k < r@.len() ==> (#[trigger] r@[k]) < derived@.len(),
        forall|i: int| 0 <= i < derived@.len() ==> #[trigger] covered(r@, i),
{
    let n = derived.len();
    let mut order: Vec<usize> = Vec::new();
    let mut sizes: Vec<u64> = Vec::new();
    let mut i: usize = 0;
    while i < n
        invariant
            n == derived@.len(),
            i <= n,
            order@.len() == i,
            sizes@.len() == i,
            forall|k: int| 0 <= k < i ==> (#[trigger] order@[k]) == k,
        decreases n - i,
    {
        order.push(i);
        sizes.push(bitmap_len(&derived[i].union_docids));
        i = i + 1;
    }
    assert forall|x: int| 0 <= x < n implies #[trigger] covered(order@, x) by {
        assert(order@[x] == x);
    }
    let mut pass: usize = 0;
    while pass < n
        invariant
            n == derived@.len(),
            order@.len() == n,
            sizes@.len() == n,
            forall|k: int| 0 <= k < n ==> (#[trigger] order@[k]) < n,
            forall|x: int| 0 <= x < n ==> #[trigger] covered(order@, x),
        decreases n - pass,
    {
        let mut j: usize = 1;
        while j < n
            invariant
                n == derived@.len(),
                1 <= j,
                order@.len() == n,
                sizes@.len() == n,
                forall|k: int| 0 <= k < n ==> (#[trigger] order@[k]) < n,
                forall|x: int| 0 <= x < n ==> #[trigger] covered(order@, x),
            decreases n - j,
        {
            if sizes[j - 1] > sizes[j] {
                let ghost before = order@;
                let a = order[j - 1];
                let b = order[j];
                let sa = sizes[j - 1];
                let sb = sizes[j];
                order.set(j - 1, b);
                order.set(j, a);
                sizes.set(j - 1, sb);
                sizes.set(j, sa);
                assert forall|x: int| 0 <= x < n implies #[trigger] covered(order@, x) by {
                    assert(covered(before, x));
                    let k0 = choose|k: int| 0 <= k < before.len() && #[trigger] before[k] == x;
                    if k0 == j - 1 {
                        assert(order@[j as int] == x);
                    } else if k0 == j {
                        assert(order@[j - 1] == x);
                    } else {
                        assert(order@[k0] == x);
                    }
                }
            }
            j = j + 1;
        }
        pass = pass + 1;
    }
    order
}

/// The documents that hold a derived word of every query word. The unions are
/// intersected from the least popular up.
pub fn compute_candidates(derived: &Vec<DerivedWords>) -> (r: RoaringBitmap)
    ensures
        docs(r) == intersect_all(unions(derived@)),
{
    let order = by_popularity(derived);
    let n = order.len();
    if n == 0 {
        return bitmap_new();
    }
    let mut candidates = bitmap_clone(&derived[order[0]].union_docids);
    let mut j: usize = 1;
    while j < n
        invariant
            n == order@.len() == derived@.len(),
            1 <= j <= n,
            forall|k: int| 0 <= k < n ==> (#[trigger] order@[k]) < n,
            forall|d: u32|
                docs(candidates).contains(d) <==> (forall|k: int|
                    0 <= k < j ==> docs(#[trigger] derived@[order@[k] as int].union_docids).contains(d)),
        decreases n - j,
    {
        bitmap_intersect_with(&mut candidates, &derived[order[j]].union_docids);
        j = j + 1;
    }
    proof {
        let u = unions(derived@);
        assert forall|d: u32| docs(candidates).contains(d) <==> intersect_all(u).contains(d) by {
            if docs(candidates).contains(d) {
                assert forall|i: int| 0 <= i < u.len() implies (#[trigger] u[i]).contains(d) by {
                    assert(covered(order@, i));
                    let k = choose|k: int| 0 <= k < order@.len() && #[trigger] order@[k] == i;
                    assert(docs(derived@[order@[k] as int].union_docids).contains(d));
                }
            }
            if intersect_all(u).contains(d) {
                assert forall|k: int| 0 <= k < j implies docs(
                    #[trigger] derived@[order@[k] as int].union_docids,
                ).contains(d) by {
                    assert(u[order@[k] as int].contains(d));
                }
            }
        }
        assert(docs(candidates) =~= intersect_all(u));
    }
    candidates
}

} // verus!
