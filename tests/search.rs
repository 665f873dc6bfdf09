use milli::query::{query_words, tokenize, QueryToken};
use milli::search::order_by_facet;
use milli::words::{compute_candidates, derive_words};
use milli::{Automata, Criterion, FacetCondition, FacetType, Index, Order, Search, SearchError};
use roaring::RoaringBitmap;

fn bitmap(ids: &[u32]) -> RoaringBitmap {
    ids.iter().copied().collect()
}

fn index_with(words: &[(&str, &[u32])]) -> Index {
    let mut sorted: Vec<&str> = words.iter().map(|(w, _)| *w).collect();
    sorted.sort();
    Index {
        words_fst: fst::Set::from_iter(sorted).unwrap(),
        word_docids: words.iter().map(|(w, ids)| (w.as_bytes().to_vec(), bitmap(ids))).collect(),
        documents_ids: (1..=10).collect(),
        criteria: vec![],
        faceted_fields: vec![],
        facet_numbers: vec![],
    }
}

fn sorted_words(words: &[String]) -> Vec<String> {
    let mut w = words.to_vec();
    w.sort();
    w
}

#[test]
fn two_words_intersect() {
    let index = index_with(&[("hello", &[1, 2, 3]), ("world", &[2, 3, 4])]);
    let automata = Automata::new();
    let mut search = Search::new(&index, &automata);
    search.query("hello world".to_string()).limit(10);
    let result = search.execute().unwrap();
    assert_eq!(result.documents_ids, vec![2, 3]);
    assert_eq!(sorted_words(&result.found_words), vec!["hello".to_string(), "world".to_string()]);
}

#[test]
fn four_byte_word_allows_no_typo() {
    // "helo" has four bytes: it must match exactly, and the dictionary lacks it.
    let index = index_with(&[("hallo", &[5, 6]), ("world", &[2, 3, 4, 5, 6])]);
    let automata = Automata::new();
    let mut search = Search::new(&index, &automata);
    search.query("helo world".to_string());
    search.limit(10);
    let result = search.execute().unwrap();
    assert_eq!(result.documents_ids, Vec::<u32>::new());
    assert_eq!(result.found_words, vec!["world".to_string()]);
}

#[test]
fn one_typo_expansion_matches() {
    let index = index_with(&[("hallo", &[5, 6]), ("world", &[2, 3, 4, 5, 6])]);
    let automata = Automata::new();
    let mut search = Search::new(&index, &automata);
    search.query("hello world".to_string());
    search.limit(10);
    let result = search.execute().unwrap();
    assert_eq!(result.documents_ids, vec![5, 6]);
    assert_eq!(sorted_words(&result.found_words), vec!["hallo".to_string(), "world".to_string()]);
}

#[test]
fn quoted_short_word_plan() {
    let plan = query_words("\"a\" cat");
    assert_eq!(plan.len(), 2);
    assert_eq!(plan[0].word, "a");
    assert_eq!(plan[0].typos, 0);
    assert!(!plan[0].is_prefix);
    assert_eq!(plan[1].word, "cat");
    assert_eq!(plan[1].typos, 0);
    // A free word of at most three bytes must match exactly, so it is no prefix.
    assert!(!plan[1].is_prefix);
}

#[test]
fn facet_only_first_page() {
    let index = index_with(&[("hello", &[1])]);
    let automata = Automata::new();
    let mut search = Search::new(&index, &automata);
    search.facet_condition(FacetCondition { documents_ids: bitmap(&[3, 7, 9]) });
    search.limit(2);
    let result = search.execute().unwrap();
    assert_eq!(result.documents_ids, vec![3, 7]);
    assert!(result.found_words.is_empty());
}

fn price_index() -> Index {
    let mut index = index_with(&[("hello", &[1, 3, 7, 9])]);
    index.criteria = vec![Criterion::Words, Criterion::Asc(1)];
    index.faceted_fields = vec![(1, FacetType::Float)];
    index.facet_numbers = vec![(1, vec![bitmap(&[9]), bitmap(&[3]), bitmap(&[7]), bitmap(&[1])])];
    index
}

#[test]
fn ascending_price_order() {
    let index = price_index();
    let automata = Automata::new();
    let mut search = Search::new(&index, &automata);
    search.limit(3);
    let result = search.execute().unwrap();
    assert_eq!(result.documents_ids, vec![9, 3, 7]);
}

#[test]
fn descending_price_order() {
    let mut index = price_index();
    index.criteria = vec![Criterion::Desc(1)];
    let automata = Automata::new();
    let mut search = Search::new(&index, &automata);
    search.limit(3);
    let result = search.execute().unwrap();
    assert_eq!(result.documents_ids, vec![1, 7, 3]);
}

#[test]
fn ordered_words_search() {
    let index = price_index();
    let automata = Automata::new();
    let mut search = Search::new(&index, &automata);
    search.query("hello".to_string());
    search.limit(10);
    let result = search.execute().unwrap();
    assert_eq!(result.documents_ids, vec![9, 3, 7, 1]);
}

#[test]
fn string_criterion_rejected() {
    let mut index = index_with(&[("hello", &[1])]);
    index.criteria = vec![Criterion::Asc(2)];
    index.faceted_fields = vec![(2, FacetType::String)];
    let automata = Automata::new();
    let search = Search::new(&index, &automata);
    let err = search.execute().err().unwrap();
    assert_eq!(err, SearchError::CriteriaFacetTypeNotNumber);
    assert_eq!(err.message(), "criteria facet type must be a number");
}

#[test]
fn unknown_field_rejected() {
    let mut index = index_with(&[("hello", &[1])]);
    index.criteria = vec![Criterion::Desc(4)];
    let automata = Automata::new();
    let search = Search::new(&index, &automata);
    let err = search.execute().err().unwrap();
    assert_eq!(err, SearchError::UnknownFieldId);
    assert_eq!(err.message(), "unknown field id");
}

#[test]
fn first_directional_criterion_chosen() {
    let mut index = index_with(&[("hello", &[1])]);
    index.criteria = vec![Criterion::Typo, Criterion::Desc(3), Criterion::Asc(1)];
    index.faceted_fields = vec![(1, FacetType::Integer), (3, FacetType::Float)];
    assert!(matches!(order_by_facet(&index), Ok(Some((3, FacetType::Float, Order::Desc)))));
}

#[test]
fn missing_postings_is_an_error() {
    let mut index = index_with(&[("hello", &[1])]);
    index.word_docids = vec![];
    let automata = Automata::new();
    let mut search = Search::new(&index, &automata);
    search.query("hello".to_string());
    assert_eq!(search.execute().err().unwrap(), SearchError::MissingWordDocids);
}

#[test]
fn derive_words_errors() {
    let index = index_with(&[("hello", &[1, 2])]);
    let missing = derive_words(&index, vec![(b"nope".to_vec(), 0)]);
    assert_eq!(missing.err().unwrap(), SearchError::MissingWordDocids);
    let invalid = derive_words(&index, vec![(vec![0xff, 0xfe], 0)]);
    assert_eq!(invalid.err().unwrap(), SearchError::InvalidWord);
    let ok = derive_words(&index, vec![(b"hello".to_vec(), 1)]).unwrap();
    assert_eq!(ok.words.len(), 1);
    assert_eq!(ok.words[0].word, "hello");
    assert_eq!(ok.words[0].distance, 1);
    assert_eq!(ok.union_docids, bitmap(&[1, 2]));
}

#[test]
fn candidates_intersect_all_unions() {
    let index = index_with(&[("a1", &[1, 2, 3, 4]), ("b1", &[2, 3]), ("c1", &[3, 4, 2])]);
    let d = vec![
        derive_words(&index, vec![(b"a1".to_vec(), 0)]).unwrap(),
        derive_words(&index, vec![(b"b1".to_vec(), 0)]).unwrap(),
        derive_words(&index, vec![(b"c1".to_vec(), 0)]).unwrap(),
    ];
    assert_eq!(compute_candidates(&d), bitmap(&[2, 3]));
    assert_eq!(compute_candidates(&vec![]), RoaringBitmap::new());
}

#[test]
fn empty_query_returns_first_documents() {
    let index = index_with(&[("hello", &[1])]);
    let automata = Automata::new();
    let mut search = Search::new(&index, &automata);
    search.query("   ".to_string());
    search.limit(4);
    let result = search.execute().unwrap();
    assert_eq!(result.documents_ids, vec![1, 2, 3, 4]);
    assert!(result.found_words.is_empty());
}

#[test]
fn default_limit_is_twenty() {
    let mut index = index_with(&[("hello", &[1])]);
    index.documents_ids = (0..100).collect();
    let automata = Automata::new();
    let search = Search::new(&index, &automata);
    let result = search.execute().unwrap();
    assert_eq!(result.documents_ids, (0..20).collect::<Vec<u32>>());
}

#[test]
fn zero_limit_gives_empty_page() {
    let index = index_with(&[("hello", &[1, 2])]);
    let automata = Automata::new();
    let mut search = Search::new(&index, &automata);
    search.query("hello".to_string());
    search.limit(0);
    let result = search.execute().unwrap();
    assert!(result.documents_ids.is_empty());
    assert_eq!(result.found_words, vec!["hello".to_string()]);
}

#[test]
fn repeated_word_found_once() {
    let index = index_with(&[("hello", &[1, 2])]);
    let automata = Automata::new();
    let mut search = Search::new(&index, &automata);
    search.query("hello hello".to_string());
    let result = search.execute().unwrap();
    assert_eq!(result.found_words, vec!["hello".to_string()]);
    assert_eq!(result.documents_ids, vec![1, 2]);
}

#[test]
fn prefix_last_word() {
    let index = index_with(&[("hello", &[1, 2]), ("world", &[2, 5])]);
    let automata = Automata::new();
    let mut search = Search::new(&index, &automata);
    search.query("worl".to_string());
    let result = search.execute().unwrap();
    assert_eq!(result.documents_ids, vec![2, 5]);
    assert_eq!(result.found_words, vec!["world".to_string()]);
    // With a trailing space the word is whole, and "worl" is not in the dictionary.
    search.query("worl ".to_string());
    let result = search.execute().unwrap();
    assert!(result.documents_ids.is_empty());
}

#[test]
fn uppercase_query_is_lowercased() {
    let index = index_with(&[("hello", &[1, 2])]);
    let automata = Automata::new();
    let mut search = Search::new(&index, &automata);
    search.query("HELLO".to_string());
    let result = search.execute().unwrap();
    assert_eq!(result.documents_ids, vec![1, 2]);
}

#[test]
fn facet_and_words_compose() {
    let index = index_with(&[("hello", &[1, 2, 3, 4])]);
    let automata = Automata::new();
    let mut search = Search::new(&index, &automata);
    search.query("hello".to_string());
    let all = search.execute().unwrap();
    search.facet_condition(FacetCondition { documents_ids: bitmap(&[2, 4, 8]) });
    let filtered = search.execute().unwrap();
    assert_eq!(all.documents_ids, vec![1, 2, 3, 4]);
    assert_eq!(filtered.documents_ids, vec![2, 4]);
}

#[test]
fn same_search_twice_is_equal() {
    let index = index_with(&[("hello", &[1, 2, 3]), ("world", &[2, 3, 4])]);
    let automata = Automata::new();
    let mut search = Search::new(&index, &automata);
    search.query("hello world".to_string());
    let a = search.execute().unwrap();
    let b = search.execute().unwrap();
    assert_eq!(a.documents_ids, b.documents_ids);
    assert_eq!(a.found_words, b.found_words);
}

#[test]
fn offset_leaves_words_unchanged() {
    let index = index_with(&[("hello", &[1, 2, 3]), ("world", &[2, 3, 4])]);
    let automata = Automata::new();
    let mut search = Search::new(&index, &automata);
    search.query("hello world".to_string());
    let a = search.execute().unwrap();
    search.offset(5);
    let b = search.execute().unwrap();
    assert_eq!(sorted_words(&a.found_words), sorted_words(&b.found_words));
    assert_eq!(a.documents_ids, b.documents_ids);
}

#[test]
fn page_bounded_and_distinct() {
    let index = index_with(&[("hello", &[1, 2, 3, 4, 5, 6])]);
    let automata = Automata::new();
    let mut search = Search::new(&index, &automata);
    search.query("hello".to_string());
    search.limit(3);
    let result = search.execute().unwrap();
    assert_eq!(result.documents_ids, vec![1, 2, 3]);
}

#[test]
fn overlapping_facet_groups_keep_each_document_once() {
    let mut index = price_index();
    index.facet_numbers = vec![(1, vec![bitmap(&[9, 3]), bitmap(&[3, 7]), bitmap(&[7, 1])])];
    let automata = Automata::new();
    let mut search = Search::new(&index, &automata);
    search.limit(10);
    let result = search.execute().unwrap();
    assert_eq!(result.documents_ids, vec![3, 9, 7, 1]);
}

#[test]
fn tokenizer_splits_quotes_and_spaces() {
    let tokens = tokenize("Hello \"big world\"  x");
    let view: Vec<(String, bool)> = tokens
        .into_iter()
        .map(|t| match t {
            QueryToken::Free(w) => (w, false),
            QueryToken::Quoted(w) => (w, true),
        })
        .collect();
    assert_eq!(
        view,
        vec![
            ("Hello".to_string(), false),
            ("big".to_string(), true),
            ("world".to_string(), true),
            ("x".to_string(), false),
        ]
    );
}

#[test]
fn typo_bounds_by_length() {
    let plan = query_words("abcd abcde abcdefgh abcdefghi");
    let typos: Vec<u8> = plan.iter().map(|w| w.typos).collect();
    assert_eq!(typos, vec![0, 1, 1, 2]);
    assert!(plan[3].is_prefix);
    assert!(!plan[2].is_prefix);
}

#[test]
fn two_typos_for_long_words() {
    let index = index_with(&[("beautiful", &[4, 8])]);
    let automata = Automata::new();
    let mut search = Search::new(&index, &automata);
    search.query("beuatifl ".to_string());
    let r = search.execute().unwrap();
    assert!(r.documents_ids.is_empty());
    search.query("beuatiful ".to_string());
    let r = search.execute().unwrap();
    assert_eq!(r.documents_ids, vec![4, 8]);
}
