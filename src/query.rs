//! Splitting a query string into words, and the plan of how each word is expanded.
use vstd::prelude::*;
use vstd::string::*;
use vstd::utf8::encode_utf8;

verus! {

/// A word of the query: `Free` words may match with typos, `Quoted` ones must match exactly.
pub enum QueryToken {
    Free(String),
    Quoted(String),
}

impl QueryToken {
    pub open spec fn view_word(&self) -> Seq<char> {
        match self {
            QueryToken::Free(w) => w@,
            QueryToken::Quoted(w) => w@,
        }
    }

    pub open spec fn view_quoted(&self) -> bool {
        self is Quoted
    }
}

/// Unicode's White_Space property, as `char::is_whitespace` tests it.
pub open spec fn spec_is_whitespace(c: char) -> bool {
    ('\u{9}' <= c <= '\u{d}') || c == ' ' || c == '\u{85}' || c == '\u{a0}' || c == '\u{1680}'
        || ('\u{2000}' <= c <= '\u{200a}') || c == '\u{2028}' || c == '\u{2029}'
        || c == '\u{202f}' || c == '\u{205f}' || c == '\u{3000}'
}

pub fn is_whitespace(c: char) -> (r: bool)
    ensures
        r == spec_is_whitespace(c),
{
    ('\u{9}' <= c && c <= '\u{d}') || c == ' ' || c == '\u{85}' || c == '\u{a0}' || c == '\u{1680}'
        || ('\u{2000}' <= c && c <= '\u{200a}') || c == '\u{2028}' || c == '\u{2029}'
        || c == '\u{202f}' || c == '\u{205f}' || c == '\u{3000}'
}

/// Where the scan of a query stands: the words done, the word being read, inside quotes or not.
pub type ScanState = (Seq<(Seq<char>, bool)>, Seq<char>, bool);

/// Ends the word being read, keeping it only when it is not empty.
pub open spec fn flush(done: Seq<(Seq<char>, bool)>, word: Seq<char>, quoted: bool) -> Seq<(Seq<char>, bool)> {
    if word.len() > 0 {
        done.push((word, quoted))
    } else {
        done
    }
}

/// A double quote opens or closes a quoted part, whitespace ends a word, anything else extends it.
pub open spec fn scan_step(st: ScanState, c: char) -> ScanState {
    if c == '"' {
        (flush(st.0, st.1, st.2), Seq::empty(), !st.2)
    } else if spec_is_whitespace(c) {
        (flush(st.0, st.1, st.2), Seq::empty(), st.2)
    } else {
        (st.0, st.1.push(c), st.2)
    }
}

pub open spec fn scan(s: Seq<char>) -> ScanState
    decreases s.len(),
{
    if s.len() == 0 {
        (Seq::empty(), Seq::empty(), false)
    } else {
        scan_step(scan(s.drop_last()), s.last())
    }
}

/// The words of a query, each with whether it was quoted.
pub open spec fn query_tokens(s: Seq<char>) -> Seq<(Seq<char>, bool)> {
    let st = scan(s);
    flush(st.0, st.1, st.2)
}

/// Splits a query into its words.
pub fn tokenize(query: &str) -> (r: Vec<QueryToken>)
    ensures
        r@.len() == query_tokens(query@).len(),
        forall|i: int|
            0 <= i < r@.len() ==> (#[trigger] r@[i]).view_word() == query_tokens(query@)[i].0
                && r@[i].view_quoted() == query_tokens(query@)[i].1,
{
    let n = query.unicode_len();
    let mut tokens: Vec<QueryToken> = Vec::new();
    let mut start: usize = 0;
    let mut quoted = false;
    let mut i: usize = 0;
    while i < n
        invariant
            n == query@.len(),
            start <= i <= n,
            scan(query@.subrange(0, i as int)).0.len() == tokens@.len(),
            forall|k: int|
                0 <= k < tokens@.len() ==> (#[trigger] tokens@[k]).view_word() == scan(
                    query@.subrange(0, i as int),
                ).0[k].0 && tokens@[k].view_quoted() == scan(query@.subrange(0, i as int)).0[k].1,
            scan(query@.subrange(0, i as int)).1 == query@.subrange(start as int, i as int),
            scan(query@.subrange(0, i as int)).2 == quoted,
        decreases n - i,
    {
        let c = query.get_char(i);
        proof {
            assert(query@.subrange(0, i + 1).drop_last() =~= query@.subrange(0, i as int));
        }
        if c == '"' || is_whitespace(c) {
            if start < i {
                let w = String::from_str(query.substring_char(start, i));
                if quoted {
                    tokens.push(QueryToken::Quoted(w));
                } else {
                    tokens.push(QueryToken::Free(w));
                }
            }
            if c == '"' {
                quoted = !quoted;
            }
            start = i + 1;
        }
        i = i + 1;
        proof {
            assert(query@.subrange(start as int, i as int) =~= scan(query@.subrange(0, i as int)).1);
        }
    }
    if start < n {
        let w = String::from_str(query.substring_char(start, n));
        if quoted {
            tokens.push(QueryToken::Quoted(w));
        } else {
            tokens.push(QueryToken::Free(w));
        }
    }
    proof {
        assert(query@.subrange(0, n as int) =~= query@);
    }
    tokens
}

/// What `str::to_lowercase` makes of a word.
pub uninterp spec fn lowercase_of(s: Seq<char>) -> Seq<char>;

/// Relies on `str::to_lowercase`, whose result depends on the characters alone.
#[verifier::external_body]
fn to_lowercase(s: &str) -> (r: String)
    ensures
        r@ == lowercase_of(s@),
{
    s.to_lowercase()
}

/// How one query word is looked up: the lowercased word, whether any word that it
/// starts (within the typo bound) matches, and how many typos are allowed.
pub struct QueryWord {
    pub word: String,
    pub is_prefix: bool,
    pub typos: u8,
}

/// Typos allowed for a word of `len` bytes: none when it must match exactly or is
/// at most four bytes long, one up to eight bytes, two beyond.
pub open spec fn typo_bound(len: nat, exact: bool) -> u8 {
    if exact || len <= 4 {
        0
    } else if len <= 8 {
        1
    } else {
        2
    }
}

pub open spec fn ends_with_whitespace(q: Seq<char>) -> bool {
    q.len() > 0 && spec_is_whitespace(q.last())
}

/// A quoted word, or a free word of at most three bytes, must match exactly.
pub open spec fn token_exact(tok: (Seq<char>, bool)) -> bool {
    tok.1 || encode_utf8(tok.0).len() <= 3
}

/// The plan for the `i`-th word of query `q`: (word, is_prefix, typos).
pub open spec fn plan_word(q: Seq<char>, i: int) -> (Seq<char>, bool, u8) {
    let toks = query_tokens(q);
    let word = lowercase_of(toks[i].0);
    let exact = token_exact(toks[i]);
    (
        word,
        i == toks.len() - 1 && !ends_with_whitespace(q) && !exact,
        typo_bound(encode_utf8(word).len(), exact),
    )
}

impl QueryWord {
    pub open spec fn view(&self) -> (Seq<char>, bool, u8) {
        (self.word@, self.is_prefix, self.typos)
    }
}

/// Plans the lookup of each word of a query: only the last word, when the query does
/// not end with whitespace and the word need not match exactly, is a prefix.
pub fn query_words(query: &str) -> (r: Vec<QueryWord>)
    ensures
        r@.len() == query_tokens(query@).len(),
        forall|i: int| 0 <= i < r@.len() ==> (#[trigger] r@[i]).view() == plan_word(query@, i),
{
    let tokens = tokenize(query);
    let n = query.unicode_len();
    let trailing = n > 0 && is_whitespace(query.get_char(n - 1));
    let count = tokens.len();
    let mut words: Vec<QueryWord> = Vec::new();
    let mut i: usize = 0;
    while i < count
        invariant
            count == tokens@.len() == query_tokens(query@).len(),
            n == query@.len(),
            trailing == ends_with_whitespace(query@),
            i <= count,
            words@.len() == i,
            forall|k: int|
                0 <= k < tokens@.len() ==> (#[trigger] tokens@[k]).view_word() == query_tokens(query@)[k].0
                    && tokens@[k].view_quoted() == query_tokens(query@)[k].1,
            forall|k: int| 0 <= k < i ==> (#[trigger] words@[k]).view() == plan_word(query@, k),
        decreases count - i,
    {
        let (original, exact) = match &tokens[i] {
            QueryToken::Free(w) => (w, w.as_str().as_bytes().len() <= 3),
            QueryToken::Quoted(w) => (w, true),
        };
        let word = to_lowercase(original.as_str());
        let len = word.as_str().as_bytes().len();
        let typos: u8 = if exact || len <= 4 {
            0
        } else if len <= 8 {
            1
        } else {
            2
        };
        let is_prefix = i + 1 == count && !trailing && !exact;
        proof {
            let tok = query_tokens(query@)[i as int];
            assert(original@ == tok.0);
        }
        words.push(QueryWord { word, is_prefix, typos });
        i = i + 1;
    }
    words
}

} // verus!
