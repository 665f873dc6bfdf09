//! The read-only snapshot of an index that a search runs against.
use crate::bitmap::docs;
use roaring::RoaringBitmap;
use vstd::prelude::*;

verus! {

/// Identifies a document within the snapshot.
pub type DocumentId = u32;

/// Identifies a field of the schema.
pub type FieldId = u16;

/// A ranking rule of the index; `Asc` and `Desc` order the results by a facet.
pub enum Criterion {
    Typo,
    Words,
    Proximity,
    Attribute,
    WordsPosition,
    Exactness,
    Asc(FieldId),
    Desc(FieldId),
}

/// The type of the values of a faceted field.
#[derive(Clone, Copy, Debug, PartialEq, Eq, Structural)]
pub enum FacetType {
    String,
    Float,
    Integer,
}

/// The direction of a facet ordering.
#[derive(Clone, Copy, Debug, PartialEq, Eq, Structural)]
pub enum Order {
    Asc,
    Desc,
}

#[verifier::external_type_specification]
#[verifier::external_body]
#[verifier::reject_recursive_types(D)]
pub struct ExFstSet<D>(fst::Set<D>);

/// A snapshot of an index.
///
/// `facet_numbers` holds, for each numeric faceted field, the documents grouped by
/// value, the groups in increasing order of value.
pub struct Index {
    pub words_fst: fst::Set<Vec<u8>>,
    pub word_docids: Vec<(Vec<u8>, RoaringBitmap)>,
    pub documents_ids: RoaringBitmap,
    pub criteria: Vec<Criterion>,
    pub faceted_fields: Vec<(FieldId, FacetType)>,
    pub facet_numbers: Vec<(FieldId, Vec<RoaringBitmap>)>,
}

/// The postings stored under word `w`: those of its first entry.
pub open spec fn lookup(entries: Seq<(Vec<u8>, RoaringBitmap)>, w: Seq<u8>) -> Option<Set<u32>>
    decreases entries.len(),
{
    if entries.len() == 0 {
        None
    } else if entries[0].0@ == w {
        Some(docs(entries[0].1))
    } else {
        lookup(entries.drop_first(), w)
    }
}

pub fn bytes_eq(a: &[u8], b: &[u8]) -> (r: bool)
    ensures
        r == (a@ == b@),
{
    if a.len() != b.len() {
        return false;
    }
    let mut i: usize = 0;
    while i < a.len()
        invariant
            a@.len() == b@.len(),
            i <= a@.len(),
            forall|k: int| 0 <= k < i ==> a@[k] == b@[k],
        decreases a@.len() - i,
    {
        if a[i] != b[i] {
            return false;
        }
        i = i + 1;
    }
    assert(a@ =~= b@);
    true
}

impl Index {
    /// The postings of word `w`, if the index has any.
    pub fn word_docids_get(&self, w: &[u8]) -> (r: Option<RoaringBitmap>)
        ensures
            r is None <==> lookup(self.word_docids@, w@) is None,
            r is Some ==> lookup(self.word_docids@, w@) == Some(docs(r->Some_0)),
    {
        let mut i: usize = 0;
        assert(self.word_docids@.subrange(0, self.word_docids@.len() as int) =~= self.word_docids@);
        while i < self.word_docids.len()
            invariant
                i <= self.word_docids@.len(),
                lookup(self.word_docids@, w@) == lookup(
                    self.word_docids@.subrange(i as int, self.word_docids@.len() as int),
                    w@,
                ),
            decreases self.word_docids@.len() - i,
        {
            let ghost rest = self.word_docids@.subrange(i as int, self.word_docids@.len() as int);
            proof {
                assert(rest.drop_first() =~= self.word_docids@.subrange(
                    i + 1,
                    self.word_docids@.len() as int,
                ));
            }
            if bytes_eq(self.word_docids[i].0.as_slice(), w) {
                return Some(crate::bitmap::bitmap_clone(&self.word_docids[i].1));
            }
            i = i + 1;
        }
        None
    }
}

} // verus!
