//! Query execution over a read-only search index: fuzzy word expansion against the
//! word dictionary, candidate-set algebra on document bitmaps, proximity-ordered
//! enumeration and facet ordering.
use vstd::prelude::*;

pub mod bitmap;
pub mod heed_codec;
pub mod query;
pub mod index;
pub mod words;
pub mod facet;
pub mod mdfs;
pub mod search;
pub mod laws;

pub use heed_codec::BytesDecodeOwned;
pub use index::{Criterion, DocumentId, FacetType, FieldId, Index, Order};
pub use search::{FacetCondition, Search, SearchError, SearchResult};
pub use words::Automata;

verus! {

} // verus!
