//! Decoding of stored values.
use vstd::prelude::*;

verus! {

/// A codec that decodes bytes into an owned value, or fails on malformed bytes.
pub trait BytesDecodeOwned {
    type DItem;

    fn bytes_decode_owned(bytes: &[u8]) -> Option<Self::DItem>;
}

} // verus!
