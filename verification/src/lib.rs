//! Core logic of a small directory-listing file server.
//!
//! The library maps a raw request path to a normalized, root-contained
//! relative path, percent-encodes listing links so that arbitrary file
//! names round-trip through an `href`, and turns a directory's children
//! into a deterministic, sorted view model.  All filesystem and HTTP
//! work stays outside; the functions here are pure computations on
//! byte sequences.

pub mod codec;
pub mod errors;
pub mod listing;
pub mod order;
pub mod resolve;

use vstd::prelude::*;

verus! {

/// The mathematical view of a list of byte strings.
pub open spec fn seq_views(vs: Seq<Vec<u8>>) -> Seq<Seq<u8>> {
    Seq::new(vs.len(), |i: int| vs[i]@)
}

/// The mathematical view of a list of optional byte strings.
pub open spec fn child_views(cs: Seq<Option<Vec<u8>>>) -> Seq<Option<Seq<u8>>> {
    Seq::new(
        cs.len(),
        |i: int|
            match cs[i] {
                Some(v) => Some(v@),
                None => None,
            },
    )
}

} // verus!
