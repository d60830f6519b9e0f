//! The core of an embedded full-text search engine: the intermediate
//! document batch format, the deletion pipeline over the index's
//! secondary tables, and the positional level pyramid.
//!
//! A host process builds batches of compact document records with
//! `documents::DocumentsBuilder` and reads them back with
//! `documents::DocumentsReader`; the byte layout is proved to round
//! trip. `delete::DeleteDocuments` removes a set of documents from
//! every secondary index at once, pinned table by table to small spec
//! transforms, and `levels::WordsLevelPositions` rebuilds the
//! multi-resolution positional buckets. Postings are `roaring` bitmaps
//! and the word universes are `fst` sets, held behind small trusted
//! interfaces.

pub mod bitmap;
pub mod criterion;
pub mod delete;
pub mod documents;
pub mod fields;
pub mod index;
pub mod levels;
pub mod record;
pub mod seqs;
pub mod value;
pub mod wordset;

use vstd::prelude::*;

verus! {

/// A field identifier: a short unsigned integer assigned to each distinct
/// field name seen during a batch, and persisted at index scope.
pub type FieldId = u16;

/// A document identifier: an unsigned 32-bit integer assigned to each
/// indexed document, stable for the document's lifetime in the index.
pub type DocumentId = u32;

} // verus!
