//! The index: the live document set, the documents table, and every
//! secondary index the deletion pipeline must keep consistent.
//!
//! Postings are `roaring` bitmaps, word universes are `fst` sets, and
//! the field dictionary is the same bijection a batch carries. Tables
//! are association lists with unique keys; the well-formedness
//! predicates at the bottom say how the tables agree with one another,
//! and the deletion pipeline is proved to keep them agreeing.

use vstd::prelude::*;

use roaring::RoaringBitmap;

use crate::bitmap::{bitmap_seq, diff_posting, lemma_diff_members};
use crate::fields::FieldsIds;
use crate::wordset::fst_seq;
use crate::FieldId;

verus! {

/// What can go wrong inside an index operation.
#[derive(Debug)]
pub enum IndexError {
    /// A primary-key value is neither a string nor a number.
    InvalidDocumentId,
    /// A stored key or value failed to decode; fatal for the
    /// transaction.
    Serialization,
    /// An expected bookkeeping row is absent; treated as corruption.
    DatabaseMissingEntry,
}

/// Relies on `chrono::Utc::now` and `DateTime::timestamp`: nothing is
/// promised of the clock.
#[verifier::external_body]
pub fn now_timestamp() -> (r: i64) {
    chrono::Utc::now().timestamp()
}

/// The external identifier a JSON primary-key value denotes: the string
/// itself for a string, the decimal text for a number, nothing for any
/// other shape or for bytes that are not JSON.
pub uninterp spec fn json_scalar_id(b: Seq<u8>) -> Option<Seq<u8>>;

/// Relies on `serde_json::from_slice` and `serde_json::Number::to_string`:
/// the outcome depends on the bytes alone, and `json_scalar_id` names it.
/// Which error comes back for bytes without a scalar identifier is left
/// open, as the parser decides it.
#[verifier::external_body]
pub fn extract_external_id(b: &Vec<u8>) -> (r: Result<Vec<u8>, IndexError>)
    ensures
        match r {
            Ok(id) => json_scalar_id(b@) == Some(id@),
            Err(e) => json_scalar_id(b@) is None && (e is InvalidDocumentId
                || e is Serialization),
        },
{
    match serde_json::from_slice::<serde_json::Value>(b) {
        Ok(serde_json::Value::String(s)) => Ok(s.into_bytes()),
        Ok(serde_json::Value::Number(n)) => Ok(n.to_string().into_bytes()),
        Ok(_) => Err(IndexError::InvalidDocumentId),
        Err(_) => Err(IndexError::Serialization),
    }
}

/// A stored document record: its identifier and its entries.
pub type DocEntry = (u32, Vec<(u16, Vec<u8>)>);

/// The index: one writer mutates it inside a transaction; the deletion
/// pipeline takes it whole and commits all effects at once.
pub struct Index {
    /// When the index last changed, as a clock timestamp.
    pub updated_at: i64,
    /// The name of the primary-key field, if one was configured.
    pub primary_key: Option<String>,
    /// The persisted field dictionary.
    pub fields_ids_map: FieldsIds,
    /// How many live documents carry each field name.
    pub field_distribution: Vec<(String, u64)>,
    /// The set of live document identifiers.
    pub documents_ids: RoaringBitmap,
    /// External identifier to internal identifier.
    pub external_documents_ids: Vec<(Vec<u8>, u32)>,
    /// The sorted universe of indexed words.
    pub words_fst: fst::Set<Vec<u8>>,
    /// word -> posting.
    pub word_docids: Vec<(Vec<u8>, RoaringBitmap)>,
    /// prefix -> posting.
    pub word_prefix_docids: Vec<(Vec<u8>, RoaringBitmap)>,
    /// The sorted universe of indexed prefixes.
    pub words_prefixes_fst: fst::Set<Vec<u8>>,
    /// (document, word) -> positions.
    pub docid_word_positions: Vec<((u32, Vec<u8>), RoaringBitmap)>,
    /// (word, word, distance) -> posting, keys kept encoded.
    pub word_pair_proximity_docids: Vec<(Vec<u8>, RoaringBitmap)>,
    /// (prefix, word, distance) -> posting, keys kept encoded.
    pub word_prefix_pair_proximity_docids: Vec<(Vec<u8>, RoaringBitmap)>,
    /// (word, level, left, right) -> posting.
    pub word_level_position_docids: Vec<((Vec<u8>, u8, u32, u32), RoaringBitmap)>,
    /// (prefix, level, left, right) -> posting, keys kept encoded.
    pub word_prefix_level_position_docids: Vec<(Vec<u8>, RoaringBitmap)>,
    /// (field, word count) -> posting, keys kept encoded.
    pub field_id_word_count_docids: Vec<(Vec<u8>, RoaringBitmap)>,
    /// (field, number) -> posting, keys kept encoded.
    pub facet_id_f64_docids: Vec<(Vec<u8>, RoaringBitmap)>,
    /// (field, string) -> (companion data, posting), keys kept encoded.
    pub facet_id_string_docids: Vec<(Vec<u8>, (Vec<u8>, RoaringBitmap))>,
    /// The fields declared faceted.
    pub faceted_fields_ids: Vec<FieldId>,
    /// Per faceted field, the documents with a number facet.
    pub number_faceted_documents_ids: Vec<(FieldId, RoaringBitmap)>,
    /// Per faceted field, the documents with a string facet.
    pub string_faceted_documents_ids: Vec<(FieldId, RoaringBitmap)>,
    /// (field, document, number value) rows.
    pub field_id_docid_facet_f64s: Vec<(FieldId, u32, Vec<u8>)>,
    /// (field, document, string value) rows.
    pub field_id_docid_facet_strings: Vec<(FieldId, u32, Vec<u8>)>,
    /// document -> compact record.
    pub documents: Vec<DocEntry>,
}

/// The view of a postings table: each key beside the members of its
/// posting.
pub open spec fn tbl_view<K: DeepView>(t: Seq<(K, RoaringBitmap)>) -> Seq<(K::V, Seq<u32>)> {
    t.map_values(|e: (K, RoaringBitmap)| (e.0.deep_view(), bitmap_seq(e.1)))
}

/// The view of the string facet table, companion data included.
pub open spec fn str_tbl_view(t: Seq<(Vec<u8>, (Vec<u8>, RoaringBitmap))>) -> Seq<
    (Seq<u8>, (Seq<u8>, Seq<u32>)),
> {
    t.map_values(
        |e: (Vec<u8>, (Vec<u8>, RoaringBitmap))| (e.0.deep_view(), (e.1.0.deep_view(), bitmap_seq(e.1.1))),
    )
}

/// The view of the documents table.
pub open spec fn docs_view(t: Seq<DocEntry>) -> Seq<(u32, Seq<(u16, Seq<u8>)>)> {
    t.map_values(|e: DocEntry| (e.0, e.1.deep_view()))
}

/// A postings table with the deleted documents taken out of every
/// posting and emptied entries dropped.
pub open spec fn prune_table<KV>(t: Seq<(KV, Seq<u32>)>, d: Seq<u32>) -> Seq<(KV, Seq<u32>)>
    decreases t.len(),
{
    if t.len() == 0 {
        Seq::empty()
    } else {
        let rest = prune_table(t.drop_first(), d);
        let p = diff_posting(t[0].1, d);
        if p.len() == 0 {
            rest
        } else {
            seq![(t[0].0, p)] + rest
        }
    }
}

/// The string facet table with postings pruned; companion data of
/// surviving entries stays.
pub open spec fn prune_str_table(
    t: Seq<(Seq<u8>, (Seq<u8>, Seq<u32>))>,
    d: Seq<u32>,
) -> Seq<(Seq<u8>, (Seq<u8>, Seq<u32>))>
    decreases t.len(),
{
    if t.len() == 0 {
        Seq::empty()
    } else {
        let rest = prune_str_table(t.drop_first(), d);
        let p = diff_posting(t[0].1.1, d);
        if p.len() == 0 {
            rest
        } else {
            seq![(t[0].0, (t[0].1.0, p))] + rest
        }
    }
}

/// Every posting in a pruned table is disjoint from the deleted set,
/// and no entry is empty.
pub proof fn lemma_prune_disjoint<KV>(t: Seq<(KV, Seq<u32>)>, d: Seq<u32>)
    ensures
        forall|i: int, y: u32|
            0 <= i < prune_table(t, d).len() && #[trigger] prune_table(t, d)[i].1.contains(y)
                ==> !d.contains(y),
        forall|i: int|
            0 <= i < prune_table(t, d).len() ==> (#[trigger] prune_table(t, d)[i]).1.len() > 0,
    decreases t.len(),
{
    if t.len() == 0 {
    } else {
        lemma_prune_disjoint(t.drop_first(), d);
        let rest = prune_table(t.drop_first(), d);
        let p = diff_posting(t[0].1, d);
        lemma_diff_members(t[0].1, d);
        assert forall|i: int, y: u32|
            0 <= i < prune_table(t, d).len() && #[trigger] prune_table(t, d)[i].1.contains(y)
                implies !d.contains(y) by {
            if p.len() != 0 {
                if i == 0 {
                    assert(prune_table(t, d)[0].1 == p);
                } else {
                    assert(prune_table(t, d)[i] == rest[i - 1]);
                }
            } else {
                assert(prune_table(t, d)[i] == rest[i]);
            }
        }
        assert forall|i: int| 0 <= i < prune_table(t, d).len() implies (#[trigger] prune_table(
            t,
            d,
        )[i]).1.len() > 0 by {
            if p.len() != 0 {
                if i > 0 {
                    assert(prune_table(t, d)[i] == rest[i - 1]);
                }
            } else {
                assert(prune_table(t, d)[i] == rest[i]);
            }
        }
    }
}


/// The view of the external identifier map.
pub open spec fn ext_view(t: Seq<(Vec<u8>, u32)>) -> Seq<(Seq<u8>, u32)> {
    t.map_values(|e: (Vec<u8>, u32)| (e.0.deep_view(), e.1))
}

/// The view of the field distribution.
pub open spec fn dist_view(t: Seq<(String, u64)>) -> Seq<(Seq<char>, u64)> {
    t.map_values(|e: (String, u64)| (e.0@, e.1))
}

/// The identifier the dictionary assigns to a field name.
pub open spec fn pk_fid(m: Map<FieldId, Seq<char>>, name: Seq<char>) -> FieldId {
    choose|f: FieldId| m.dom().contains(f) && m[f] == name
}

/// An index with no documents: what the bulk clear leaves behind. The
/// dictionary, the primary key and the faceted-fields setting stay.
pub open spec fn cleared(i: Index) -> bool {
    &&& bitmap_seq(i.documents_ids).len() == 0
    &&& i.external_documents_ids@.len() == 0
    &&& fst_seq(i.words_fst).len() == 0
    &&& fst_seq(i.words_prefixes_fst).len() == 0
    &&& i.word_docids@.len() == 0
    &&& i.word_prefix_docids@.len() == 0
    &&& i.docid_word_positions@.len() == 0
    &&& i.word_pair_proximity_docids@.len() == 0
    &&& i.word_prefix_pair_proximity_docids@.len() == 0
    &&& i.word_level_position_docids@.len() == 0
    &&& i.word_prefix_level_position_docids@.len() == 0
    &&& i.field_id_word_count_docids@.len() == 0
    &&& i.facet_id_f64_docids@.len() == 0
    &&& i.facet_id_string_docids@.len() == 0
    &&& i.number_faceted_documents_ids@.len() == 0
    &&& i.string_faceted_documents_ids@.len() == 0
    &&& i.field_id_docid_facet_f64s@.len() == 0
    &&& i.field_id_docid_facet_strings@.len() == 0
    &&& i.field_distribution@.len() == 0
    &&& i.documents@.len() == 0
}

/// Empties every document-dependent part of the index: the live set,
/// the documents, every secondary index and the field distribution. The
/// dictionary, the primary key and the faceted-fields setting stay.
pub fn clear_documents(index: &mut Index)
    ensures
        cleared(*final(index)),
        final(index).updated_at == old(index).updated_at,
        final(index).primary_key == old(index).primary_key,
        final(index).fields_ids_map == old(index).fields_ids_map,
        final(index).faceted_fields_ids == old(index).faceted_fields_ids,
{
    index.documents_ids = crate::bitmap::rb_new();
    index.external_documents_ids = Vec::new();
    let none: Vec<Vec<u8>> = Vec::new();
    index.words_fst = crate::wordset::fst_from_sorted(&none);
    let none2: Vec<Vec<u8>> = Vec::new();
    index.words_prefixes_fst = crate::wordset::fst_from_sorted(&none2);
    index.word_docids = Vec::new();
    index.word_prefix_docids = Vec::new();
    index.docid_word_positions = Vec::new();
    index.word_pair_proximity_docids = Vec::new();
    index.word_prefix_pair_proximity_docids = Vec::new();
    index.word_level_position_docids = Vec::new();
    index.word_prefix_level_position_docids = Vec::new();
    index.field_id_word_count_docids = Vec::new();
    index.facet_id_f64_docids = Vec::new();
    index.facet_id_string_docids = Vec::new();
    index.number_faceted_documents_ids = Vec::new();
    index.string_faceted_documents_ids = Vec::new();
    index.field_id_docid_facet_f64s = Vec::new();
    index.field_id_docid_facet_strings = Vec::new();
    index.field_distribution = Vec::new();
    index.documents = Vec::new();
}

/// Every posting in the pruned string facet table is disjoint from the
/// deleted set, and no entry is empty.
pub proof fn lemma_prune_str_disjoint(t: Seq<(Seq<u8>, (Seq<u8>, Seq<u32>))>, d: Seq<u32>)
    ensures
        forall|i: int, y: u32|
            0 <= i < prune_str_table(t, d).len() && #[trigger] prune_str_table(t, d)[i].1.1.contains(
                y,
            ) ==> !d.contains(y),
        forall|i: int|
            0 <= i < prune_str_table(t, d).len() ==> (#[trigger] prune_str_table(t, d)[i]).1.1.len()
                > 0,
    decreases t.len(),
{
    if t.len() == 0 {
    } else {
        lemma_prune_str_disjoint(t.drop_first(), d);
        let rest = prune_str_table(t.drop_first(), d);
        let p = diff_posting(t[0].1.1, d);
        lemma_diff_members(t[0].1.1, d);
        assert forall|i: int, y: u32|
            0 <= i < prune_str_table(t, d).len() && #[trigger] prune_str_table(t, d)[i].1.1.contains(
                y,
            ) implies !d.contains(y) by {
            if p.len() != 0 {
                if i == 0 {
                    assert(prune_str_table(t, d)[0].1.1 == p);
                } else {
                    assert(prune_str_table(t, d)[i] == rest[i - 1]);
                }
            } else {
                assert(prune_str_table(t, d)[i] == rest[i]);
            }
        }
        assert forall|i: int| 0 <= i < prune_str_table(t, d).len() implies (
        #[trigger] prune_str_table(t, d)[i]).1.1.len() > 0 by {
            if p.len() != 0 {
                if i > 0 {
                    assert(prune_str_table(t, d)[i] == rest[i - 1]);
                }
            } else {
                assert(prune_str_table(t, d)[i] == rest[i]);
            }
        }
    }
}

} // verus!
