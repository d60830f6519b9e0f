use milli::delete::DeleteDocuments;
use milli::fields::{bm_new, insert_or_get, FieldsIds};
use milli::index::{Index, IndexError};
use milli::wordset::{fst_from_sorted, fst_to_vec};
use roaring::RoaringBitmap;

fn bitmap(ids: &[u32]) -> RoaringBitmap {
    let mut b = RoaringBitmap::new();
    for &i in ids {
        b.insert(i);
    }
    b
}

fn bytes(text: &str) -> Vec<u8> {
    text.as_bytes().to_vec()
}

fn fields(names: &[&str]) -> FieldsIds {
    let mut m = bm_new();
    for n in names {
        insert_or_get(&mut m, &String::from(*n)).unwrap();
    }
    m
}

fn fst_of(sorted_words: &[&str]) -> fst::Set<Vec<u8>> {
    let v: Vec<Vec<u8>> = sorted_words.iter().map(|w| bytes(w)).collect();
    fst_from_sorted(&v)
}

fn fst_words(set: &fst::Set<Vec<u8>>) -> Vec<String> {
    fst_to_vec(set)
        .into_iter()
        .map(|w| String::from_utf8(w).unwrap())
        .collect()
}

fn empty_index() -> Index {
    Index {
        updated_at: 0,
        primary_key: None,
        fields_ids_map: bm_new(),
        field_distribution: Vec::new(),
        documents_ids: RoaringBitmap::new(),
        external_documents_ids: Vec::new(),
        words_fst: fst_of(&[]),
        word_docids: Vec::new(),
        word_prefix_docids: Vec::new(),
        words_prefixes_fst: fst_of(&[]),
        docid_word_positions: Vec::new(),
        word_pair_proximity_docids: Vec::new(),
        word_prefix_pair_proximity_docids: Vec::new(),
        word_level_position_docids: Vec::new(),
        word_prefix_level_position_docids: Vec::new(),
        field_id_word_count_docids: Vec::new(),
        facet_id_f64_docids: Vec::new(),
        facet_id_string_docids: Vec::new(),
        faceted_fields_ids: Vec::new(),
        number_faceted_documents_ids: Vec::new(),
        string_faceted_documents_ids: Vec::new(),
        field_id_docid_facet_f64s: Vec::new(),
        field_id_docid_facet_strings: Vec::new(),
        documents: Vec::new(),
    }
}

/// Three documents under a numeric `id` primary key, with names indexed
/// as words.
fn three_kevins() -> Index {
    let mut index = empty_index();
    index.primary_key = Some(String::from("id"));
    index.fields_ids_map = fields(&["id", "name"]);
    index.field_distribution = vec![(String::from("id"), 3), (String::from("name"), 3)];
    index.documents_ids = bitmap(&[0, 1, 2]);
    index.external_documents_ids =
        vec![(bytes("0"), 0), (bytes("1"), 1), (bytes("2"), 2)];
    index.documents = vec![
        (0, vec![(0, bytes("0")), (1, bytes("\"kevin\""))]),
        (1, vec![(0, bytes("1")), (1, bytes("\"kevina\""))]),
        (2, vec![(0, bytes("2")), (1, bytes("\"benoit\""))]),
    ];
    index.docid_word_positions = vec![
        ((0, bytes("kevin")), bitmap(&[0])),
        ((1, bytes("kevina")), bitmap(&[0])),
        ((2, bytes("benoit")), bitmap(&[0])),
    ];
    index.word_docids = vec![
        (bytes("benoit"), bitmap(&[2])),
        (bytes("kevin"), bitmap(&[0])),
        (bytes("kevina"), bitmap(&[1])),
    ];
    index.words_fst = fst_of(&["benoit", "kevin", "kevina"]);
    index.word_prefix_docids = vec![
        (bytes("b"), bitmap(&[2])),
        (bytes("k"), bitmap(&[0, 1])),
    ];
    index.words_prefixes_fst = fst_of(&["b", "k"]);
    index
}

#[test]
fn delete_documents_with_numbers_as_primary_key() {
    let mut index = three_kevins();
    let mut builder = DeleteDocuments::new(&index, 1);
    builder.delete_document(0);
    builder.delete_document(1);
    builder.delete_document(2);
    builder.execute(&mut index).unwrap();

    assert!(index.field_distribution.is_empty());
    assert_eq!(index.documents_ids.len(), 0);
    assert!(index.documents.is_empty());
    assert!(fst_words(&index.words_fst).is_empty());
}

#[test]
fn delete_documents_with_strange_primary_key() {
    let mut index = three_kevins();
    index.primary_key = Some(String::from("mysuperid"));
    index.fields_ids_map = fields(&["mysuperid", "name"]);
    // the stored values are JSON strings: the reader must hand back
    // their contents, not their bytes
    index.documents[0].1[0].1 = bytes("\"0\"");
    index.documents[1].1[0].1 = bytes("\"1\"");
    index.documents[2].1[0].1 = bytes("\"2\"");

    let mut builder = DeleteDocuments::new(&index, 1);
    assert_eq!(builder.delete_external_id(&bytes("0")), Some(0));
    assert_eq!(builder.delete_external_id(&bytes("1")), Some(1));
    assert_eq!(builder.delete_external_id(&bytes("missing")), None);
    let deleted = builder.execute(&mut index).unwrap();
    assert_eq!(deleted, 2);

    // one document remains and its external identifier is "2"
    assert_eq!(index.documents.len(), 1);
    assert_eq!(index.documents_ids.len(), 1);
    assert!(index.documents_ids.contains(2));
    assert_eq!(index.external_documents_ids, vec![(bytes("2"), 2)]);
    // the deleted documents' words left the index with them
    assert_eq!(fst_words(&index.words_fst), vec![String::from("benoit")]);
    assert_eq!(index.word_docids.len(), 1);
    assert_eq!(index.word_docids[0].0, bytes("benoit"));
    // no position row of a deleted document survives
    for ((docid, _), _) in &index.docid_word_positions {
        assert!(*docid == 2);
    }
    // emptied prefixes left the prefixes set
    assert_eq!(fst_words(&index.words_prefixes_fst), vec![String::from("b")]);
}

#[test]
fn field_counter_drops_to_zero_with_its_documents() {
    // two documents, only the first carrying the extra field
    let mut index = empty_index();
    index.primary_key = Some(String::from("docid"));
    index.fields_ids_map = fields(&["docid", "label"]);
    index.field_distribution =
        vec![(String::from("docid"), 2), (String::from("label"), 1)];
    index.documents_ids = bitmap(&[0, 1]);
    index.external_documents_ids = vec![(bytes("a"), 0), (bytes("b"), 1)];
    index.documents = vec![
        (0, vec![(0, bytes("\"a\"")), (1, bytes("\"sign\""))]),
        (1, vec![(0, bytes("\"b\""))]),
    ];

    let mut builder = DeleteDocuments::new(&index, 1);
    builder.delete_document(0);
    builder.execute(&mut index).unwrap();

    assert_eq!(
        index.field_distribution,
        vec![(String::from("docid"), 1)]
    );
    assert_eq!(index.external_documents_ids, vec![(bytes("b"), 1)]);
}

#[test]
fn secondary_postings_lose_the_deleted_documents() {
    let mut index = three_kevins();
    index.word_pair_proximity_docids = vec![
        (bytes("p1"), bitmap(&[0, 2])),
        (bytes("p2"), bitmap(&[1])),
    ];
    index.word_level_position_docids = vec![
        ((bytes("kevin"), 0, 0, 0), bitmap(&[0, 2])),
        ((bytes("kevin"), 0, 1, 1), bitmap(&[1])),
    ];
    index.facet_id_f64_docids = vec![(bytes("f"), bitmap(&[0, 1, 2]))];
    index.facet_id_string_docids =
        vec![(bytes("g"), (bytes("orig"), bitmap(&[1, 2])))];
    index.faceted_fields_ids = vec![1];
    index.number_faceted_documents_ids = vec![(1, bitmap(&[0, 1, 2]))];
    index.string_faceted_documents_ids = vec![(1, bitmap(&[2]))];
    index.field_id_docid_facet_f64s = vec![(1, 0, bytes("x")), (1, 2, bytes("y"))];
    index.field_id_docid_facet_strings = vec![(1, 1, bytes("z"))];

    let mut builder = DeleteDocuments::new(&index, 1);
    builder.delete_documents(&bitmap(&[0, 1]));
    builder.execute(&mut index).unwrap();

    // every surviving posting is disjoint from the deleted set
    assert_eq!(index.word_pair_proximity_docids.len(), 1);
    assert_eq!(index.word_pair_proximity_docids[0].1, bitmap(&[2]));
    assert_eq!(index.word_level_position_docids.len(), 1);
    assert_eq!(index.word_level_position_docids[0].1, bitmap(&[2]));
    assert_eq!(index.facet_id_f64_docids[0].1, bitmap(&[2]));
    assert_eq!(index.facet_id_string_docids[0].1.1, bitmap(&[2]));
    assert_eq!(index.number_faceted_documents_ids[0].1, bitmap(&[2]));
    assert_eq!(index.string_faceted_documents_ids[0].1, bitmap(&[2]));
    assert_eq!(index.field_id_docid_facet_f64s, vec![(1, 2, bytes("y"))]);
    assert!(index.field_id_docid_facet_strings.is_empty());
}

#[test]
fn missing_primary_key_is_reported() {
    let mut index = three_kevins();
    index.primary_key = None;
    let before_docs = index.documents.len();

    let mut builder = DeleteDocuments::new(&index, 1);
    builder.delete_document(0);
    match builder.execute(&mut index) {
        Err(IndexError::DatabaseMissingEntry) => {}
        _ => panic!("a missing primary key must be reported as a missing entry"),
    }
    // the index is untouched on error
    assert_eq!(index.documents.len(), before_docs);
    assert_eq!(index.documents_ids.len(), 3);
}

#[test]
fn unreadable_primary_key_value_aborts_the_delete() {
    let mut index = three_kevins();
    // the primary-key value of one document is neither string nor number
    index.documents[0].1[0].1 = bytes("[1,2]");
    let mut builder = DeleteDocuments::new(&index, 1);
    builder.delete_document(0);
    match builder.execute(&mut index) {
        Err(IndexError::InvalidDocumentId) => {}
        _ => panic!("a non-scalar identifier must be reported as invalid"),
    }
    assert_eq!(index.documents_ids.len(), 3);
}

#[test]
fn unparseable_primary_key_value_is_a_serialization_error() {
    let mut index = three_kevins();
    index.documents[1].1[0].1 = bytes("not json at all");
    let mut builder = DeleteDocuments::new(&index, 1);
    builder.delete_document(1);
    match builder.execute(&mut index) {
        Err(IndexError::Serialization) => {}
        _ => panic!("bytes that are not JSON must be reported as a decoding failure"),
    }
    assert_eq!(index.documents_ids.len(), 3);
}

#[test]
fn deleting_from_an_empty_index_is_a_no_op() {
    let mut index = empty_index();
    let mut builder = DeleteDocuments::new(&index, 1);
    builder.delete_document(7);
    assert_eq!(builder.execute(&mut index).unwrap(), 0);
}
