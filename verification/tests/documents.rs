use milli::documents::{DocumentsBuilder, DocumentsReader, Error};
use milli::fields::{bm_len, bm_new};
use milli::value::Value;

fn s(text: &str) -> String {
    String::from(text)
}

fn obj(fields: Vec<(&str, Value)>) -> Value {
    Value::Object(fields.into_iter().map(|(k, v)| (s(k), v)).collect())
}

#[test]
fn create_documents_no_errors() {
    let json = obj(vec![
        ("number", Value::Number(1)),
        ("string", Value::Str(s("this is a field"))),
        ("array", Value::Array(vec![Value::Str(s("an")), Value::Str(s("array"))])),
        ("object", obj(vec![("key", Value::Str(s("value")))])),
        ("bool", Value::Bool(true)),
    ]);

    let mut builder = DocumentsBuilder::new(bm_new()).unwrap();
    builder.add_documents(json).unwrap();
    let bytes = builder.finish();

    let mut documents = DocumentsReader::from_reader(bytes).unwrap();
    assert_eq!(bm_len(documents.index()), 5);

    let reader = documents.next_document_with_index().unwrap().unwrap();
    assert_eq!(reader.len(), 5);
    assert!(documents.next_document_with_index().unwrap().is_none());
}

#[test]
fn test_add_multiple_documents() {
    let doc1 = obj(vec![("bool", Value::Bool(true))]);
    let doc2 = obj(vec![("toto", Value::Bool(false))]);

    let mut builder = DocumentsBuilder::new(bm_new()).unwrap();
    builder.add_documents(doc1).unwrap();
    builder.add_documents(doc2).unwrap();
    let bytes = builder.finish();

    let mut documents = DocumentsReader::from_reader(bytes).unwrap();
    assert_eq!(bm_len(documents.index()), 2);

    let reader = documents.next_document_with_index().unwrap().unwrap();
    assert_eq!(reader.len(), 1);
    assert!(documents.next_document_with_index().unwrap().is_some());
    assert!(documents.next_document_with_index().unwrap().is_none());
}

#[test]
fn add_documents_array() {
    let docs = Value::Array(vec![
        obj(vec![("toto", Value::Bool(false))]),
        obj(vec![("tata", Value::Str(s("hello")))]),
    ]);

    let mut builder = DocumentsBuilder::new(bm_new()).unwrap();
    builder.add_documents(docs).unwrap();
    let bytes = builder.finish();

    let mut documents = DocumentsReader::from_reader(bytes).unwrap();
    assert_eq!(bm_len(documents.index()), 2);

    let reader = documents.next_document_with_index().unwrap().unwrap();
    assert_eq!(reader.len(), 1);
    assert!(documents.next_document_with_index().unwrap().is_some());
    assert!(documents.next_document_with_index().unwrap().is_none());
}

#[test]
fn add_invalid_document_format() {
    let mut builder = DocumentsBuilder::new(bm_new()).unwrap();

    let docs = Value::Array(vec![Value::Array(vec![
        obj(vec![("toto", Value::Bool(false))]),
        obj(vec![("tata", Value::Str(s("hello")))]),
    ])]);
    assert!(builder.add_documents(docs).is_err());

    let docs = Value::Str(s("hello"));
    assert!(builder.add_documents(docs).is_err());
}

#[test]
fn test_nested() {
    let doc = obj(vec![(
        "hello",
        obj(vec![("toto", Value::Array(vec![Value::Str(s("hello"))]))]),
    )]);

    let mut builder = DocumentsBuilder::new(bm_new()).unwrap();
    builder.add_documents(doc).unwrap();
    let bytes = builder.finish();

    let mut docs = DocumentsReader::from_reader(bytes).unwrap();
    let rec = docs.next_document_with_index().unwrap().unwrap();

    let nested: serde_json::Value = serde_json::from_slice(&rec[0].1).unwrap();
    let expected: serde_json::Value = serde_json::from_str("{\"toto\":[\"hello\"]}").unwrap();
    assert_eq!(nested, expected);
}

#[test]
fn invalid_document_format_is_the_right_error() {
    let mut builder = DocumentsBuilder::new(bm_new()).unwrap();
    match builder.add_documents(Value::Null) {
        Err(Error::InvalidDocumentFormat) => {}
        _ => panic!("a scalar addition must be refused as an invalid document format"),
    }
    match builder.add_documents(Value::Number(3)) {
        Err(Error::InvalidDocumentFormat) => {}
        _ => panic!("a scalar addition must be refused as an invalid document format"),
    }
    // nothing was appended by the refused additions
    assert_eq!(builder.len(), 0);
}

#[test]
fn a_full_dictionary_refuses_new_names() {
    // fill the dictionary to its last identifier
    let mut dict = bm_new();
    for i in 0..65536u32 {
        milli::fields::insert_or_get(&mut dict, &format!("f{}", i)).unwrap();
    }
    let mut builder = DocumentsBuilder::new(dict).unwrap();
    // a known name still lands
    builder.add_documents(obj(vec![("f0", Value::Number(1))])).unwrap();
    // a fresh name has no identifier left
    match builder.add_documents(obj(vec![("brand_new", Value::Number(1))])) {
        Err(Error::Custom(_)) => {}
        _ => panic!("a fresh name must be refused once the identifiers run out"),
    }
    assert_eq!(builder.len(), 1);
}

#[test]
fn reader_counts_mappings_and_sequence_elements() {
    let mut builder = DocumentsBuilder::new(bm_new()).unwrap();
    builder.add_documents(obj(vec![("a", Value::Number(1))])).unwrap();
    builder
        .add_documents(Value::Array(vec![
            obj(vec![("b", Value::Number(2))]),
            obj(vec![("c", Value::Number(3))]),
            obj(vec![("d", Value::Number(4))]),
        ]))
        .unwrap();
    assert_eq!(builder.len(), 4);
    let bytes = builder.finish();
    let documents = DocumentsReader::from_reader(bytes).unwrap();
    assert_eq!(documents.len(), 4);
}

#[test]
fn values_round_trip_as_json_text() {
    let doc = obj(vec![
        ("neg", Value::Number(-42)),
        ("text", Value::Str(s("a \"quoted\"\nline"))),
        ("null", Value::Null),
    ]);
    let mut builder = DocumentsBuilder::new(bm_new()).unwrap();
    builder.add_documents(doc).unwrap();
    let bytes = builder.finish();

    let mut docs = DocumentsReader::from_reader(bytes).unwrap();
    let rec = docs.next_document_with_index().unwrap().unwrap();
    assert_eq!(rec.len(), 3);
    assert_eq!(rec[0].1, b"-42".to_vec());
    assert_eq!(rec[1].1, b"\"a \\\"quoted\\\"\\nline\"".to_vec());
    assert_eq!(rec[2].1, b"null".to_vec());
}

#[test]
fn repeated_keys_keep_the_last_value() {
    let doc = Value::Object(vec![
        (s("k"), Value::Number(1)),
        (s("k"), Value::Number(2)),
    ]);
    let mut builder = DocumentsBuilder::new(bm_new()).unwrap();
    builder.add_documents(doc).unwrap();
    let bytes = builder.finish();

    let mut docs = DocumentsReader::from_reader(bytes).unwrap();
    let rec = docs.next_document_with_index().unwrap().unwrap();
    assert_eq!(rec.len(), 1);
    assert_eq!(rec[0].1, b"2".to_vec());
}

#[test]
fn truncated_batches_are_refused() {
    assert!(DocumentsReader::from_reader(Vec::new()).is_err());
    assert!(DocumentsReader::from_reader(vec![0, 1, 2]).is_err());
    // a valid batch, cut short
    let mut builder = DocumentsBuilder::new(bm_new()).unwrap();
    builder.add_documents(obj(vec![("a", Value::Number(1))])).unwrap();
    let mut bytes = builder.finish();
    bytes.pop();
    assert!(DocumentsReader::from_reader(bytes).is_err());
}

#[test]
fn mangled_metadata_is_a_decoding_error() {
    let mut builder = DocumentsBuilder::new(bm_new()).unwrap();
    builder.add_documents(obj(vec![("a", Value::Number(1))])).unwrap();
    let mut bytes = builder.finish();
    // trailing bytes after the metadata: the batch no longer reads back
    bytes.push(0);
    match DocumentsReader::from_reader(bytes) {
        Err(Error::Decoding) | Err(Error::Io) => {}
        _ => panic!("mangled metadata must be refused"),
    }
}

#[test]
fn records_match_the_reference_encoder() {
    // the record layout must agree with the ordered key/value encoder
    let mut writer = obkv::KvWriterU16::memory();
    writer.insert(0u16, b"-42").unwrap();
    writer.insert(1u16, b"\"x\"").unwrap();
    writer.insert(300u16, &vec![7u8; 200]).unwrap();
    let expected = writer.into_inner().unwrap();

    let entries: Vec<(u16, Vec<u8>)> = vec![
        (0, b"-42".to_vec()),
        (1, b"\"x\"".to_vec()),
        (300, vec![7u8; 200]),
    ];
    let encoded = milli::record::encode_record(&entries);
    assert_eq!(encoded, expected);

    let decoded = milli::record::decode_record(&encoded).unwrap();
    assert_eq!(decoded, entries);

    let reference: &obkv::KvReaderU16 = expected[..].into();
    let back: Vec<(u16, Vec<u8>)> =
        reference.iter().map(|(k, v)| (k, v.to_vec())).collect();
    assert_eq!(back, entries);
}
