use milli::index::Index;
use milli::levels::WordsLevelPositions;
use roaring::RoaringBitmap;

fn bitmap(ids: &[u32]) -> RoaringBitmap {
    let mut b = RoaringBitmap::new();
    for &i in ids {
        b.insert(i);
    }
    b
}

fn bytes(text: &str) -> Vec<u8> {
    text.as_bytes().to_vec()
}

fn empty_index() -> Index {
    Index {
        updated_at: 0,
        primary_key: None,
        fields_ids_map: milli::fields::bm_new(),
        field_distribution: Vec::new(),
        documents_ids: RoaringBitmap::new(),
        external_documents_ids: Vec::new(),
        words_fst: milli::wordset::fst_from_sorted(&Vec::<Vec<u8>>::new()),
        word_docids: Vec::new(),
        word_prefix_docids: Vec::new(),
        words_prefixes_fst: milli::wordset::fst_from_sorted(&Vec::<Vec<u8>>::new()),
        docid_word_positions: Vec::new(),
        word_pair_proximity_docids: Vec::new(),
        word_prefix_pair_proximity_docids: Vec::new(),
        word_level_position_docids: Vec::new(),
        word_prefix_level_position_docids: Vec::new(),
        field_id_word_count_docids: Vec::new(),
        facet_id_f64_docids: Vec::new(),
        facet_id_string_docids: Vec::new(),
        faceted_fields_ids: Vec::new(),
        number_faceted_documents_ids: Vec::new(),
        string_faceted_documents_ids: Vec::new(),
        field_id_docid_facet_f64s: Vec::new(),
        field_id_docid_facet_strings: Vec::new(),
        documents: Vec::new(),
    }
}

/// Thirty level-zero entries for one word, each at position `i` holding
/// document `i`.
fn thirty_entries() -> Index {
    let mut index = empty_index();
    for i in 0..30u32 {
        index
            .word_level_position_docids
            .push(((bytes("w"), 0, i, i), bitmap(&[i])));
    }
    index
}

#[test]
fn thirty_entries_group_by_four_then_sixteen() {
    let mut index = thirty_entries();
    let mut builder = WordsLevelPositions::new(0);
    builder.level_group_size(4);
    builder.min_level_size(5);
    builder.execute(&mut index);

    let t = &index.word_level_position_docids;
    let level0: Vec<_> = t.iter().filter(|e| e.0.1 == 0).collect();
    let level1: Vec<_> = t.iter().filter(|e| e.0.1 == 1).collect();
    let level2: Vec<_> = t.iter().filter(|e| e.0.1 == 2).collect();

    // the level-zero entries stream through unchanged
    assert_eq!(level0.len(), 30);
    // level one groups every four entries: seven full runs and a rest
    assert_eq!(level1.len(), 8);
    assert_eq!(level1[0].0, (bytes("w"), 1, 0, 3));
    assert_eq!(level1[0].1, bitmap(&[0, 1, 2, 3]));
    assert_eq!(level1[7].0, (bytes("w"), 1, 28, 29));
    // thirty entries in runs of sixteen make one full run: that is
    // under the minimum of five, so the climb stops at level one
    assert!(level2.is_empty());

    // the level carries the same documents as level zero
    let mut all0 = RoaringBitmap::new();
    for e in &level0 {
        all0 |= &e.1;
    }
    let mut all1 = RoaringBitmap::new();
    for e in &level1 {
        all1 |= &e.1;
    }
    assert_eq!(all0, all1);
}

#[test]
fn eighty_entries_build_two_levels() {
    let mut index = empty_index();
    for i in 0..80u32 {
        index
            .word_level_position_docids
            .push(((bytes("w"), 0, i, i), bitmap(&[i])));
    }
    let mut builder = WordsLevelPositions::new(0);
    builder.level_group_size(4);
    builder.min_level_size(5);
    builder.execute(&mut index);

    let t = &index.word_level_position_docids;
    let level1: Vec<_> = t.iter().filter(|e| e.0.1 == 1).collect();
    let level2: Vec<_> = t.iter().filter(|e| e.0.1 == 2).collect();
    let level3: Vec<_> = t.iter().filter(|e| e.0.1 == 3).collect();

    // level one groups every four, level two every sixteen
    assert_eq!(level1.len(), 20);
    assert_eq!(level2.len(), 5);
    assert_eq!(level2[0].0, (bytes("w"), 2, 0, 15));
    assert_eq!(level2[4].0, (bytes("w"), 2, 64, 79));
    // eighty entries in runs of sixty-four fall under the minimum
    assert!(level3.is_empty());

    // every level carries the same documents as level zero
    let mut all1 = RoaringBitmap::new();
    for e in &level1 {
        all1 |= &e.1;
    }
    let mut all2 = RoaringBitmap::new();
    for e in &level2 {
        all2 |= &e.1;
    }
    assert_eq!(all1, all2);
    assert_eq!(all1.len(), 80);
}

#[test]
fn few_entries_build_no_levels() {
    let mut index = empty_index();
    for i in 0..19u32 {
        index
            .word_level_position_docids
            .push(((bytes("w"), 0, i, i), bitmap(&[i])));
    }
    let mut builder = WordsLevelPositions::new(0);
    builder.level_group_size(4);
    builder.min_level_size(5);
    builder.execute(&mut index);
    // nineteen entries in runs of four make four full runs: under the
    // minimum of five, so no level is built
    assert!(index.word_level_position_docids.iter().all(|e| e.0.1 == 0));
    assert_eq!(index.word_level_position_docids.len(), 19);
}

#[test]
fn stale_levels_are_cleared_and_rebuilt() {
    let mut index = empty_index();
    index
        .word_level_position_docids
        .push(((bytes("w"), 0, 0, 0), bitmap(&[0])));
    // a leftover bucket from an earlier build
    index
        .word_level_position_docids
        .push(((bytes("w"), 3, 0, 99), bitmap(&[9])));
    let builder = WordsLevelPositions::new(0);
    builder.execute(&mut index);
    assert_eq!(index.word_level_position_docids.len(), 1);
    assert_eq!(index.word_level_position_docids[0].0, (bytes("w"), 0, 0, 0));
}

#[test]
fn words_are_grouped_separately() {
    let mut index = empty_index();
    for i in 0..10u32 {
        index
            .word_level_position_docids
            .push(((bytes("a"), 0, i, i), bitmap(&[i])));
    }
    for i in 0..10u32 {
        index
            .word_level_position_docids
            .push(((bytes("b"), 0, i, i), bitmap(&[100 + i])));
    }
    let mut builder = WordsLevelPositions::new(0);
    builder.level_group_size(2);
    builder.min_level_size(5);
    builder.execute(&mut index);
    let t = &index.word_level_position_docids;
    let a1: Vec<_> = t.iter().filter(|e| e.0.0 == bytes("a") && e.0.1 == 1).collect();
    let b1: Vec<_> = t.iter().filter(|e| e.0.0 == bytes("b") && e.0.1 == 1).collect();
    assert_eq!(a1.len(), 5);
    assert_eq!(b1.len(), 5);
    assert_eq!(a1[0].1, bitmap(&[0, 1]));
    assert_eq!(b1[0].1, bitmap(&[100, 101]));
}
