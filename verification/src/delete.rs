//! The deletion pipeline: given a set of document identifiers, removes
//! their traces from every secondary index in one transaction.
//!
//! All fallible work runs first; the index is only written once nothing
//! can fail, so an error leaves it unchanged, as an aborted transaction
//! would. Each table's new contents is pinned to a small spec transform
//! here, and the well-formedness proofs build on those transforms.

use vstd::prelude::*;

use roaring::RoaringBitmap;

use crate::bitmap::{
    bitmap_seq, diff_posting, lemma_diff_members, rb_clone, rb_contains, rb_difference,
    rb_is_empty, rb_len, rb_new, rb_union,
};
use crate::index::{docs_view, prune_table, str_tbl_view, tbl_view, DocEntry, Index, IndexError};
use crate::seqs::{bytes_member, clone_bytes, lemma_bytes_view, sort_dedup_bytes};
use crate::FieldId;

verus! {

/// The documents table without the deleted documents.
pub open spec fn kept_docs(
    t: Seq<(u32, Seq<(u16, Seq<u8>)>)>,
    del: Seq<u32>,
) -> Seq<(u32, Seq<(u16, Seq<u8>)>)>
    decreases t.len(),
{
    if t.len() == 0 {
        Seq::empty()
    } else {
        let r = kept_docs(t.drop_first(), del);
        if del.contains(t[0].0) {
            r
        } else {
            seq![t[0]] + r
        }
    }
}

/// The deleted documents' table rows, in table order.
pub open spec fn dropped_docs(
    t: Seq<(u32, Seq<(u16, Seq<u8>)>)>,
    del: Seq<u32>,
) -> Seq<(u32, Seq<(u16, Seq<u8>)>)>
    decreases t.len(),
{
    if t.len() == 0 {
        Seq::empty()
    } else {
        let r = dropped_docs(t.drop_first(), del);
        if del.contains(t[0].0) {
            seq![t[0]] + r
        } else {
            r
        }
    }
}

/// The positions table without the deleted documents' rows.
pub open spec fn kept_positions(
    t: Seq<((u32, Seq<u8>), Seq<u32>)>,
    del: Seq<u32>,
) -> Seq<((u32, Seq<u8>), Seq<u32>)>
    decreases t.len(),
{
    if t.len() == 0 {
        Seq::empty()
    } else {
        let r = kept_positions(t.drop_first(), del);
        if del.contains(t[0].0.0) {
            r
        } else {
            seq![t[0]] + r
        }
    }
}

/// The words of the deleted documents' position rows, in table order.
pub open spec fn touched_words(t: Seq<((u32, Seq<u8>), Seq<u32>)>, del: Seq<u32>) -> Seq<Seq<u8>>
    decreases t.len(),
{
    if t.len() == 0 {
        Seq::empty()
    } else {
        let r = touched_words(t.drop_first(), del);
        if del.contains(t[0].0.0) {
            seq![t[0].0.1] + r
        } else {
            r
        }
    }
}

/// The word postings after the sweep: touched words lose the deleted
/// documents and vanish when emptied; untouched words keep their
/// posting.
pub open spec fn prune_touched(
    t: Seq<(Seq<u8>, Seq<u32>)>,
    touched: Seq<Seq<u8>>,
    del: Seq<u32>,
) -> Seq<(Seq<u8>, Seq<u32>)>
    decreases t.len(),
{
    if t.len() == 0 {
        Seq::empty()
    } else {
        let r = prune_touched(t.drop_first(), touched, del);
        if touched.contains(t[0].0) {
            let p = diff_posting(t[0].1, del);
            if p.len() == 0 {
                r
            } else {
                seq![(t[0].0, p)] + r
            }
        } else {
            seq![t[0]] + r
        }
    }
}

/// The touched words whose postings emptied: what leaves the words FST.
pub open spec fn removed_touched(
    t: Seq<(Seq<u8>, Seq<u32>)>,
    touched: Seq<Seq<u8>>,
    del: Seq<u32>,
) -> Seq<Seq<u8>>
    decreases t.len(),
{
    if t.len() == 0 {
        Seq::empty()
    } else {
        let r = removed_touched(t.drop_first(), touched, del);
        if touched.contains(t[0].0) && diff_posting(t[0].1, del).len() == 0 {
            seq![t[0].0] + r
        } else {
            r
        }
    }
}

/// The keys whose postings a full prune empties: what leaves the
/// prefixes FST.
pub open spec fn removed_keys(t: Seq<(Seq<u8>, Seq<u32>)>, del: Seq<u32>) -> Seq<Seq<u8>>
    decreases t.len(),
{
    if t.len() == 0 {
        Seq::empty()
    } else {
        let r = removed_keys(t.drop_first(), del);
        if diff_posting(t[0].1, del).len() == 0 {
            seq![t[0].0] + r
        } else {
            r
        }
    }
}

/// The per-document facet rows that survive: a row goes when its field
/// is faceted and its document is deleted.
pub open spec fn kept_facet_rows(
    t: Seq<(u16, u32, Seq<u8>)>,
    faceted: Seq<u16>,
    del: Seq<u32>,
) -> Seq<(u16, u32, Seq<u8>)>
    decreases t.len(),
{
    if t.len() == 0 {
        Seq::empty()
    } else {
        let r = kept_facet_rows(t.drop_first(), faceted, del);
        if faceted.contains(t[0].0) && del.contains(t[0].1) {
            r
        } else {
            seq![t[0]] + r
        }
    }
}

/// How many documents of the table carry field `f`.
pub open spec fn field_count(t: Seq<(u32, Seq<(u16, Seq<u8>)>)>, f: u16) -> nat
    decreases t.len(),
{
    if t.len() == 0 {
        0
    } else {
        (if crate::record::record_field(t[0].1, f) is Some {
            1nat
        } else {
            0nat
        }) + field_count(t.drop_first(), f)
    }
}

/// Splits the documents table into the kept and the deleted rows.
fn split_documents(t: &Vec<DocEntry>, d: &RoaringBitmap) -> (r: (Vec<DocEntry>, Vec<DocEntry>))
    ensures
        docs_view(r.0@) == kept_docs(docs_view(t@), bitmap_seq(*d)),
        docs_view(r.1@) == dropped_docs(docs_view(t@), bitmap_seq(*d)),
{
    let ghost del = bitmap_seq(*d);
    let mut kept: Vec<DocEntry> = Vec::new();
    let mut dropped: Vec<DocEntry> = Vec::new();
    let mut i: usize = 0;
    proof {
        assert(docs_view(t@).skip(0) =~= docs_view(t@));
        assert(docs_view(kept@) =~= Seq::<(u32, Seq<(u16, Seq<u8>)>)>::empty());
        assert(docs_view(kept@) + kept_docs(docs_view(t@), del) =~= kept_docs(docs_view(t@), del));
        assert(docs_view(dropped@) + dropped_docs(docs_view(t@), del) =~= dropped_docs(
            docs_view(t@),
            del,
        ));
    }
    while i < t.len()
        invariant
            i <= t.len(),
            del == bitmap_seq(*d),
            kept_docs(docs_view(t@), del) == docs_view(kept@) + kept_docs(
                docs_view(t@).skip(i as int),
                del,
            ),
            dropped_docs(docs_view(t@), del) == docs_view(dropped@) + dropped_docs(
                docs_view(t@).skip(i as int),
                del,
            ),
        decreases t.len() - i,
    {
        let ghost tv = docs_view(t@);
        proof {
            assert(tv.skip(i as int)[0] == tv[i as int]);
            assert(tv[i as int] == (t@[i as int].0, t@[i as int].1.deep_view()));
            assert(tv.skip(i as int).drop_first() =~= tv.skip(i + 1));
        }
        let docid = t[i].0;
        let rec = crate::documents::clone_entries(&t[i].1);
        let ghost kv0 = docs_view(kept@);
        let ghost dv0 = docs_view(dropped@);
        if rb_contains(d, docid) {
            dropped.push((docid, rec));
            proof {
                assert(docs_view(dropped@) =~= dv0.push(tv[i as int]));
                assert(dv0 + (seq![tv[i as int]] + dropped_docs(tv.skip(i + 1), del))
                    =~= docs_view(dropped@) + dropped_docs(tv.skip(i + 1), del));
            }
        } else {
            kept.push((docid, rec));
            proof {
                assert(docs_view(kept@) =~= kv0.push(tv[i as int]));
                assert(kv0 + (seq![tv[i as int]] + kept_docs(tv.skip(i + 1), del)) =~= docs_view(
                    kept@,
                ) + kept_docs(tv.skip(i + 1), del));
            }
        }
        i = i + 1;
    }
    proof {
        let tv = docs_view(t@);
        assert(tv.skip(tv.len() as int).len() == 0);
        assert(docs_view(kept@) + kept_docs(tv.skip(tv.len() as int), del) =~= docs_view(kept@));
        assert(docs_view(dropped@) + dropped_docs(tv.skip(tv.len() as int), del) =~= docs_view(
            dropped@,
        ));
        assert(tv.len() == t@.len());
    }
    (kept, dropped)
}

/// Drops the deleted documents' position rows and collects their words.
fn filter_positions(t: &Vec<((u32, Vec<u8>), RoaringBitmap)>, d: &RoaringBitmap) -> (r: (
    Vec<((u32, Vec<u8>), RoaringBitmap)>,
    Vec<Vec<u8>>,
))
    ensures
        tbl_view(r.0@) == kept_positions(tbl_view(t@), bitmap_seq(*d)),
        r.1.deep_view() == touched_words(tbl_view(t@), bitmap_seq(*d)),
{
    let ghost del = bitmap_seq(*d);
    let mut kept: Vec<((u32, Vec<u8>), RoaringBitmap)> = Vec::new();
    let mut words: Vec<Vec<u8>> = Vec::new();
    let mut i: usize = 0;
    proof {
        assert(tbl_view(t@).skip(0) =~= tbl_view(t@));
        assert(tbl_view(kept@) =~= Seq::<((u32, Seq<u8>), Seq<u32>)>::empty());
        assert(words.deep_view() =~= Seq::<Seq<u8>>::empty());
        assert(tbl_view(kept@) + kept_positions(tbl_view(t@), del) =~= kept_positions(
            tbl_view(t@),
            del,
        ));
        assert(words.deep_view() + touched_words(tbl_view(t@), del) =~= touched_words(
            tbl_view(t@),
            del,
        ));
    }
    while i < t.len()
        invariant
            i <= t.len(),
            del == bitmap_seq(*d),
            kept_positions(tbl_view(t@), del) == tbl_view(kept@) + kept_positions(
                tbl_view(t@).skip(i as int),
                del,
            ),
            touched_words(tbl_view(t@), del) == words.deep_view() + touched_words(
                tbl_view(t@).skip(i as int),
                del,
            ),
        decreases t.len() - i,
    {
        let ghost tv = tbl_view(t@);
        proof {
            assert(tv.skip(i as int)[0] == tv[i as int]);
            assert(tv[i as int] == (t@[i as int].0.deep_view(), bitmap_seq(t@[i as int].1)));
            assert(t@[i as int].0.deep_view() == (t@[i as int].0.0, t@[i as int].0.1.deep_view()));
            assert(tv.skip(i as int).drop_first() =~= tv.skip(i + 1));
        }
        let docid = t[i].0.0;
        let word = clone_bytes(&t[i].0.1);
        proof {
            lemma_bytes_view(t@[i as int].0.1);
            lemma_bytes_view(word);
        }
        let ghost kv0 = tbl_view(kept@);
        let ghost wv0 = words.deep_view();
        if rb_contains(d, docid) {
            words.push(word);
            proof {
                assert(words.deep_view() =~= wv0.push(t@[i as int].0.1.deep_view()));
                assert(wv0 + (seq![tv[i as int].0.1] + touched_words(tv.skip(i + 1), del))
                    =~= words.deep_view() + touched_words(tv.skip(i + 1), del));
            }
        } else {
            let p = rb_clone(&t[i].1);
            kept.push(((docid, word), p));
            proof {
                assert(tbl_view(kept@) =~= kv0.push(tv[i as int]));
                assert(kv0 + (seq![tv[i as int]] + kept_positions(tv.skip(i + 1), del))
                    =~= tbl_view(kept@) + kept_positions(tv.skip(i + 1), del));
            }
        }
        i = i + 1;
    }
    proof {
        let tv = tbl_view(t@);
        assert(tv.skip(tv.len() as int).len() == 0);
        assert(tbl_view(kept@) + kept_positions(tv.skip(tv.len() as int), del) =~= tbl_view(kept@));
        assert(words.deep_view() + touched_words(tv.skip(tv.len() as int), del)
            =~= words.deep_view());
        assert(tv.len() == t@.len());
    }
    (kept, words)
}

/// Walks the word postings: touched words lose the deleted documents,
/// and the words that empty are collected for the FST rewrite.
fn prune_word_docids(
    t: &Vec<(Vec<u8>, RoaringBitmap)>,
    touched: &Vec<Vec<u8>>,
    d: &RoaringBitmap,
) -> (r: (Vec<(Vec<u8>, RoaringBitmap)>, Vec<Vec<u8>>))
    ensures
        tbl_view(r.0@) == prune_touched(tbl_view(t@), touched.deep_view(), bitmap_seq(*d)),
        r.1.deep_view() == removed_touched(tbl_view(t@), touched.deep_view(), bitmap_seq(*d)),
{
    let ghost del = bitmap_seq(*d);
    let ghost tc = touched.deep_view();
    let mut out: Vec<(Vec<u8>, RoaringBitmap)> = Vec::new();
    let mut removed: Vec<Vec<u8>> = Vec::new();
    let mut i: usize = 0;
    proof {
        assert(tbl_view(t@).skip(0) =~= tbl_view(t@));
        assert(tbl_view(out@) =~= Seq::<(Seq<u8>, Seq<u32>)>::empty());
        assert(removed.deep_view() =~= Seq::<Seq<u8>>::empty());
        assert(tbl_view(out@) + prune_touched(tbl_view(t@), tc, del) =~= prune_touched(
            tbl_view(t@),
            tc,
            del,
        ));
        assert(removed.deep_view() + removed_touched(tbl_view(t@), tc, del) =~= removed_touched(
            tbl_view(t@),
            tc,
            del,
        ));
    }
    while i < t.len()
        invariant
            i <= t.len(),
            del == bitmap_seq(*d),
            tc == touched.deep_view(),
            prune_touched(tbl_view(t@), tc, del) == tbl_view(out@) + prune_touched(
                tbl_view(t@).skip(i as int),
                tc,
                del,
            ),
            removed_touched(tbl_view(t@), tc, del) == removed.deep_view() + removed_touched(
                tbl_view(t@).skip(i as int),
                tc,
                del,
            ),
        decreases t.len() - i,
    {
        let ghost tv = tbl_view(t@);
        proof {
            assert(tv.skip(i as int)[0] == tv[i as int]);
            assert(tv[i as int] == (t@[i as int].0.deep_view(), bitmap_seq(t@[i as int].1)));
            assert(tv.skip(i as int).drop_first() =~= tv.skip(i + 1));
        }
        let w = clone_bytes(&t[i].0);
        proof {
            lemma_bytes_view(t@[i as int].0);
            lemma_bytes_view(w);
        }
        let ghost ov0 = tbl_view(out@);
        let ghost rv0 = removed.deep_view();
        if bytes_member(touched, &t[i].0) {
            let p = rb_difference(&t[i].1, d);
            if rb_is_empty(&p) {
                removed.push(w);
                proof {
                    assert(removed.deep_view() =~= rv0.push(tv[i as int].0));
                    assert(rv0 + (seq![tv[i as int].0] + removed_touched(tv.skip(i + 1), tc, del))
                        =~= removed.deep_view() + removed_touched(tv.skip(i + 1), tc, del));
                }
            } else {
                out.push((w, p));
                proof {
                    assert(tbl_view(out@) =~= ov0.push(
                        (tv[i as int].0, diff_posting(tv[i as int].1, del)),
                    ));
                    assert(ov0 + (seq![(tv[i as int].0, diff_posting(tv[i as int].1, del))]
                        + prune_touched(tv.skip(i + 1), tc, del)) =~= tbl_view(out@)
                        + prune_touched(tv.skip(i + 1), tc, del));
                }
            }
        } else {
            let p = rb_clone(&t[i].1);
            out.push((w, p));
            proof {
                assert(tbl_view(out@) =~= ov0.push(tv[i as int]));
                assert(ov0 + (seq![tv[i as int]] + prune_touched(tv.skip(i + 1), tc, del))
                    =~= tbl_view(out@) + prune_touched(tv.skip(i + 1), tc, del));
            }
        }
        i = i + 1;
    }
    proof {
        let tv = tbl_view(t@);
        assert(tv.skip(tv.len() as int).len() == 0);
        assert(tbl_view(out@) + prune_touched(tv.skip(tv.len() as int), tc, del) =~= tbl_view(
            out@,
        ));
        assert(removed.deep_view() + removed_touched(tv.skip(tv.len() as int), tc, del)
            =~= removed.deep_view());
        assert(tv.len() == t@.len());
    }
    (out, removed)
}

/// Subtracts the deleted documents from every posting of a byte-keyed
/// table, dropping emptied entries and collecting their keys.
fn prune_collect_table(t: &Vec<(Vec<u8>, RoaringBitmap)>, d: &RoaringBitmap) -> (r: (
    Vec<(Vec<u8>, RoaringBitmap)>,
    Vec<Vec<u8>>,
))
    ensures
        tbl_view(r.0@) == prune_table(tbl_view(t@), bitmap_seq(*d)),
        r.1.deep_view() == removed_keys(tbl_view(t@), bitmap_seq(*d)),
{
    let ghost del = bitmap_seq(*d);
    let mut out: Vec<(Vec<u8>, RoaringBitmap)> = Vec::new();
    let mut removed: Vec<Vec<u8>> = Vec::new();
    let mut i: usize = 0;
    proof {
        assert(tbl_view(t@).skip(0) =~= tbl_view(t@));
        assert(tbl_view(out@) =~= Seq::<(Seq<u8>, Seq<u32>)>::empty());
        assert(removed.deep_view() =~= Seq::<Seq<u8>>::empty());
        assert(tbl_view(out@) + prune_table(tbl_view(t@), del) =~= prune_table(tbl_view(t@), del));
        assert(removed.deep_view() + removed_keys(tbl_view(t@), del) =~= removed_keys(
            tbl_view(t@),
            del,
        ));
    }
    while i < t.len()
        invariant
            i <= t.len(),
            del == bitmap_seq(*d),
            prune_table(tbl_view(t@), del) == tbl_view(out@) + prune_table(
                tbl_view(t@).skip(i as int),
                del,
            ),
            removed_keys(tbl_view(t@), del) == removed.deep_view() + removed_keys(
                tbl_view(t@).skip(i as int),
                del,
            ),
        decreases t.len() - i,
    {
        let ghost tv = tbl_view(t@);
        proof {
            assert(tv.skip(i as int)[0] == tv[i as int]);
            assert(tv[i as int] == (t@[i as int].0.deep_view(), bitmap_seq(t@[i as int].1)));
            assert(tv.skip(i as int).drop_first() =~= tv.skip(i + 1));
        }
        let w = clone_bytes(&t[i].0);
        proof {
            lemma_bytes_view(t@[i as int].0);
            lemma_bytes_view(w);
        }
        let ghost ov0 = tbl_view(out@);
        let ghost rv0 = removed.deep_view();
        let p = rb_difference(&t[i].1, d);
        if rb_is_empty(&p) {
            removed.push(w);
            proof {
                assert(removed.deep_view() =~= rv0.push(tv[i as int].0));
                assert(rv0 + (seq![tv[i as int].0] + removed_keys(tv.skip(i + 1), del))
                    =~= removed.deep_view() + removed_keys(tv.skip(i + 1), del));
            }
        } else {
            out.push((w, p));
            proof {
                assert(tbl_view(out@) =~= ov0.push(
                    (tv[i as int].0, diff_posting(tv[i as int].1, del)),
                ));
                assert(ov0 + (seq![(tv[i as int].0, diff_posting(tv[i as int].1, del))]
                    + prune_table(tv.skip(i + 1), del)) =~= tbl_view(out@) + prune_table(
                    tv.skip(i + 1),
                    del,
                ));
            }
        }
        i = i + 1;
    }
    proof {
        let tv = tbl_view(t@);
        assert(tv.skip(tv.len() as int).len() == 0);
        assert(tbl_view(out@) + prune_table(tv.skip(tv.len() as int), del) =~= tbl_view(out@));
        assert(removed.deep_view() + removed_keys(tv.skip(tv.len() as int), del)
            =~= removed.deep_view());
        assert(tv.len() == t@.len());
    }
    (out, removed)
}

/// Subtracts the deleted documents from every posting of a byte-keyed
/// table, dropping emptied entries.
fn prune_bytes_table(t: &Vec<(Vec<u8>, RoaringBitmap)>, d: &RoaringBitmap) -> (r: Vec<
    (Vec<u8>, RoaringBitmap),
>)
    ensures
        tbl_view(r@) == prune_table(tbl_view(t@), bitmap_seq(*d)),
{
    let (out, _removed) = prune_collect_table(t, d);
    out
}

/// Subtracts the deleted documents from every positional level entry.
fn prune_level_table(t: &Vec<((Vec<u8>, u8, u32, u32), RoaringBitmap)>, d: &RoaringBitmap) -> (r:
    Vec<((Vec<u8>, u8, u32, u32), RoaringBitmap)>)
    ensures
        tbl_view(r@) == prune_table(tbl_view(t@), bitmap_seq(*d)),
{
    let ghost del = bitmap_seq(*d);
    let mut out: Vec<((Vec<u8>, u8, u32, u32), RoaringBitmap)> = Vec::new();
    let mut i: usize = 0;
    proof {
        assert(tbl_view(t@).skip(0) =~= tbl_view(t@));
        assert(tbl_view(out@) =~= Seq::<((Seq<u8>, u8, u32, u32), Seq<u32>)>::empty());
        assert(tbl_view(out@) + prune_table(tbl_view(t@), del) =~= prune_table(tbl_view(t@), del));
    }
    while i < t.len()
        invariant
            i <= t.len(),
            del == bitmap_seq(*d),
            prune_table(tbl_view(t@), del) == tbl_view(out@) + prune_table(
                tbl_view(t@).skip(i as int),
                del,
            ),
        decreases t.len() - i,
    {
        let ghost tv = tbl_view(t@);
        proof {
            assert(tv.skip(i as int)[0] == tv[i as int]);
            assert(tv[i as int] == (t@[i as int].0.deep_view(), bitmap_seq(t@[i as int].1)));
            assert(t@[i as int].0.deep_view() == (
                t@[i as int].0.0.deep_view(),
                t@[i as int].0.1,
                t@[i as int].0.2,
                t@[i as int].0.3,
            ));
            assert(tv.skip(i as int).drop_first() =~= tv.skip(i + 1));
        }
        let key = (clone_bytes(&t[i].0.0), t[i].0.1, t[i].0.2, t[i].0.3);
        proof {
            lemma_bytes_view(t@[i as int].0.0);
            lemma_bytes_view(key.0);
        }
        let ghost ov0 = tbl_view(out@);
        let p = rb_difference(&t[i].1, d);
        if !rb_is_empty(&p) {
            out.push((key, p));
            proof {
                assert(tbl_view(out@) =~= ov0.push(
                    (tv[i as int].0, diff_posting(tv[i as int].1, del)),
                ));
                assert(ov0 + (seq![(tv[i as int].0, diff_posting(tv[i as int].1, del))]
                    + prune_table(tv.skip(i + 1), del)) =~= tbl_view(out@) + prune_table(
                    tv.skip(i + 1),
                    del,
                ));
            }
        }
        i = i + 1;
    }
    proof {
        let tv = tbl_view(t@);
        assert(tv.skip(tv.len() as int).len() == 0);
        assert(tbl_view(out@) + prune_table(tv.skip(tv.len() as int), del) =~= tbl_view(out@));
        assert(tv.len() == t@.len());
    }
    out
}

/// Subtracts the deleted documents from every string facet posting,
/// keeping the companion data of surviving entries.
fn prune_string_facets(t: &Vec<(Vec<u8>, (Vec<u8>, RoaringBitmap))>, d: &RoaringBitmap) -> (r: Vec<
    (Vec<u8>, (Vec<u8>, RoaringBitmap)),
>)
    ensures
        str_tbl_view(r@) == crate::index::prune_str_table(str_tbl_view(t@), bitmap_seq(*d)),
{
    let ghost del = bitmap_seq(*d);
    let mut out: Vec<(Vec<u8>, (Vec<u8>, RoaringBitmap))> = Vec::new();
    let mut i: usize = 0;
    proof {
        assert(str_tbl_view(t@).skip(0) =~= str_tbl_view(t@));
        assert(str_tbl_view(out@) =~= Seq::<(Seq<u8>, (Seq<u8>, Seq<u32>))>::empty());
        assert(str_tbl_view(out@) + crate::index::prune_str_table(str_tbl_view(t@), del)
            =~= crate::index::prune_str_table(str_tbl_view(t@), del));
    }
    while i < t.len()
        invariant
            i <= t.len(),
            del == bitmap_seq(*d),
            crate::index::prune_str_table(str_tbl_view(t@), del) == str_tbl_view(out@)
                + crate::index::prune_str_table(str_tbl_view(t@).skip(i as int), del),
        decreases t.len() - i,
    {
        let ghost tv = str_tbl_view(t@);
        proof {
            assert(tv.skip(i as int)[0] == tv[i as int]);
            assert(tv[i as int] == (
                t@[i as int].0.deep_view(),
                (t@[i as int].1.0.deep_view(), bitmap_seq(t@[i as int].1.1)),
            ));
            assert(tv.skip(i as int).drop_first() =~= tv.skip(i + 1));
        }
        let key = clone_bytes(&t[i].0);
        let companion = clone_bytes(&t[i].1.0);
        proof {
            lemma_bytes_view(t@[i as int].0);
            lemma_bytes_view(t@[i as int].1.0);
            lemma_bytes_view(key);
            lemma_bytes_view(companion);
        }
        let ghost ov0 = str_tbl_view(out@);
        let p = rb_difference(&t[i].1.1, d);
        if !rb_is_empty(&p) {
            out.push((key, (companion, p)));
            proof {
                assert(str_tbl_view(out@) =~= ov0.push(
                    (tv[i as int].0, (tv[i as int].1.0, diff_posting(tv[i as int].1.1, del))),
                ));
                assert(ov0 + (seq![
                    (tv[i as int].0, (tv[i as int].1.0, diff_posting(tv[i as int].1.1, del))),
                ] + crate::index::prune_str_table(tv.skip(i + 1), del)) =~= str_tbl_view(out@)
                    + crate::index::prune_str_table(tv.skip(i + 1), del));
            }
        }
        i = i + 1;
    }
    proof {
        let tv = str_tbl_view(t@);
        assert(tv.skip(tv.len() as int).len() == 0);
        assert(str_tbl_view(out@) + crate::index::prune_str_table(tv.skip(tv.len() as int), del)
            =~= str_tbl_view(out@));
        assert(tv.len() == t@.len());
    }
    out
}

/// Drops the per-document facet rows of deleted documents under faceted
/// fields.
fn filter_facet_rows(
    t: &Vec<(FieldId, u32, Vec<u8>)>,
    faceted: &Vec<FieldId>,
    d: &RoaringBitmap,
) -> (r: Vec<(FieldId, u32, Vec<u8>)>)
    ensures
        r.deep_view() == kept_facet_rows(t.deep_view(), faceted@, bitmap_seq(*d)),
{
    let ghost del = bitmap_seq(*d);
    let mut out: Vec<(FieldId, u32, Vec<u8>)> = Vec::new();
    let mut i: usize = 0;
    proof {
        assert(t.deep_view().skip(0) =~= t.deep_view());
        assert(out.deep_view() =~= Seq::<(u16, u32, Seq<u8>)>::empty());
        assert(out.deep_view() + kept_facet_rows(t.deep_view(), faceted@, del) =~= kept_facet_rows(
            t.deep_view(),
            faceted@,
            del,
        ));
    }
    while i < t.len()
        invariant
            i <= t.len(),
            del == bitmap_seq(*d),
            kept_facet_rows(t.deep_view(), faceted@, del) == out.deep_view() + kept_facet_rows(
                t.deep_view().skip(i as int),
                faceted@,
                del,
            ),
        decreases t.len() - i,
    {
        let ghost tv = t.deep_view();
        proof {
            assert(tv.skip(i as int)[0] == tv[i as int]);
            assert(tv[i as int] == (t@[i as int].0, t@[i as int].1, t@[i as int].2.deep_view()));
            assert(tv.skip(i as int).drop_first() =~= tv.skip(i + 1));
        }
        let fid = t[i].0;
        let docid = t[i].1;
        let ghost ov0 = out.deep_view();
        let is_faceted = fid_member(faceted, fid);
        if is_faceted && rb_contains(d, docid) {
        } else {
            let vbytes = clone_bytes(&t[i].2);
            proof {
                lemma_bytes_view(t@[i as int].2);
                lemma_bytes_view(vbytes);
            }
            out.push((fid, docid, vbytes));
            proof {
                assert(out.deep_view() =~= ov0.push(tv[i as int]));
                assert(ov0 + (seq![tv[i as int]] + kept_facet_rows(tv.skip(i + 1), faceted@, del))
                    =~= out.deep_view() + kept_facet_rows(tv.skip(i + 1), faceted@, del));
            }
        }
        i = i + 1;
    }
    proof {
        let tv = t.deep_view();
        assert(tv.skip(tv.len() as int).len() == 0);
        assert(out.deep_view() + kept_facet_rows(tv.skip(tv.len() as int), faceted@, del)
            =~= out.deep_view());
        assert(tv.len() == t@.len());
    }
    out
}

/// Whether a field identifier is in the faceted list.
fn fid_member(faceted: &Vec<FieldId>, f: FieldId) -> (r: bool)
    ensures
        r == faceted@.contains(f),
{
    let mut i: usize = 0;
    while i < faceted.len()
        invariant
            i <= faceted.len(),
            forall|k: int| 0 <= k < i ==> faceted@[k] != f,
        decreases faceted.len() - i,
    {
        if faceted[i] == f {
            return true;
        }
        i = i + 1;
    }
    false
}

/// Subtracts the deleted documents from the per-field faceted document
/// bitmaps, for every faceted field: existing rows are rewritten, and a
/// faceted field without a row gets an empty one, as the store write
/// always happens.
fn sub_faceted_bitmaps(
    t: &Vec<(FieldId, RoaringBitmap)>,
    faceted: &Vec<FieldId>,
    d: &RoaringBitmap,
) -> (r: Vec<(FieldId, RoaringBitmap)>)
    ensures
        tbl_view(r@).len() >= tbl_view(t@).len(),
        forall|i: int|
            0 <= i < tbl_view(t@).len() ==> (#[trigger] tbl_view(r@)[i]).0 == tbl_view(t@)[i].0
                && (faceted@.contains(tbl_view(t@)[i].0) ==> tbl_view(r@)[i].1 == diff_posting(
                tbl_view(t@)[i].1,
                bitmap_seq(*d),
            )) && (!faceted@.contains(tbl_view(t@)[i].0) ==> tbl_view(r@)[i] == tbl_view(t@)[i]),
        forall|i: int|
            tbl_view(t@).len() <= i < tbl_view(r@).len() ==> faceted@.contains(
                (#[trigger] tbl_view(r@)[i]).0,
            ) && tbl_view(r@)[i].1 =~= Seq::<u32>::empty(),
        forall|f: FieldId|
            faceted@.contains(f) ==> exists|i: int|
                0 <= i < tbl_view(r@).len() && (#[trigger] tbl_view(r@)[i]).0 == f,
{
    let ghost del = bitmap_seq(*d);
    let ghost tv = tbl_view(t@);
    let mut out: Vec<(FieldId, RoaringBitmap)> = Vec::new();
    let mut i: usize = 0;
    while i < t.len()
        invariant
            i <= t.len(),
            del == bitmap_seq(*d),
            tv == tbl_view(t@),
            out@.len() == i,
            forall|k: int|
                0 <= k < i ==> (#[trigger] tbl_view(out@)[k]).0 == tv[k].0 && (faceted@.contains(
                    tv[k].0,
                ) ==> tbl_view(out@)[k].1 == diff_posting(tv[k].1, del)) && (!faceted@.contains(
                    tv[k].0,
                ) ==> tbl_view(out@)[k] == tv[k]),
        decreases t.len() - i,
    {
        proof {
            assert(tv[i as int] == (t@[i as int].0, bitmap_seq(t@[i as int].1)));
        }
        let fid = t[i].0;
        let ghost ov0 = tbl_view(out@);
        if fid_member(faceted, fid) {
            let p = rb_difference(&t[i].1, d);
            out.push((fid, p));
        } else {
            let p = rb_clone(&t[i].1);
            out.push((fid, p));
        }
        proof {
            assert forall|k: int| 0 <= k < i + 1 implies (#[trigger] tbl_view(out@)[k]).0
                == tv[k].0 && (faceted@.contains(tv[k].0) ==> tbl_view(out@)[k].1 == diff_posting(
                tv[k].1,
                del,
            )) && (!faceted@.contains(tv[k].0) ==> tbl_view(out@)[k] == tv[k]) by {
                assert(tbl_view(out@)[k] == (out@[k].0, bitmap_seq(out@[k].1)));
                if k < i {
                    assert(tbl_view(out@)[k] == ov0[k]);
                }
            }
        }
        i = i + 1;
    }
    let base = out.len();
    let ghost basev = tbl_view(out@);
    let mut j: usize = 0;
    while j < faceted.len()
        invariant
            j <= faceted.len(),
            del == bitmap_seq(*d),
            tv == tbl_view(t@),
            base == tv.len(),
            base <= out@.len(),
            tbl_view(out@).subrange(0, base as int) == basev,
            basev.len() == tv.len(),
            forall|k: int|
                0 <= k < basev.len() ==> (#[trigger] basev[k]).0 == tv[k].0 && (faceted@.contains(
                    tv[k].0,
                ) ==> basev[k].1 == diff_posting(tv[k].1, del)) && (!faceted@.contains(tv[k].0)
                    ==> basev[k] == tv[k]),
            forall|k: int|
                base <= k < out@.len() ==> faceted@.contains((#[trigger] tbl_view(out@)[k]).0)
                    && tbl_view(out@)[k].1 =~= Seq::<u32>::empty(),
            forall|q: int|
                0 <= q < j ==> exists|k: int|
                    0 <= k < out@.len() && (#[trigger] tbl_view(out@)[k]).0 == (
                    #[trigger] faceted@[q]),
        decreases faceted.len() - j,
    {
        let f = faceted[j];
        let mut found = false;
        let mut k: usize = 0;
        while k < base
            invariant
                k <= base,
                base <= out@.len(),
                found ==> exists|q2: int|
                    0 <= q2 < out@.len() && (#[trigger] tbl_view(out@)[q2]).0 == f,
                !found ==> forall|q2: int| 0 <= q2 < k ==> (#[trigger] tbl_view(out@)[q2]).0 != f,
            decreases base - k,
        {
            proof {
                assert(tbl_view(out@)[k as int] == (out@[k as int].0, bitmap_seq(out@[k as int].1)));
            }
            if out[k].0 == f {
                found = true;
                break;
            }
            k = k + 1;
        }
        if !found {
            let ghost ov1 = tbl_view(out@);
            let e = rb_new();
            out.push((f, e));
            proof {
                assert(faceted@.contains(f)) by {
                    assert(faceted@[j as int] == f);
                }
                assert forall|k2: int| 0 <= k2 < ov1.len() implies tbl_view(out@)[k2]
                    == ov1[k2] by {
                    assert(tbl_view(out@)[k2] == (out@[k2].0, bitmap_seq(out@[k2].1)));
                    assert(ov1[k2] == (out@[k2].0, bitmap_seq(out@[k2].1)));
                }
                assert(tbl_view(out@)[out@.len() - 1] == (f, bitmap_seq(e)));
                assert(tbl_view(out@).subrange(0, base as int) =~= ov1.subrange(0, base as int));
                assert(tbl_view(out@).len() == out@.len());
                assert forall|k2: int| base <= k2 < out@.len() implies faceted@.contains(
                    (#[trigger] tbl_view(out@)[k2]).0,
                ) && tbl_view(out@)[k2].1 =~= Seq::<u32>::empty() by {
                    if k2 < out@.len() - 1 {
                        assert(tbl_view(out@)[k2] == ov1[k2]);
                        assert(faceted@.contains(ov1[k2].0) && ov1[k2].1 =~= Seq::<u32>::empty());
                    } else {
                        assert(tbl_view(out@)[k2] == (f, bitmap_seq(e)));
                    }
                }
            }
        }
        proof {
            assert forall|q: int| 0 <= q < j + 1 implies exists|k2: int|
                0 <= k2 < out@.len() && (#[trigger] tbl_view(out@)[k2]).0 == (
                #[trigger] faceted@[q]) by {
                if q == j {
                    if !found {
                        assert(tbl_view(out@)[out@.len() - 1].0 == f);
                    }
                }
            }
        }
        j = j + 1;
    }
    proof {
        assert forall|i2: int| 0 <= i2 < tv.len() implies (#[trigger] tbl_view(out@)[i2]).0
            == tv[i2].0 && (faceted@.contains(tv[i2].0) ==> tbl_view(out@)[i2].1 == diff_posting(
            tv[i2].1,
            del,
        )) && (!faceted@.contains(tv[i2].0) ==> tbl_view(out@)[i2] == tv[i2]) by {
            assert(tbl_view(out@).subrange(0, base as int)[i2] == tbl_view(out@)[i2]);
        }
        assert forall|f: FieldId| faceted@.contains(f) implies exists|i2: int|
            0 <= i2 < tbl_view(out@).len() && (#[trigger] tbl_view(out@)[i2]).0 == f by {
            let q = choose|q: int| 0 <= q < faceted@.len() && faceted@[q] == f;
        }
    }
    out
}


/// The external identifiers of the deleted documents, read from their
/// stored primary-key values, in table order.
pub open spec fn extracted_ids(docs: Seq<(u32, Seq<(u16, Seq<u8>)>)>, f: u16) -> Seq<Seq<u8>>
    decreases docs.len(),
{
    if docs.len() == 0 {
        Seq::empty()
    } else {
        let rest = extracted_ids(docs.drop_first(), f);
        match crate::record::record_field(docs[0].1, f) {
            Option::None => rest,
            Option::Some(b) => match crate::index::json_scalar_id(b) {
                Option::Some(e) => seq![e] + rest,
                Option::None => rest,
            },
        }
    }
}

/// The external map without the extracted identifiers.
pub open spec fn kept_ext(t: Seq<(Seq<u8>, u32)>, ids: Seq<Seq<u8>>) -> Seq<(Seq<u8>, u32)>
    decreases t.len(),
{
    if t.len() == 0 {
        Seq::empty()
    } else {
        let r = kept_ext(t.drop_first(), ids);
        if ids.contains(t[0].0) {
            r
        } else {
            seq![t[0]] + r
        }
    }
}

/// One distribution decrement: the named counter loses `cnt`; on zero or
/// underflow the entry is removed; an absent name changes nothing.
pub open spec fn sub_entry(t: Seq<(Seq<char>, u64)>, name: Seq<char>, cnt: u64) -> Seq<
    (Seq<char>, u64),
>
    decreases t.len(),
{
    if t.len() == 0 {
        Seq::empty()
    } else if t[0].0 == name {
        if t[0].1 > cnt {
            seq![(name, (t[0].1 - cnt) as u64)] + t.drop_first()
        } else {
            t.drop_first()
        }
    } else {
        seq![t[0]] + sub_entry(t.drop_first(), name, cnt)
    }
}

/// The distribution after every per-field decrement, in list order.
pub open spec fn apply_counts(
    t: Seq<(Seq<char>, u64)>,
    m: Map<crate::FieldId, Seq<char>>,
    counts: Seq<(u16, u64)>,
) -> Seq<(Seq<char>, u64)>
    decreases counts.len(),
{
    if counts.len() == 0 {
        t
    } else {
        apply_counts(sub_entry(t, m[counts[0].0], counts[0].1), m, counts.drop_first())
    }
}

/// A sound tally of the deleted documents' fields: one row per field
/// that occurs, with how many deleted documents carry it.
pub open spec fn counts_ok(counts: Seq<(u16, u64)>, dropped: Seq<(u32, Seq<(u16, Seq<u8>)>)>) -> bool {
    &&& forall|a: int, b: int|
        0 <= a < b < counts.len() ==> (#[trigger] counts[a]).0 != (#[trigger] counts[b]).0
    &&& forall|k: int|
        0 <= k < counts.len() ==> (#[trigger] counts[k]).1 as nat == field_count(
            dropped,
            counts[k].0,
        ) && counts[k].1 > 0
    &&& forall|f: u16|
        field_count(dropped, f) > 0 ==> exists|k: int|
            0 <= k < counts.len() && (#[trigger] counts[k]).0 == f
}

/// Whether the tally has a row for field `f`.
pub open spec fn fid_counted(counts: Seq<(u16, u64)>, f: u16) -> bool {
    exists|k: int| 0 <= k < counts.len() && (#[trigger] counts[k]).0 == f
}

/// A row for `f` survives pushing another row.
proof fn lemma_fid_counted_push(counts: Seq<(u16, u64)>, e: (u16, u64), f: u16)
    requires
        fid_counted(counts, f),
    ensures
        fid_counted(counts.push(e), f),
{
    let k = choose|k: int| 0 <= k < counts.len() && (#[trigger] counts[k]).0 == f;
    assert(counts.push(e)[k].0 == f);
}

/// A record lists field `f`, so looking `f` up in it succeeds.
proof fn lemma_record_field_present(rec: Seq<(u16, Seq<u8>)>, q: int)
    requires
        0 <= q < rec.len(),
    ensures
        crate::record::record_field(rec, rec[q].0) is Some,
    decreases q,
{
    if rec[0].0 == rec[q].0 {
    } else {
        assert(q > 0);
        assert(rec.drop_first()[q - 1] == rec[q]);
        lemma_record_field_present(rec.drop_first(), q - 1);
    }
}

/// Looking field `f` up succeeds only if the record lists `f`.
proof fn lemma_record_field_entry(rec: Seq<(u16, Seq<u8>)>, f: u16)
    requires
        crate::record::record_field(rec, f) is Some,
    ensures
        exists|q: int| 0 <= q < rec.len() && (#[trigger] rec[q]).0 == f,
    decreases rec.len(),
{
    if rec.len() == 0 {
    } else if rec[0].0 == f {
        assert(rec[0].0 == f);
    } else {
        lemma_record_field_entry(rec.drop_first(), f);
        let q = choose|q: int| 0 <= q < rec.drop_first().len() && (#[trigger] rec.drop_first()[q]).0
            == f;
        assert(rec[q + 1].0 == f);
    }
}

/// Counts how many deleted documents carry field `f`.
fn count_field(dropped: &Vec<DocEntry>, f: FieldId) -> (r: u64)
    requires
        dropped@.len() < 0x10000000000000000,
    ensures
        r as nat == field_count(docs_view(dropped@), f),
{
    let ghost dv = docs_view(dropped@);
    let mut c: u64 = 0;
    let mut i: usize = 0;
    proof {
        assert(dv.skip(0) =~= dv);
    }
    while i < dropped.len()
        invariant
            i <= dropped.len(),
            dv == docs_view(dropped@),
            c as nat + field_count(dv.skip(i as int), f) == field_count(dv, f),
            c <= i,
        decreases dropped.len() - i,
    {
        proof {
            assert(dv.skip(i as int)[0] == dv[i as int]);
            assert(dv[i as int] == (dropped@[i as int].0, dropped@[i as int].1.deep_view()));
            assert(dv.skip(i as int).drop_first() =~= dv.skip(i + 1));
        }
        match crate::record::record_get(&dropped[i].1, f) {
            Some(_) => {
                c = c + 1;
            },
            None => {},
        }
        i = i + 1;
    }
    proof {
        assert(dv.skip(dv.len() as int).len() == 0);
        assert(dv.len() == dropped@.len());
    }
    c
}

/// Whether the tally already has a row for field `f`.
fn counts_member(counts: &Vec<(u16, u64)>, f: FieldId) -> (r: bool)
    ensures
        r == fid_counted(counts@, f),
{
    let mut i: usize = 0;
    while i < counts.len()
        invariant
            i <= counts.len(),
            forall|k: int| 0 <= k < i ==> (#[trigger] counts@[k]).0 != f,
        decreases counts.len() - i,
    {
        if counts[i].0 == f {
            proof {
                assert(counts@[i as int].0 == f);
            }
            return true;
        }
        i = i + 1;
    }
    false
}

/// Tallies, for each field that occurs in a deleted document, how many
/// deleted documents carry it.
fn collect_field_counts(dropped: &Vec<DocEntry>) -> (r: Vec<(u16, u64)>)
    requires
        dropped@.len() < 0x10000000000000000,
    ensures
        counts_ok(r@, docs_view(dropped@)),
{
    let ghost dv = docs_view(dropped@);
    let mut counts: Vec<(u16, u64)> = Vec::new();
    let mut i: usize = 0;
    while i < dropped.len()
        invariant
            i <= dropped.len(),
            dv == docs_view(dropped@),
            dropped@.len() < 0x10000000000000000,
            forall|a: int, b: int|
                0 <= a < b < counts@.len() ==> (#[trigger] counts@[a]).0 != (
                #[trigger] counts@[b]).0,
            forall|k: int|
                0 <= k < counts@.len() ==> (#[trigger] counts@[k]).1 as nat == field_count(
                    dv,
                    counts@[k].0,
                ) && counts@[k].1 > 0,
            forall|k2: int, q: int|
                0 <= k2 < i && 0 <= q < dv[k2].1.len() ==> fid_counted(
                    counts@,
                    (#[trigger] dv[k2].1[q]).0,
                ),
        decreases dropped.len() - i,
    {
        proof {
            assert(dv[i as int] == (dropped@[i as int].0, dropped@[i as int].1.deep_view()));
        }
        let rec = &dropped[i].1;
        let mut q: usize = 0;
        while q < rec.len()
            invariant
                i < dropped.len(),
                q <= rec@.len(),
                dv == docs_view(dropped@),
                dropped@.len() < 0x10000000000000000,
                rec == &dropped@[i as int].1,
                dv[i as int].1 == dropped@[i as int].1.deep_view(),
                forall|a: int, b: int|
                    0 <= a < b < counts@.len() ==> (#[trigger] counts@[a]).0 != (
                    #[trigger] counts@[b]).0,
                forall|k: int|
                    0 <= k < counts@.len() ==> (#[trigger] counts@[k]).1 as nat == field_count(
                        dv,
                        counts@[k].0,
                    ) && counts@[k].1 > 0,
                forall|k2: int, q2: int|
                    0 <= k2 < i && 0 <= q2 < dv[k2].1.len() ==> fid_counted(
                        counts@,
                        (#[trigger] dv[k2].1[q2]).0,
                    ),
                forall|q2: int|
                    0 <= q2 < q ==> fid_counted(counts@, (#[trigger] dv[i as int].1[q2]).0),
            decreases rec@.len() - q,
        {
            proof {
                assert(dv[i as int].1[q as int] == (rec@[q as int].0, rec@[q as int].1@));
            }
            let f = rec[q].0;
            if !counts_member(&counts, f) {
                let c = count_field(dropped, f);
                proof {
                    lemma_record_field_present(dv[i as int].1, q as int);
                    assert(field_count(dv, f) > 0) by {
                        lemma_field_count_at(dv, i as int, f);
                    }
                    assert(field_count(dv, f) <= dv.len()) by {
                        lemma_field_count_bound(dv, f);
                    }
                }
                let ghost oldc = counts@;
                counts.push((f, c));
                proof {
                    assert forall|f2: u16| fid_counted(oldc, f2) implies fid_counted(
                        counts@,
                        f2,
                    ) by {
                        lemma_fid_counted_push(oldc, (f, c), f2);
                    }
                    assert(fid_counted(counts@, f)) by {
                        assert(counts@[counts@.len() - 1].0 == f);
                    }
                }
            } else {
            }
            proof {
                assert(fid_counted(counts@, dv[i as int].1[q as int].0));
            }
            q = q + 1;
        }
        i = i + 1;
    }
    proof {
        assert forall|f: u16| field_count(dv, f) > 0 implies exists|k: int|
            0 <= k < counts@.len() && (#[trigger] counts@[k]).0 == f by {
            assert(dv.len() == dropped@.len());
            lemma_field_count_witness(dv, f);
            let k2 = choose|k2: int|
                0 <= k2 < dv.len() && crate::record::record_field(#[trigger] dv[k2].1, f) is Some;
            lemma_record_field_entry(dv[k2].1, f);
            let q = choose|q: int| 0 <= q < dv[k2].1.len() && (#[trigger] dv[k2].1[q]).0 == f;
            assert(dv.len() == dropped@.len());
        }
    }
    counts
}

/// A document at position `k` carrying field `f` makes the count positive.
proof fn lemma_field_count_at(t: Seq<(u32, Seq<(u16, Seq<u8>)>)>, k: int, f: u16)
    requires
        0 <= k < t.len(),
        crate::record::record_field(t[k].1, f) is Some,
    ensures
        field_count(t, f) > 0,
    decreases k,
{
    if k > 0 {
        assert(t.drop_first()[k - 1] == t[k]);
        lemma_field_count_at(t.drop_first(), k - 1, f);
    }
}

/// The count never exceeds the number of documents.
proof fn lemma_field_count_bound(t: Seq<(u32, Seq<(u16, Seq<u8>)>)>, f: u16)
    ensures
        field_count(t, f) <= t.len(),
    decreases t.len(),
{
    if t.len() > 0 {
        lemma_field_count_bound(t.drop_first(), f);
    }
}

/// A positive count names a document that carries the field.
proof fn lemma_field_count_witness(t: Seq<(u32, Seq<(u16, Seq<u8>)>)>, f: u16)
    requires
        field_count(t, f) > 0,
    ensures
        exists|k: int|
            0 <= k < t.len() && crate::record::record_field(#[trigger] t[k].1, f) is Some,
    decreases t.len(),
{
    if crate::record::record_field(t[0].1, f) is Some {
        assert(crate::record::record_field(t[0].1, f) is Some);
    } else {
        lemma_field_count_witness(t.drop_first(), f);
        let k = choose|k: int|
            0 <= k < t.drop_first().len() && crate::record::record_field(
                #[trigger] t.drop_first()[k].1,
                f,
            ) is Some;
        assert(t[k + 1] == t.drop_first()[k]);
    }
}


/// Reads the external identifiers of the deleted documents from their
/// stored primary-key values.
fn extract_ids(dropped: &Vec<DocEntry>, pkf: FieldId) -> (r: Result<Vec<Vec<u8>>, IndexError>)
    ensures
        match r {
            Ok(ids) => ids.deep_view() == extracted_ids(docs_view(dropped@), pkf),
            Err(e) => (e is InvalidDocumentId || e is Serialization) && exists|k: int|
                0 <= k < docs_view(dropped@).len() && match crate::record::record_field(
                    (#[trigger] docs_view(dropped@)[k]).1,
                    pkf,
                ) {
                    Option::Some(b) => crate::index::json_scalar_id(b) is None,
                    Option::None => false,
                },
        },
{
    let ghost dv = docs_view(dropped@);
    let mut ids: Vec<Vec<u8>> = Vec::new();
    let mut i: usize = 0;
    proof {
        assert(dv.skip(0) =~= dv);
        assert(ids.deep_view() =~= Seq::<Seq<u8>>::empty());
        assert(ids.deep_view() + extracted_ids(dv, pkf) =~= extracted_ids(dv, pkf));
    }
    while i < dropped.len()
        invariant
            i <= dropped.len(),
            dv == docs_view(dropped@),
            extracted_ids(dv, pkf) == ids.deep_view() + extracted_ids(dv.skip(i as int), pkf),
        decreases dropped.len() - i,
    {
        proof {
            assert(dv.skip(i as int)[0] == dv[i as int]);
            assert(dv[i as int] == (dropped@[i as int].0, dropped@[i as int].1.deep_view()));
            assert(dv.skip(i as int).drop_first() =~= dv.skip(i + 1));
        }
        let ghost iv0 = ids.deep_view();
        match crate::record::record_get(&dropped[i].1, pkf) {
            Some(b) => {
                match crate::index::extract_external_id(&b) {
                    Ok(id) => {
                        proof {
                            crate::seqs::lemma_bytes_view(id);
                        }
                        ids.push(id);
                        proof {
                            assert(ids.deep_view() =~= iv0.push(ids@[ids@.len() - 1]@));
                            assert(iv0 + (seq![ids@[ids@.len() - 1]@] + extracted_ids(
                                dv.skip(i + 1),
                                pkf,
                            )) =~= ids.deep_view() + extracted_ids(dv.skip(i + 1), pkf));
                        }
                    },
                    Err(e) => {
                        proof {
                            assert(crate::record::record_field(dv[i as int].1, pkf) == Some(b@));
                        }
                        return Err(e);
                    },
                }
            },
            None => {},
        }
        i = i + 1;
    }
    proof {
        assert(dv.skip(dv.len() as int).len() == 0);
        assert(ids.deep_view() + extracted_ids(dv.skip(dv.len() as int), pkf) =~= ids.deep_view());
        assert(dv.len() == dropped@.len());
    }
    Ok(ids)
}

/// Drops the extracted identifiers from the external map.
fn filter_external(
    t: &Vec<(Vec<u8>, u32)>,
    ids_fst: &fst::Set<Vec<u8>>,
    ids: Ghost<Seq<Seq<u8>>>,
) -> (r: Vec<(Vec<u8>, u32)>)
    requires
        forall|e: Seq<u8>|
            #[trigger] crate::wordset::fst_seq(*ids_fst).contains(e) <==> ids@.contains(e),
    ensures
        crate::index::ext_view(r@) == kept_ext(crate::index::ext_view(t@), ids@),
{
    let ghost tv = crate::index::ext_view(t@);
    let mut out: Vec<(Vec<u8>, u32)> = Vec::new();
    let mut i: usize = 0;
    proof {
        assert(tv.skip(0) =~= tv);
        assert(crate::index::ext_view(out@) =~= Seq::<(Seq<u8>, u32)>::empty());
        assert(crate::index::ext_view(out@) + kept_ext(tv, ids@) =~= kept_ext(tv, ids@));
    }
    while i < t.len()
        invariant
            i <= t.len(),
            tv == crate::index::ext_view(t@),
            forall|e: Seq<u8>|
                #[trigger] crate::wordset::fst_seq(*ids_fst).contains(e) <==> ids@.contains(e),
            kept_ext(tv, ids@) == crate::index::ext_view(out@) + kept_ext(
                tv.skip(i as int),
                ids@,
            ),
        decreases t.len() - i,
    {
        proof {
            assert(tv.skip(i as int)[0] == tv[i as int]);
            assert(tv[i as int] == (t@[i as int].0.deep_view(), t@[i as int].1));
            lemma_bytes_view(t@[i as int].0);
            assert(tv.skip(i as int).drop_first() =~= tv.skip(i + 1));
        }
        let ghost ov0 = crate::index::ext_view(out@);
        if !crate::wordset::fst_contains(ids_fst, &t[i].0) {
            let key = clone_bytes(&t[i].0);
            proof {
                lemma_bytes_view(key);
            }
            out.push((key, t[i].1));
            proof {
                assert(crate::index::ext_view(out@) =~= ov0.push(tv[i as int]));
                assert(ov0 + (seq![tv[i as int]] + kept_ext(tv.skip(i + 1), ids@))
                    =~= crate::index::ext_view(out@) + kept_ext(tv.skip(i + 1), ids@));
            }
        }
        i = i + 1;
    }
    proof {
        assert(tv.skip(tv.len() as int).len() == 0);
        assert(crate::index::ext_view(out@) + kept_ext(tv.skip(tv.len() as int), ids@)
            =~= crate::index::ext_view(out@));
        assert(tv.len() == t@.len());
    }
    out
}

/// Applies one per-field decrement to the distribution.
fn apply_one_count(dist: &Vec<(String, u64)>, name: &String, cnt: u64) -> (r: Vec<(String, u64)>)
    ensures
        crate::index::dist_view(r@) == sub_entry(crate::index::dist_view(dist@), name@, cnt),
{
    let ghost tv = crate::index::dist_view(dist@);
    let mut out: Vec<(String, u64)> = Vec::new();
    let mut i: usize = 0;
    let mut done = false;
    proof {
        assert(tv.skip(0) =~= tv);
        assert(crate::index::dist_view(out@) =~= Seq::<(Seq<char>, u64)>::empty());
        assert(crate::index::dist_view(out@) + sub_entry(tv, name@, cnt) =~= sub_entry(
            tv,
            name@,
            cnt,
        ));
    }
    while i < dist.len()
        invariant
            i <= dist.len(),
            tv == crate::index::dist_view(dist@),
            !done ==> sub_entry(tv, name@, cnt) == crate::index::dist_view(out@) + sub_entry(
                tv.skip(i as int),
                name@,
                cnt,
            ),
            done ==> sub_entry(tv, name@, cnt) == crate::index::dist_view(out@) + tv.skip(
                i as int,
            ),
        decreases dist.len() - i,
    {
        proof {
            assert(tv.skip(i as int)[0] == tv[i as int]);
            assert(tv[i as int] == (dist@[i as int].0@, dist@[i as int].1));
            assert(tv.skip(i as int).drop_first() =~= tv.skip(i + 1));
        }
        let ghost ov0 = crate::index::dist_view(out@);
        let entry_name = dist[i].0.clone();
        assert(entry_name@ == dist@[i as int].0@);
        let c = dist[i].1;
        let same = entry_name == *name;
        if !done && same {
            done = true;
            if c > cnt {
                out.push((entry_name, c - cnt));
                proof {
                    assert(crate::index::dist_view(out@) =~= ov0.push((name@, (c - cnt) as u64)));
                    assert(ov0 + (seq![(name@, (c - cnt) as u64)] + tv.skip(i + 1))
                        =~= crate::index::dist_view(out@) + tv.skip(i + 1));
                }
            } else {
                proof {
                    assert(ov0 + tv.skip(i + 1) =~= crate::index::dist_view(out@) + tv.skip(i + 1));
                }
            }
        } else {
            out.push((entry_name, c));
            proof {
                assert(crate::index::dist_view(out@) =~= ov0.push(tv[i as int]));
                if done {
                    assert(ov0 + (seq![tv[i as int]] + tv.skip(i + 1)) =~= crate::index::dist_view(
                        out@,
                    ) + tv.skip(i + 1));
                } else {
                    assert(ov0 + (seq![tv[i as int]] + sub_entry(tv.skip(i + 1), name@, cnt))
                        =~= crate::index::dist_view(out@) + sub_entry(tv.skip(i + 1), name@, cnt));
                }
            }
        }
        i = i + 1;
    }
    proof {
        assert(tv.skip(tv.len() as int).len() == 0);
        assert(crate::index::dist_view(out@) + tv.skip(tv.len() as int) =~= crate::index::dist_view(
            out@,
        ));
        assert(crate::index::dist_view(out@) + sub_entry(
            tv.skip(tv.len() as int),
            name@,
            cnt,
        ) =~= crate::index::dist_view(out@));
        assert(tv.len() == dist@.len());
    }
    out
}

/// Applies every per-field decrement, looking each field's name up in
/// the dictionary.
fn apply_all_counts(
    dist: &Vec<(String, u64)>,
    m: &crate::fields::FieldsIds,
    counts: &Vec<(u16, u64)>,
) -> (r: Result<Vec<(String, u64)>, IndexError>)
    ensures
        match r {
            Ok(nd) => crate::index::dist_view(nd@) == apply_counts(
                crate::index::dist_view(dist@),
                crate::fields::fields_map(*m),
                counts@,
            ) && (forall|k: int|
                0 <= k < counts@.len() ==> crate::fields::fields_map(*m).dom().contains(
                    (#[trigger] counts@[k]).0,
                )),
            Err(e) => e is DatabaseMissingEntry && exists|k: int|
                0 <= k < counts@.len() && !crate::fields::fields_map(*m).dom().contains(
                    (#[trigger] counts@[k]).0,
                ),
        },
{
    let ghost mv = crate::fields::fields_map(*m);
    let ghost cv = counts@;
    let mut cur: Vec<(String, u64)> = clone_dist(dist);
    let mut i: usize = 0;
    proof {
        assert(cv.skip(0) =~= cv);
    }
    while i < counts.len()
        invariant
            i <= counts.len(),
            cv == counts@,
            mv == crate::fields::fields_map(*m),
            apply_counts(crate::index::dist_view(dist@), mv, cv) == apply_counts(
                crate::index::dist_view(cur@),
                mv,
                cv.skip(i as int),
            ),
            forall|k: int| 0 <= k < i ==> mv.dom().contains((#[trigger] cv[k]).0),
        decreases counts.len() - i,
    {
        proof {
            assert(cv.skip(i as int)[0] == cv[i as int]);
            assert(cv.skip(i as int).drop_first() =~= cv.skip(i + 1));
        }
        let f = counts[i].0;
        let cnt = counts[i].1;
        let name = match crate::fields::bm_get_by_left(m, f) {
            Some(nm) => nm,
            None => {
                proof {
                    assert(!mv.dom().contains(cv[i as int].0));
                }
                return Err(IndexError::DatabaseMissingEntry);
            },
        };
        let next = apply_one_count(&cur, &name, cnt);
        cur = next;
        i = i + 1;
    }
    proof {
        assert(cv.skip(cv.len() as int).len() == 0);
        assert(cv.len() == counts@.len());
    }
    Ok(cur)
}

/// Copies the field distribution.
fn clone_dist(dist: &Vec<(String, u64)>) -> (r: Vec<(String, u64)>)
    ensures
        crate::index::dist_view(r@) == crate::index::dist_view(dist@),
        r@.len() == dist@.len(),
{
    let mut out: Vec<(String, u64)> = Vec::new();
    let mut i: usize = 0;
    while i < dist.len()
        invariant
            i <= dist.len(),
            out@.len() == i,
            forall|k: int|
                0 <= k < i ==> (#[trigger] out@[k]).0@ == dist@[k].0@ && out@[k].1 == dist@[k].1,
        decreases dist.len() - i,
    {
        let nm = dist[i].0.clone();
        assert(nm@ == dist@[i as int].0@);
        out.push((nm, dist[i].1));
        i = i + 1;
    }
    proof {
        assert forall|k: int| 0 <= k < out@.len() implies crate::index::dist_view(out@)[k]
            == crate::index::dist_view(dist@)[k] by {
            assert(crate::index::dist_view(out@)[k] == (out@[k].0@, out@[k].1));
            assert(crate::index::dist_view(dist@)[k] == (dist@[k].0@, dist@[k].1));
        }
        assert(crate::index::dist_view(out@) =~= crate::index::dist_view(dist@));
    }
    out
}

/// Copies the external identifier map.
fn clone_ext(t: &Vec<(Vec<u8>, u32)>) -> (r: Vec<(Vec<u8>, u32)>)
    ensures
        crate::index::ext_view(r@) == crate::index::ext_view(t@),
{
    let mut out: Vec<(Vec<u8>, u32)> = Vec::new();
    let mut i: usize = 0;
    while i < t.len()
        invariant
            i <= t.len(),
            out@.len() == i,
            forall|k: int|
                0 <= k < i ==> (#[trigger] out@[k]).0@ == t@[k].0@ && out@[k].1 == t@[k].1,
        decreases t.len() - i,
    {
        let key = clone_bytes(&t[i].0);
        out.push((key, t[i].1));
        i = i + 1;
    }
    proof {
        assert forall|k: int| 0 <= k < out@.len() implies crate::index::ext_view(out@)[k]
            == crate::index::ext_view(t@)[k] by {
            assert(crate::index::ext_view(out@)[k] == (out@[k].0.deep_view(), out@[k].1));
            assert(crate::index::ext_view(t@)[k] == (t@[k].0.deep_view(), t@[k].1));
            lemma_bytes_view(out@[k].0);
            lemma_bytes_view(t@[k].0);
        }
        assert(crate::index::ext_view(out@) =~= crate::index::ext_view(t@));
    }
    out
}




/// The counter a distribution holds for a name: the first entry's.
pub open spec fn dist_lookup(t: Seq<(Seq<char>, u64)>, name: Seq<char>) -> Option<u64>
    decreases t.len(),
{
    if t.len() == 0 {
        None
    } else if t[0].0 == name {
        Some(t[0].1)
    } else {
        dist_lookup(t.drop_first(), name)
    }
}

/// The tally a counts list holds for a field: the first entry's.
pub open spec fn counts_lookup(counts: Seq<(u16, u64)>, f: u16) -> Option<u64>
    decreases counts.len(),
{
    if counts.len() == 0 {
        None
    } else if counts[0].0 == f {
        Some(counts[0].1)
    } else {
        counts_lookup(counts.drop_first(), f)
    }
}

/// Whether some entry bears this name.
pub open spec fn has_name(t: Seq<(Seq<char>, u64)>, nm: Seq<char>) -> bool {
    exists|a: int| 0 <= a < t.len() && (#[trigger] t[a]).0 == nm
}

/// Names stay pairwise distinct across one decrement.
proof fn lemma_sub_entry_unique(t: Seq<(Seq<char>, u64)>, name: Seq<char>, cnt: u64)
    requires
        forall|a: int, b: int| 0 <= a < b < t.len() ==> (#[trigger] t[a]).0 != (#[trigger] t[b]).0,
    ensures
        forall|a: int, b: int|
            0 <= a < b < sub_entry(t, name, cnt).len() ==> (#[trigger] sub_entry(t, name, cnt)[a]).0
                != (#[trigger] sub_entry(t, name, cnt)[b]).0,
        forall|nm: Seq<char>|
            #[trigger] has_name(sub_entry(t, name, cnt), nm) ==> has_name(t, nm),
    decreases t.len(),
{
    if t.len() == 0 {
    } else {
        assert(forall|a: int, b: int|
            0 <= a < b < t.drop_first().len() ==> (#[trigger] t.drop_first()[a]).0 != (
            #[trigger] t.drop_first()[b]).0) by {
            assert forall|a: int, b: int|
                0 <= a < b < t.drop_first().len() implies (#[trigger] t.drop_first()[a]).0 != (
            #[trigger] t.drop_first()[b]).0 by {
                assert(t.drop_first()[a] == t[a + 1]);
                assert(t.drop_first()[b] == t[b + 1]);
            }
        }
        lemma_sub_entry_unique(t.drop_first(), name, cnt);
        let s = sub_entry(t, name, cnt);
        let rest = sub_entry(t.drop_first(), name, cnt);
        if t[0].0 == name {
        } else {
            assert forall|a: int, b: int| 0 <= a < b < s.len() implies (#[trigger] s[a]).0 != (
            #[trigger] s[b]).0 by {
                if a == 0 {
                    assert(s[b] == rest[b - 1]);
                    assert(has_name(rest, s[b].0)) by {
                        assert(rest[b - 1].0 == s[b].0);
                    }
                    assert(has_name(t.drop_first(), s[b].0));
                    let q = choose|q: int|
                        0 <= q < t.drop_first().len() && (#[trigger] t.drop_first()[q]).0 == s[b].0;
                    assert(t[q + 1].0 == s[b].0);
                    assert(t[0].0 != t[q + 1].0);
                } else {
                    assert(s[a] == rest[a - 1]);
                    assert(s[b] == rest[b - 1]);
                }
            }
            assert forall|nm: Seq<char>| #[trigger] has_name(s, nm) implies has_name(t, nm) by {
                let a = choose|a: int| 0 <= a < s.len() && (#[trigger] s[a]).0 == nm;
                if a == 0 {
                    assert(t[0].0 == nm);
                } else {
                    assert(rest[a - 1].0 == nm);
                    assert(has_name(rest, nm));
                    assert(has_name(t.drop_first(), nm));
                    let q = choose|q: int|
                        0 <= q < t.drop_first().len() && (#[trigger] t.drop_first()[q]).0 == nm;
                    assert(t[q + 1].0 == nm);
                }
            }
        }
    }
}

/// One decrement, seen through lookups: the named counter drops or
/// leaves, every other stays.
proof fn lemma_sub_entry_lookup(
    t: Seq<(Seq<char>, u64)>,
    name: Seq<char>,
    cnt: u64,
    nm: Seq<char>,
)
    requires
        forall|a: int, b: int| 0 <= a < b < t.len() ==> (#[trigger] t[a]).0 != (#[trigger] t[b]).0,
    ensures
        dist_lookup(sub_entry(t, name, cnt), nm) == (if nm == name {
            match dist_lookup(t, name) {
                Option::Some(c) => if c > cnt {
                    Option::Some((c - cnt) as u64)
                } else {
                    Option::None
                },
                Option::None => Option::None::<u64>,
            }
        } else {
            dist_lookup(t, nm)
        }),
    decreases t.len(),
{
    if t.len() == 0 {
    } else {
        assert(forall|a: int, b: int|
            0 <= a < b < t.drop_first().len() ==> (#[trigger] t.drop_first()[a]).0 != (
            #[trigger] t.drop_first()[b]).0) by {
            assert forall|a: int, b: int|
                0 <= a < b < t.drop_first().len() implies (#[trigger] t.drop_first()[a]).0 != (
            #[trigger] t.drop_first()[b]).0 by {
                assert(t.drop_first()[a] == t[a + 1]);
                assert(t.drop_first()[b] == t[b + 1]);
            }
        }
        lemma_sub_entry_lookup(t.drop_first(), name, cnt, nm);
        let s = sub_entry(t, name, cnt);
        if t[0].0 == name {
            if t[0].1 > cnt {
                assert(s[0] == (name, (t[0].1 - cnt) as u64));
                assert(s.drop_first() =~= t.drop_first());
                if nm != name {
                    assert(dist_lookup(s, nm) == dist_lookup(t.drop_first(), nm));
                }
            } else {
                // the entry leaves; with unique names the rest holds no other
                if nm == name {
                    lemma_lookup_absent(t.drop_first(), name);
                    assert forall|a: int| 0 <= a < t.drop_first().len() implies (
                    #[trigger] t.drop_first()[a]).0 != name by {
                        assert(t.drop_first()[a] == t[a + 1]);
                    }
                    assert(dist_lookup(t.drop_first(), name) is None);
                }
            }
        } else {
            assert(s[0] == t[0]);
            assert(s.drop_first() =~= sub_entry(t.drop_first(), name, cnt));
        }
    }
}

/// A name no entry bears looks up to nothing.
proof fn lemma_lookup_absent(t: Seq<(Seq<char>, u64)>, name: Seq<char>)
    ensures
        (forall|a: int| 0 <= a < t.len() ==> (#[trigger] t[a]).0 != name) ==> dist_lookup(
            t,
            name,
        ) is None,
    decreases t.len(),
{
    if t.len() == 0 {
    } else {
        lemma_lookup_absent(t.drop_first(), name);
        if forall|a: int| 0 <= a < t.len() ==> (#[trigger] t[a]).0 != name {
            assert(t[0].0 != name);
            assert forall|a: int| 0 <= a < t.drop_first().len() implies (
            #[trigger] t.drop_first()[a]).0 != name by {
                assert(t.drop_first()[a] == t[a + 1]);
            }
        }
    }
}

/// The whole fold of decrements, seen through lookups: each field's
/// counter drops by its tally, once.
proof fn lemma_apply_counts_lookup(
    t: Seq<(Seq<char>, u64)>,
    m: Map<crate::FieldId, Seq<char>>,
    counts: Seq<(u16, u64)>,
    f: u16,
)
    requires
        forall|a: int, b: int| 0 <= a < b < t.len() ==> (#[trigger] t[a]).0 != (#[trigger] t[b]).0,
        crate::fields::fields_injective(m),
        m.dom().contains(f),
        forall|k: int| 0 <= k < counts.len() ==> m.dom().contains((#[trigger] counts[k]).0),
        forall|a: int, b: int|
            0 <= a < b < counts.len() ==> (#[trigger] counts[a]).0 != (#[trigger] counts[b]).0,
    ensures
        dist_lookup(apply_counts(t, m, counts), m[f]) == (match counts_lookup(counts, f) {
            Option::None => dist_lookup(t, m[f]),
            Option::Some(c) => match dist_lookup(t, m[f]) {
                Option::Some(b) => if b > c {
                    Option::Some((b - c) as u64)
                } else {
                    Option::None
                },
                Option::None => Option::None::<u64>,
            },
        }),
    decreases counts.len(),
{
    if counts.len() == 0 {
    } else {
        let f0 = counts[0].0;
        let c0 = counts[0].1;
        let t2 = sub_entry(t, m[f0], c0);
        lemma_sub_entry_unique(t, m[f0], c0);
        assert(forall|a: int, b: int|
            0 <= a < b < counts.drop_first().len() ==> (#[trigger] counts.drop_first()[a]).0 != (
            #[trigger] counts.drop_first()[b]).0) by {
            assert forall|a: int, b: int|
                0 <= a < b < counts.drop_first().len() implies (
            #[trigger] counts.drop_first()[a]).0 != (#[trigger] counts.drop_first()[b]).0 by {
                assert(counts.drop_first()[a] == counts[a + 1]);
                assert(counts.drop_first()[b] == counts[b + 1]);
            }
        }
        assert(forall|k: int|
            0 <= k < counts.drop_first().len() ==> m.dom().contains(
                (#[trigger] counts.drop_first()[k]).0,
            )) by {
            assert forall|k: int| 0 <= k < counts.drop_first().len() implies m.dom().contains(
                (#[trigger] counts.drop_first()[k]).0,
            ) by {
                assert(counts.drop_first()[k] == counts[k + 1]);
            }
        }
        lemma_apply_counts_lookup(t2, m, counts.drop_first(), f);
        lemma_sub_entry_lookup(t, m[f0], c0, m[f]);
        if f == f0 {
            // no later tally names this field again
            assert(counts_lookup(counts.drop_first(), f) is None) by {
                lemma_counts_absent(counts.drop_first(), f);
                assert forall|a: int| 0 <= a < counts.drop_first().len() implies (
                #[trigger] counts.drop_first()[a]).0 != f by {
                    assert(counts.drop_first()[a] == counts[a + 1]);
                }
            }
        } else {
            assert(m[f] != m[f0]);
            assert(counts_lookup(counts, f) == counts_lookup(counts.drop_first(), f));
        }
    }
}

/// A field no tally names looks up to nothing.
proof fn lemma_counts_absent(counts: Seq<(u16, u64)>, f: u16)
    ensures
        (forall|a: int| 0 <= a < counts.len() ==> (#[trigger] counts[a]).0 != f)
            ==> counts_lookup(counts, f) is None,
    decreases counts.len(),
{
    if counts.len() == 0 {
    } else {
        lemma_counts_absent(counts.drop_first(), f);
        if forall|a: int| 0 <= a < counts.len() ==> (#[trigger] counts[a]).0 != f {
            assert forall|a: int| 0 <= a < counts.drop_first().len() implies (
            #[trigger] counts.drop_first()[a]).0 != f by {
                assert(counts.drop_first()[a] == counts[a + 1]);
            }
        }
    }
}

/// Splitting the documents splits the count.
proof fn lemma_field_count_split(t: Seq<(u32, Seq<(u16, Seq<u8>)>)>, del: Seq<u32>, f: u16)
    ensures
        field_count(t, f) == field_count(kept_docs(t, del), f) + field_count(
            dropped_docs(t, del),
            f,
        ),
    decreases t.len(),
{
    if t.len() == 0 {
    } else {
        lemma_field_count_split(t.drop_first(), del, f);
        let kd = kept_docs(t.drop_first(), del);
        let dd = dropped_docs(t.drop_first(), del);
        if del.contains(t[0].0) {
            assert(dropped_docs(t, del)[0] == t[0]);
            assert(dropped_docs(t, del).drop_first() =~= dd);
        } else {
            assert(kept_docs(t, del)[0] == t[0]);
            assert(kept_docs(t, del).drop_first() =~= kd);
        }
    }
}

/// A tallied field's tally is its dropped count, and every field with a
/// positive dropped count is tallied.
proof fn lemma_counts_lookup_ok(
    counts: Seq<(u16, u64)>,
    dropped: Seq<(u32, Seq<(u16, Seq<u8>)>)>,
    f: u16,
)
    requires
        counts_ok(counts, dropped),
    ensures
        match counts_lookup(counts, f) {
            Option::Some(c) => c as nat == field_count(dropped, f) && c > 0,
            Option::None => field_count(dropped, f) == 0,
        },
{
    lemma_counts_lookup_index(counts, f);
    match counts_lookup(counts, f) {
        Option::Some(c) => {
            let a = choose|a: int| 0 <= a < counts.len() && #[trigger] counts[a] == (f, c);
            assert(counts[a].1 as nat == field_count(dropped, f));
        },
        Option::None => {
            if field_count(dropped, f) > 0 {
                let k = choose|k: int|
                    0 <= k < counts.len() && (#[trigger] counts[k]).0 == f;
                assert(false);
            }
        },
    }
}

/// A lookup hit names an entry; a miss means no entry has the field.
proof fn lemma_counts_lookup_index(counts: Seq<(u16, u64)>, f: u16)
    ensures
        match counts_lookup(counts, f) {
            Option::Some(c) => exists|a: int|
                0 <= a < counts.len() && #[trigger] counts[a] == (f, c),
            Option::None => forall|a: int|
                0 <= a < counts.len() ==> (#[trigger] counts[a]).0 != f,
        },
    decreases counts.len(),
{
    if counts.len() == 0 {
    } else {
        lemma_counts_lookup_index(counts.drop_first(), f);
        if counts[0].0 == f {
            assert(counts[0] == (f, counts[0].1));
        } else {
            match counts_lookup(counts.drop_first(), f) {
                Option::Some(c) => {
                    let a = choose|a: int|
                        0 <= a < counts.drop_first().len() && #[trigger] counts.drop_first()[a]
                            == (f, c);
                    assert(counts[a + 1] == (f, c));
                },
                Option::None => {
                    assert forall|a: int| 0 <= a < counts.len() implies (#[trigger] counts[a]).0
                        != f by {
                        if a > 0 {
                            assert(counts.drop_first()[a - 1] == counts[a]);
                        }
                    }
                },
            }
        }
    }
}

/// After a delete, the distribution counter of every field equals the
/// number of retained documents carrying it, and a field no retained
/// document carries has no counter.
pub proof fn lemma_distribution_exact(
    t: Seq<(Seq<char>, u64)>,
    m: Map<crate::FieldId, Seq<char>>,
    counts: Seq<(u16, u64)>,
    docs: Seq<(u32, Seq<(u16, Seq<u8>)>)>,
    del: Seq<u32>,
    f: u16,
)
    requires
        forall|a: int, b: int| 0 <= a < b < t.len() ==> (#[trigger] t[a]).0 != (#[trigger] t[b]).0,
        crate::fields::fields_injective(m),
        m.dom().contains(f),
        counts_ok(counts, dropped_docs(docs, del)),
        forall|k: int| 0 <= k < counts.len() ==> m.dom().contains((#[trigger] counts[k]).0),
        dist_lookup(t, m[f]) == (if field_count(docs, f) >= 1 {
            Option::Some(field_count(docs, f) as u64)
        } else {
            Option::None::<u64>
        }),
        field_count(docs, f) < 0x10000000000000000,
    ensures
        dist_lookup(apply_counts(t, m, counts), m[f]) == (if field_count(kept_docs(docs, del), f)
            >= 1 {
            Option::Some(field_count(kept_docs(docs, del), f) as u64)
        } else {
            Option::None::<u64>
        }),
{
    lemma_apply_counts_lookup(t, m, counts, f);
    lemma_counts_lookup_ok(counts, dropped_docs(docs, del), f);
    lemma_field_count_split(docs, del, f);
}

/// Whether the positions table has a row for this document and word.
pub open spec fn has_position(pos: Seq<((u32, Seq<u8>), Seq<u32>)>, d: u32, w: Seq<u8>) -> bool {
    exists|j: int| 0 <= j < pos.len() && (#[trigger] pos[j]).0 == (d, w)
}

/// Whether `p` starts `w`.
pub open spec fn is_prefix(p: Seq<u8>, w: Seq<u8>) -> bool {
    p.len() <= w.len() && w.subrange(0, p.len() as int) == p
}

/// Whether the positions table holds, for this document, some word the
/// prefix starts.
pub open spec fn has_prefixed_position(
    pos: Seq<((u32, Seq<u8>), Seq<u32>)>,
    d: u32,
    p: Seq<u8>,
) -> bool {
    exists|j: int|
        0 <= j < pos.len() && (#[trigger] pos[j]).0.0 == d && is_prefix(p, pos[j].0.1)
}

/// No row of a deleted document survives the positions sweep.
pub proof fn lemma_no_deleted_positions(t: Seq<((u32, Seq<u8>), Seq<u32>)>, del: Seq<u32>)
    ensures
        forall|k: int|
            0 <= k < kept_positions(t, del).len() ==> !del.contains(
                (#[trigger] kept_positions(t, del)[k]).0.0,
            ),
    decreases t.len(),
{
    if t.len() == 0 {
    } else {
        lemma_no_deleted_positions(t.drop_first(), del);
        let rest = kept_positions(t.drop_first(), del);
        assert forall|k: int| 0 <= k < kept_positions(t, del).len() implies !del.contains(
            (#[trigger] kept_positions(t, del)[k]).0.0,
        ) by {
            if !del.contains(t[0].0.0) {
                if k > 0 {
                    assert(kept_positions(t, del)[k] == rest[k - 1]);
                }
            } else {
                assert(kept_positions(t, del)[k] == rest[k]);
            }
        }
    }
}

/// A row whose document is not deleted survives the sweep.
proof fn lemma_kept_keeps(t: Seq<((u32, Seq<u8>), Seq<u32>)>, del: Seq<u32>, j: int)
    requires
        0 <= j < t.len(),
        !del.contains(t[j].0.0),
    ensures
        kept_positions(t, del).contains(t[j]),
    decreases j,
{
    if j == 0 {
        assert(kept_positions(t, del)[0] == t[0]);
    } else {
        assert(t.drop_first()[j - 1] == t[j]);
        lemma_kept_keeps(t.drop_first(), del, j - 1);
        let rest = kept_positions(t.drop_first(), del);
        let k = choose|k: int| 0 <= k < rest.len() && rest[k] == t[j];
        if del.contains(t[0].0.0) {
            assert(kept_positions(t, del)[k] == t[j]);
        } else {
            assert(kept_positions(t, del)[k + 1] == t[j]);
        }
    }
}

/// Every deleted document's words are collected by the sweep.
proof fn lemma_touched_complete(t: Seq<((u32, Seq<u8>), Seq<u32>)>, del: Seq<u32>, j: int)
    requires
        0 <= j < t.len(),
        del.contains(t[j].0.0),
    ensures
        touched_words(t, del).contains(t[j].0.1),
    decreases j,
{
    if j == 0 {
        assert(touched_words(t, del)[0] == t[0].0.1);
    } else {
        assert(t.drop_first()[j - 1] == t[j]);
        lemma_touched_complete(t.drop_first(), del, j - 1);
        let rest = touched_words(t.drop_first(), del);
        let k = choose|k: int| 0 <= k < rest.len() && rest[k] == t[j].0.1;
        if del.contains(t[0].0.0) {
            assert(touched_words(t, del)[k + 1] == t[j].0.1);
        } else {
            assert(touched_words(t, del)[k] == t[j].0.1);
        }
    }
}

/// A word only leaves the words set if it stands in the table.
proof fn lemma_removed_member_is_key(
    t: Seq<(Seq<u8>, Seq<u32>)>,
    touched: Seq<Seq<u8>>,
    del: Seq<u32>,
    x: Seq<u8>,
)
    requires
        removed_touched(t, touched, del).contains(x),
    ensures
        exists|j: int| 0 <= j < t.len() && (#[trigger] t[j]).0 == x,
    decreases t.len(),
{
    if t.len() == 0 {
    } else {
        let rest = removed_touched(t.drop_first(), touched, del);
        if touched.contains(t[0].0) && diff_posting(t[0].1, del).len() == 0 {
            if x == t[0].0 {
                assert(t[0].0 == x);
            } else {
                let k = choose|k: int|
                    0 <= k < removed_touched(t, touched, del).len() && removed_touched(
                        t,
                        touched,
                        del,
                    )[k] == x;
                assert(rest[k - 1] == x);
                assert(rest.contains(x));
                lemma_removed_member_is_key(t.drop_first(), touched, del, x);
                let j = choose|j: int|
                    0 <= j < t.drop_first().len() && (#[trigger] t.drop_first()[j]).0 == x;
                assert(t[j + 1].0 == x);
            }
        } else {
            assert(rest.contains(x)) by {
                let k = choose|k: int|
                    0 <= k < removed_touched(t, touched, del).len() && removed_touched(
                        t,
                        touched,
                        del,
                    )[k] == x;
                assert(rest[k] == x);
            }
            lemma_removed_member_is_key(t.drop_first(), touched, del, x);
            let j = choose|j: int|
                0 <= j < t.drop_first().len() && (#[trigger] t.drop_first()[j]).0 == x;
            assert(t[j + 1].0 == x);
        }
    }
}

/// With unique keys, a word leaves the words set exactly when it was
/// touched and its posting emptied.
proof fn lemma_removed_at(
    t: Seq<(Seq<u8>, Seq<u32>)>,
    touched: Seq<Seq<u8>>,
    del: Seq<u32>,
    k: int,
)
    requires
        forall|a: int, b: int| 0 <= a < b < t.len() ==> (#[trigger] t[a]).0 != (#[trigger] t[b]).0,
        0 <= k < t.len(),
    ensures
        removed_touched(t, touched, del).contains(t[k].0) <==> (touched.contains(t[k].0)
            && diff_posting(t[k].1, del).len() == 0),
    decreases k,
{
    let rest = removed_touched(t.drop_first(), touched, del);
    if k == 0 {
        if touched.contains(t[0].0) && diff_posting(t[0].1, del).len() == 0 {
            assert(removed_touched(t, touched, del)[0] == t[0].0);
        } else {
            if removed_touched(t, touched, del).contains(t[0].0) {
                assert(rest.contains(t[0].0));
                lemma_removed_member_is_key(t.drop_first(), touched, del, t[0].0);
                let j = choose|j: int|
                    0 <= j < t.drop_first().len() && (#[trigger] t.drop_first()[j]).0 == t[0].0;
                assert(t[j + 1].0 == t[0].0);
                assert(false);
            }
        }
    } else {
        assert(t.drop_first()[k - 1] == t[k]);
        assert(forall|a: int, b: int|
            0 <= a < b < t.drop_first().len() ==> (#[trigger] t.drop_first()[a]).0 != (
            #[trigger] t.drop_first()[b]).0) by {
            assert forall|a: int, b: int|
                0 <= a < b < t.drop_first().len() implies (#[trigger] t.drop_first()[a]).0 != (
            #[trigger] t.drop_first()[b]).0 by {
                assert(t.drop_first()[a] == t[a + 1]);
                assert(t.drop_first()[b] == t[b + 1]);
            }
        }
        lemma_removed_at(t.drop_first(), touched, del, k - 1);
        if touched.contains(t[0].0) && diff_posting(t[0].1, del).len() == 0 {
            assert forall|x: Seq<u8>| removed_touched(t, touched, del).contains(x) <==> (x
                == t[0].0 || rest.contains(x)) by {
                if removed_touched(t, touched, del).contains(x) {
                    let q = choose|q: int|
                        0 <= q < removed_touched(t, touched, del).len() && removed_touched(
                            t,
                            touched,
                            del,
                        )[q] == x;
                    if q > 0 {
                        assert(rest[q - 1] == x);
                    }
                }
                if rest.contains(x) {
                    let q = choose|q: int| 0 <= q < rest.len() && rest[q] == x;
                    assert(removed_touched(t, touched, del)[q + 1] == x);
                }
                if x == t[0].0 {
                    assert(removed_touched(t, touched, del)[0] == x);
                }
            }
            assert(t[k].0 != t[0].0);
        } else {
            assert(removed_touched(t, touched, del) == rest);
        }
    }
}

/// After a delete, every word still in the words set has its word in
/// the positions of at least one retained document: a retained word is
/// never orphaned.
pub proof fn lemma_retained_words_are_live(
    wd: Seq<(Seq<u8>, Seq<u32>)>,
    pos: Seq<((u32, Seq<u8>), Seq<u32>)>,
    live: Seq<u32>,
    del: Seq<u32>,
    w: Seq<u8>,
)
    requires
        forall|a: int, b: int|
            0 <= a < b < wd.len() ==> (#[trigger] wd[a]).0 != (#[trigger] wd[b]).0,
        forall|k: int, d: u32|
            0 <= k < wd.len() ==> ((#[trigger] wd[k].1.contains(d)) <==> (live.contains(d)
                && has_position(pos, d, wd[k].0))),
        forall|k: int| 0 <= k < wd.len() ==> (#[trigger] wd[k]).1.len() > 0,
        exists|k: int| 0 <= k < wd.len() && (#[trigger] wd[k]).0 == w,
        !removed_touched(wd, touched_words(pos, del), del).contains(w),
    ensures
        exists|d: u32|
            #[trigger] diff_posting(live, del).contains(d) && has_position(
                kept_positions(pos, del),
                d,
                w,
            ),
{
    let touched = touched_words(pos, del);
    let k = choose|k: int| 0 <= k < wd.len() && (#[trigger] wd[k]).0 == w;
    lemma_removed_at(wd, touched, del, k);
    lemma_diff_members(live, del);
    if touched.contains(w) {
        assert(diff_posting(wd[k].1, del).len() > 0);
        let p = diff_posting(wd[k].1, del);
        let d0 = p[0];
        assert(p.contains(d0));
        lemma_diff_members(wd[k].1, del);
        assert(wd[k].1.contains(d0) && !del.contains(d0));
        assert(live.contains(d0) && has_position(pos, d0, w));
        let j = choose|j: int| 0 <= j < pos.len() && (#[trigger] pos[j]).0 == (d0, w);
        lemma_kept_keeps(pos, del, j);
        let q = choose|q: int|
            0 <= q < kept_positions(pos, del).len() && kept_positions(pos, del)[q] == pos[j];
        assert(kept_positions(pos, del)[q].0 == (d0, w));
        assert(diff_posting(live, del).contains(d0));
        assert(has_position(kept_positions(pos, del), d0, w));
    } else {
        let d0 = wd[k].1[0];
        assert(wd[k].1.contains(d0));
        assert(live.contains(d0) && has_position(pos, d0, w));
        let j = choose|j: int| 0 <= j < pos.len() && (#[trigger] pos[j]).0 == (d0, w);
        if del.contains(d0) {
            lemma_touched_complete(pos, del, j);
            assert(touched.contains(w));
            assert(false);
        }
        lemma_kept_keeps(pos, del, j);
        let q = choose|q: int|
            0 <= q < kept_positions(pos, del).len() && kept_positions(pos, del)[q] == pos[j];
        assert(kept_positions(pos, del)[q].0 == (d0, w));
        assert(diff_posting(live, del).contains(d0));
        assert(has_position(kept_positions(pos, del), d0, w));
    }
}

/// After a delete, every prefix whose posting survived the prune starts
/// a word that is itself retained and carried by a retained document.
pub proof fn lemma_retained_prefixes_have_words(
    pd: Seq<(Seq<u8>, Seq<u32>)>,
    wd: Seq<(Seq<u8>, Seq<u32>)>,
    pos: Seq<((u32, Seq<u8>), Seq<u32>)>,
    live: Seq<u32>,
    del: Seq<u32>,
    kp: int,
)
    requires
        forall|k: int, d: u32|
            0 <= k < pd.len() ==> ((#[trigger] pd[k].1.contains(d)) <==> (live.contains(d)
                && has_prefixed_position(pos, d, pd[k].0))),
        forall|a: int, b: int|
            0 <= a < b < wd.len() ==> (#[trigger] wd[a]).0 != (#[trigger] wd[b]).0,
        forall|k: int, d: u32|
            0 <= k < wd.len() ==> ((#[trigger] wd[k].1.contains(d)) <==> (live.contains(d)
                && has_position(pos, d, wd[k].0))),
        forall|j: int|
            0 <= j < pos.len() && live.contains((#[trigger] pos[j]).0.0) ==> exists|k: int|
                0 <= k < wd.len() && (#[trigger] wd[k]).0 == pos[j].0.1,
        0 <= kp < pd.len(),
        diff_posting(pd[kp].1, del).len() > 0,
    ensures
        exists|wrd: Seq<u8>|
            {
                &&& #[trigger] is_prefix(pd[kp].0, wrd)
                &&& !removed_touched(wd, touched_words(pos, del), del).contains(wrd)
                &&& exists|d: u32|
                    diff_posting(live, del).contains(d) && has_position(
                        kept_positions(pos, del),
                        d,
                        wrd,
                    )
            },
{
    let touched = touched_words(pos, del);
    let p = pd[kp].0;
    let dp = diff_posting(pd[kp].1, del);
    let d0 = dp[0];
    assert(dp.contains(d0));
    lemma_diff_members(pd[kp].1, del);
    assert(pd[kp].1.contains(d0) && !del.contains(d0));
    assert(live.contains(d0) && has_prefixed_position(pos, d0, p));
    let j = choose|j: int|
        0 <= j < pos.len() && (#[trigger] pos[j]).0.0 == d0 && is_prefix(p, pos[j].0.1);
    let wrd = pos[j].0.1;
    let k = choose|k: int| 0 <= k < wd.len() && (#[trigger] wd[k]).0 == wrd;
    // the word's posting keeps this document, so the word is retained
    assert(pos[j].0 == (d0, wrd));
    assert(has_position(pos, d0, wrd));
    assert(wd[k].1.contains(d0));
    lemma_diff_members(wd[k].1, del);
    assert(diff_posting(wd[k].1, del).contains(d0));
    assert(diff_posting(wd[k].1, del).len() > 0) by {
        let q = choose|q: int|
            0 <= q < diff_posting(wd[k].1, del).len() && diff_posting(wd[k].1, del)[q] == d0;
    }
    lemma_removed_at(wd, touched, del, k);
    assert(!removed_touched(wd, touched, del).contains(wrd));
    lemma_kept_keeps(pos, del, j);
    let q = choose|q: int|
        0 <= q < kept_positions(pos, del).len() && kept_positions(pos, del)[q] == pos[j];
    assert(kept_positions(pos, del)[q].0 == (d0, wrd));
    lemma_diff_members(live, del);
    assert(diff_posting(live, del).contains(d0));
    assert(has_position(kept_positions(pos, del), d0, wrd));
}

/// Pruning by touched words only looks at membership in the touched
/// list, so lists with the same members prune alike.
proof fn lemma_prune_touched_same(
    t: Seq<(Seq<u8>, Seq<u32>)>,
    a: Seq<Seq<u8>>,
    b: Seq<Seq<u8>>,
    del: Seq<u32>,
)
    requires
        forall|w: Seq<u8>| a.contains(w) <==> b.contains(w),
    ensures
        prune_touched(t, a, del) == prune_touched(t, b, del),
        removed_touched(t, a, del) == removed_touched(t, b, del),
    decreases t.len(),
{
    if t.len() == 0 {
    } else {
        lemma_prune_touched_same(t.drop_first(), a, b, del);
        assert(a.contains(t[0].0) <==> b.contains(t[0].0));
    }
}

/// Gathers the identifiers to delete, then removes all their traces
/// from every part of the index at once.
pub struct DeleteDocuments {
    external_documents_ids: Vec<(Vec<u8>, u32)>,
    documents_ids: RoaringBitmap,
    update_id: u64,
}

/// Everything the settings keep across a delete.
pub open spec fn same_settings(o: Index, nw: Index) -> bool {
    &&& nw.primary_key == o.primary_key
    &&& nw.fields_ids_map == o.fields_ids_map
    &&& nw.faceted_fields_ids == o.faceted_fields_ids
}

/// The index is unchanged but for the freshness stamp.
pub open spec fn same_but_time(o: Index, nw: Index) -> bool {
    &&& same_settings(o, nw)
    &&& nw.field_distribution == o.field_distribution
    &&& nw.documents_ids == o.documents_ids
    &&& nw.external_documents_ids == o.external_documents_ids
    &&& nw.words_fst == o.words_fst
    &&& nw.word_docids == o.word_docids
    &&& nw.word_prefix_docids == o.word_prefix_docids
    &&& nw.words_prefixes_fst == o.words_prefixes_fst
    &&& nw.docid_word_positions == o.docid_word_positions
    &&& nw.word_pair_proximity_docids == o.word_pair_proximity_docids
    &&& nw.word_prefix_pair_proximity_docids == o.word_prefix_pair_proximity_docids
    &&& nw.word_level_position_docids == o.word_level_position_docids
    &&& nw.word_prefix_level_position_docids == o.word_prefix_level_position_docids
    &&& nw.field_id_word_count_docids == o.field_id_word_count_docids
    &&& nw.facet_id_f64_docids == o.facet_id_f64_docids
    &&& nw.facet_id_string_docids == o.facet_id_string_docids
    &&& nw.number_faceted_documents_ids == o.number_faceted_documents_ids
    &&& nw.string_faceted_documents_ids == o.string_faceted_documents_ids
    &&& nw.field_id_docid_facet_f64s == o.field_id_docid_facet_f64s
    &&& nw.field_id_docid_facet_strings == o.field_id_docid_facet_strings
    &&& nw.documents == o.documents
}

/// The per-field faceted bitmaps after the delete: faceted fields'
/// rows lose the deleted documents, other rows stay, and every faceted
/// field has a row.
pub open spec fn faceted_bitmaps_post(
    o: Seq<(FieldId, RoaringBitmap)>,
    nw: Seq<(FieldId, RoaringBitmap)>,
    faceted: Seq<FieldId>,
    del: Seq<u32>,
) -> bool {
    &&& tbl_view(nw).len() >= tbl_view(o).len()
    &&& forall|i: int|
        0 <= i < tbl_view(o).len() ==> (#[trigger] tbl_view(nw)[i]).0 == tbl_view(o)[i].0 && (
        faceted.contains(tbl_view(o)[i].0) ==> tbl_view(nw)[i].1 == diff_posting(
            tbl_view(o)[i].1,
            del,
        )) && (!faceted.contains(tbl_view(o)[i].0) ==> tbl_view(nw)[i] == tbl_view(o)[i])
    &&& forall|i: int|
        tbl_view(o).len() <= i < tbl_view(nw).len() ==> faceted.contains(
            (#[trigger] tbl_view(nw)[i]).0,
        ) && tbl_view(nw)[i].1 =~= Seq::<u32>::empty()
    &&& forall|f: FieldId|
        faceted.contains(f) ==> exists|i: int|
            0 <= i < tbl_view(nw).len() && (#[trigger] tbl_view(nw)[i]).0 == f
}

/// What a full deletion pass leaves behind, table by table, when the
/// index was not emptied outright.
pub open spec fn delete_post(o: Index, nw: Index, del: Seq<u32>) -> bool {
    let m = crate::fields::fields_map(o.fields_ids_map);
    let pkf = crate::index::pk_fid(m, o.primary_key->0@);
    let dropped = dropped_docs(docs_view(o.documents@), del);
    let touched = touched_words(tbl_view(o.docid_word_positions@), del);
    &&& same_settings(o, nw)
    &&& bitmap_seq(nw.documents_ids) == diff_posting(bitmap_seq(o.documents_ids), del)
    &&& docs_view(nw.documents@) == kept_docs(docs_view(o.documents@), del)
    &&& tbl_view(nw.docid_word_positions@) == kept_positions(
        tbl_view(o.docid_word_positions@),
        del,
    )
    &&& tbl_view(nw.word_docids@) == prune_touched(tbl_view(o.word_docids@), touched, del)
    &&& (forall|w: Seq<u8>|
        crate::wordset::fst_seq(nw.words_fst).contains(w) <==> (crate::wordset::fst_seq(
            o.words_fst,
        ).contains(w) && !removed_touched(tbl_view(o.word_docids@), touched, del).contains(w)))
    &&& tbl_view(nw.word_prefix_docids@) == prune_table(tbl_view(o.word_prefix_docids@), del)
    &&& (forall|p: Seq<u8>|
        crate::wordset::fst_seq(nw.words_prefixes_fst).contains(p) <==> (crate::wordset::fst_seq(
            o.words_prefixes_fst,
        ).contains(p) && !removed_keys(tbl_view(o.word_prefix_docids@), del).contains(p)))
    &&& crate::index::ext_view(nw.external_documents_ids@) == kept_ext(
        crate::index::ext_view(o.external_documents_ids@),
        extracted_ids(dropped, pkf),
    )
    &&& (exists|counts: Seq<(u16, u64)>|
        counts_ok(counts, dropped) && crate::index::dist_view(nw.field_distribution@)
            == apply_counts(crate::index::dist_view(o.field_distribution@), m, counts))
    &&& tbl_view(nw.word_pair_proximity_docids@) == prune_table(
        tbl_view(o.word_pair_proximity_docids@),
        del,
    )
    &&& tbl_view(nw.word_prefix_pair_proximity_docids@) == prune_table(
        tbl_view(o.word_prefix_pair_proximity_docids@),
        del,
    )
    &&& tbl_view(nw.word_level_position_docids@) == prune_table(
        tbl_view(o.word_level_position_docids@),
        del,
    )
    &&& tbl_view(nw.word_prefix_level_position_docids@) == prune_table(
        tbl_view(o.word_prefix_level_position_docids@),
        del,
    )
    &&& tbl_view(nw.field_id_word_count_docids@) == prune_table(
        tbl_view(o.field_id_word_count_docids@),
        del,
    )
    &&& tbl_view(nw.facet_id_f64_docids@) == prune_table(tbl_view(o.facet_id_f64_docids@), del)
    &&& str_tbl_view(nw.facet_id_string_docids@) == crate::index::prune_str_table(
        str_tbl_view(o.facet_id_string_docids@),
        del,
    )
    &&& faceted_bitmaps_post(
        o.number_faceted_documents_ids@,
        nw.number_faceted_documents_ids@,
        o.faceted_fields_ids@,
        del,
    )
    &&& faceted_bitmaps_post(
        o.string_faceted_documents_ids@,
        nw.string_faceted_documents_ids@,
        o.faceted_fields_ids@,
        del,
    )
    &&& nw.field_id_docid_facet_f64s.deep_view() == kept_facet_rows(
        o.field_id_docid_facet_f64s.deep_view(),
        o.faceted_fields_ids@,
        del,
    )
    &&& nw.field_id_docid_facet_strings.deep_view() == kept_facet_rows(
        o.field_id_docid_facet_strings.deep_view(),
        o.faceted_fields_ids@,
        del,
    )
}

/// Every deleted document's stored primary-key value reads back as an
/// external identifier.
pub open spec fn ids_extractable(o: Index, del: Seq<u32>) -> bool {
    let m = crate::fields::fields_map(o.fields_ids_map);
    let pkf = crate::index::pk_fid(m, o.primary_key->0@);
    forall|k: int|
        0 <= k < dropped_docs(docs_view(o.documents@), del).len()
            ==> match crate::record::record_field(
            (#[trigger] dropped_docs(docs_view(o.documents@), del)[k]).1,
            pkf,
        ) {
            Option::Some(b) => crate::index::json_scalar_id(b) is Some,
            Option::None => true,
        }
}

/// Every field a deleted document carries is in the dictionary.
pub open spec fn dropped_fields_known(o: Index, del: Seq<u32>) -> bool {
    forall|k: int, q: int|
        0 <= k < dropped_docs(docs_view(o.documents@), del).len() && 0 <= q < dropped_docs(
            docs_view(o.documents@),
            del,
        )[k].1.len() ==> crate::fields::fields_map(o.fields_ids_map).dom().contains(
            (#[trigger] dropped_docs(docs_view(o.documents@), del)[k].1[q]).0,
        )
}

impl DeleteDocuments {
    /// The identifiers gathered for deletion.
    pub closed spec fn del(self) -> Seq<u32> {
        bitmap_seq(self.documents_ids)
    }

    /// The snapshot of the external map taken at construction.
    pub closed spec fn ext_snapshot(self) -> Seq<(Seq<u8>, u32)> {
        crate::index::ext_view(self.external_documents_ids@)
    }

    /// Starts a deletion against the given index: takes a snapshot of
    /// the external identifier map for resolution.
    pub fn new(index: &Index, update_id: u64) -> (r: DeleteDocuments)
        ensures
            r.del() == Seq::<u32>::empty(),
            r.ext_snapshot() == crate::index::ext_view(index.external_documents_ids@),
    {
        DeleteDocuments {
            external_documents_ids: clone_ext(&index.external_documents_ids),
            documents_ids: rb_new(),
            update_id,
        }
    }

    /// Marks one document for deletion.
    pub fn delete_document(&mut self, docid: u32)
        ensures
            crate::seqs::strict_sorted_u32(final(self).del()),
            forall|y: u32| final(self).del().contains(y) <==> (old(self).del().contains(y) || y == docid),
            final(self).ext_snapshot() == old(self).ext_snapshot(),
    {
        crate::bitmap::rb_insert(&mut self.documents_ids, docid);
    }

    /// Marks a whole posting set for deletion.
    pub fn delete_documents(&mut self, docids: &RoaringBitmap)
        ensures
            crate::seqs::strict_sorted_u32(final(self).del()),
            forall|y: u32| final(self).del().contains(y) <==> (old(self).del().contains(y)
                || bitmap_seq(*docids).contains(y)),
            final(self).ext_snapshot() == old(self).ext_snapshot(),
    {
        let u = rb_union(&self.documents_ids, docids);
        self.documents_ids = u;
    }

    /// Resolves an external identifier against the snapshot and marks
    /// the document it names; unknown identifiers resolve to nothing.
    pub fn delete_external_id(&mut self, external_id: &Vec<u8>) -> (r: Option<u32>)
        ensures
            final(self).ext_snapshot() == old(self).ext_snapshot(),
            match r {
                Some(docid) => {
                    &&& old(self).ext_snapshot().contains((external_id@, docid))
                    &&& crate::seqs::strict_sorted_u32(final(self).del())
                    &&& forall|y: u32| final(self).del().contains(y) <==> (
                        old(self).del().contains(y) || y == docid)
                },
                None => {
                    &&& *final(self) == *old(self)
                    &&& forall|k: int|
                        0 <= k < old(self).ext_snapshot().len() ==> (
                        #[trigger] old(self).ext_snapshot()[k]).0 != external_id@
                },
            },
    {
        let ghost ev = crate::index::ext_view(self.external_documents_ids@);
        let mut i: usize = 0;
        let n = self.external_documents_ids.len();
        while i < n
            invariant
                i <= n,
                n == self.external_documents_ids@.len(),
                ev == crate::index::ext_view(self.external_documents_ids@),
                *self == *old(self),
                forall|k: int| 0 <= k < i ==> (#[trigger] ev[k]).0 != external_id@,
            decreases n - i,
        {
            proof {
                assert(ev[i as int] == (
                    self.external_documents_ids@[i as int].0.deep_view(),
                    self.external_documents_ids@[i as int].1,
                ));
                lemma_bytes_view(self.external_documents_ids@[i as int].0);
            }
            if crate::seqs::bytes_eq(&self.external_documents_ids[i].0, external_id) {
                let docid = self.external_documents_ids[i].1;
                proof {
                    assert(ev[i as int] == (external_id@, docid));
                }
                self.delete_document(docid);
                return Some(docid);
            }
            i = i + 1;
        }
        None
    }

    /// Removes the gathered documents' traces from every part of the
    /// index, atomically: an error leaves the index exactly as it was.
    #[verifier::rlimit(100)]
    pub fn execute(self, index: &mut Index) -> (r: Result<u64, IndexError>)
        requires
            crate::fields::fields_wf(crate::fields::fields_map(old(index).fields_ids_map)),
        ensures
            match r {
                Ok(n) => {
                    &&& (bitmap_seq(old(index).documents_ids).len() == 0 ==> n == 0
                        && same_but_time(*old(index), *final(index)))
                    &&& (bitmap_seq(old(index).documents_ids).len() != 0 && bitmap_seq(
                        old(index).documents_ids,
                    ).len() == self.del().len() ==> n as nat == self.del().len()
                        && crate::index::cleared(*final(index)) && same_settings(
                        *old(index),
                        *final(index),
                    ))
                    &&& (bitmap_seq(old(index).documents_ids).len() != 0 && bitmap_seq(
                        old(index).documents_ids,
                    ).len() != self.del().len() ==> {
                        &&& old(index).primary_key is Some
                        &&& ((forall|f: crate::FieldId|
                            crate::fields::fields_map(old(index).fields_ids_map).dom().contains(f)
                                ==> crate::fields::fields_map(old(index).fields_ids_map)[f]
                                != old(index).primary_key->0@) ==> n == 0 && bitmap_seq(
                            final(index).documents_ids,
                        ) == diff_posting(bitmap_seq(old(index).documents_ids), self.del())
                            && final(index).documents == old(index).documents && same_settings(
                            *old(index),
                            *final(index),
                        ))
                        &&& ((exists|f: crate::FieldId|
                            crate::fields::fields_map(old(index).fields_ids_map).dom().contains(f)
                                && crate::fields::fields_map(old(index).fields_ids_map)[f] == old(
                                index,
                            ).primary_key->0@) ==> n as nat == self.del().len() && delete_post(
                            *old(index),
                            *final(index),
                            self.del(),
                        ))
                    })
                },
                Err(e) => {
                    &&& *final(index) == *old(index)
                    &&& (e is DatabaseMissingEntry || e is InvalidDocumentId
                        || e is Serialization)
                    &&& (old(index).primary_key is None ==> e is DatabaseMissingEntry)
                },
            },
            // success is owed on an empty index and on the bulk clear
            (bitmap_seq(old(index).documents_ids).len() == 0 ==> r is Ok),
            (bitmap_seq(old(index).documents_ids).len() == self.del().len() ==> r is Ok),
            // and on the main path when the index is consistent enough:
            // the primary key is set, every deleted document's stored
            // identifier reads back, and its fields are in the dictionary
            (bitmap_seq(old(index).documents_ids).len() != 0 && bitmap_seq(
                old(index).documents_ids,
            ).len() != self.del().len() && old(index).primary_key is Some && ids_extractable(
                *old(index),
                self.del(),
            ) && dropped_fields_known(*old(index), self.del()) ==> r is Ok),
    {
        let ghost del = bitmap_seq(self.documents_ids);
        let ghost o = *index;
        let ts = crate::index::now_timestamp();
        if rb_is_empty(&index.documents_ids) {
            index.updated_at = ts;
            return Ok(0);
        }
        let live_len = rb_len(&index.documents_ids);
        let d_len = rb_len(&self.documents_ids);
        if live_len == d_len {
            index.updated_at = ts;
            crate::index::clear_documents(index);
            return Ok(d_len);
        }
        let pk = match &index.primary_key {
            Some(p) => p.clone(),
            None => {
                return Err(IndexError::DatabaseMissingEntry);
            },
        };
        let id_field = match crate::fields::bm_get_by_right(&index.fields_ids_map, &pk) {
            Some(f) => f,
            None => {
                let nl = rb_difference(&index.documents_ids, &self.documents_ids);
                index.updated_at = ts;
                index.documents_ids = nl;
                return Ok(0);
            },
        };
        proof {
            // the dictionary is injective, so the found identifier is
            // the one the contract speaks of
            let m = crate::fields::fields_map(o.fields_ids_map);
            assert(m.dom().contains(crate::index::pk_fid(m, o.primary_key->0@)) && m[
                crate::index::pk_fid(m, o.primary_key->0@)] == o.primary_key->0@) by {
                assert(m.dom().contains(id_field) && m[id_field] == pk@);
            }
            assert(crate::index::pk_fid(m, o.primary_key->0@) == id_field);
        }
        let (kept, dropped) = split_documents(&index.documents, &self.documents_ids);
        let nd = dropped.len();
        proof {
            assert(dropped@.len() == nd);
        }
        let counts = collect_field_counts(&dropped);
        let ext_ids = match extract_ids(&dropped, id_field) {
            Ok(ids) => ids,
            Err(e) => {
                proof {
                    assert(!ids_extractable(o, del));
                }
                return Err(e);
            },
        };
        let new_dist = match apply_all_counts(
            &index.field_distribution,
            &index.fields_ids_map,
            &counts,
        ) {
            Ok(nd2) => nd2,
            Err(e) => {
                proof {
                    // the nameless field comes from some deleted document
                    let dv = docs_view(dropped@);
                    let mv = crate::fields::fields_map(o.fields_ids_map);
                    let k = choose|k: int|
                        0 <= k < counts@.len() && !mv.dom().contains((#[trigger] counts@[k]).0);
                    let f = counts@[k].0;
                    assert(field_count(dv, f) > 0);
                    lemma_field_count_witness(dv, f);
                    let k2 = choose|k2: int|
                        0 <= k2 < dv.len() && crate::record::record_field(
                            #[trigger] dv[k2].1,
                            f,
                        ) is Some;
                    lemma_record_field_entry(dv[k2].1, f);
                    assert(!dropped_fields_known(o, del));
                }
                return Err(e);
            },
        };
        let (new_positions, words) = filter_positions(
            &index.docid_word_positions,
            &self.documents_ids,
        );
        let sorted_words = sort_dedup_bytes(&words);
        let (new_word_docids, removed_words) = prune_word_docids(
            &index.word_docids,
            &sorted_words,
            &self.documents_ids,
        );
        proof {
            lemma_prune_touched_same(
                tbl_view(o.word_docids@),
                sorted_words.deep_view(),
                touched_words(tbl_view(o.docid_word_positions@), del),
                del,
            );
        }
        let sorted_removed = sort_dedup_bytes(&removed_words);
        let words_to_delete = crate::wordset::fst_from_sorted(&sorted_removed);
        let new_words_fst = crate::wordset::fst_difference(&index.words_fst, &words_to_delete);
        let (new_prefix_docids, removed_prefixes) = prune_collect_table(
            &index.word_prefix_docids,
            &self.documents_ids,
        );
        let rebuild_prefixes = removed_prefixes.len() > 0;
        let sorted_removed_p = sort_dedup_bytes(&removed_prefixes);
        let prefixes_to_delete = crate::wordset::fst_from_sorted(&sorted_removed_p);
        let new_prefixes_fst = crate::wordset::fst_difference(
            &index.words_prefixes_fst,
            &prefixes_to_delete,
        );
        let sorted_ext = sort_dedup_bytes(&ext_ids);
        let ext_fst = crate::wordset::fst_from_sorted(&sorted_ext);
        let new_external = filter_external(
            &index.external_documents_ids,
            &ext_fst,
            Ghost(ext_ids.deep_view()),
        );
        let new_wpp = prune_bytes_table(&index.word_pair_proximity_docids, &self.documents_ids);
        let new_wppp = prune_bytes_table(
            &index.word_prefix_pair_proximity_docids,
            &self.documents_ids,
        );
        let new_wlp = prune_level_table(&index.word_level_position_docids, &self.documents_ids);
        let new_wplp = prune_bytes_table(
            &index.word_prefix_level_position_docids,
            &self.documents_ids,
        );
        let new_fwc = prune_bytes_table(&index.field_id_word_count_docids, &self.documents_ids);
        let new_ff64 = prune_bytes_table(&index.facet_id_f64_docids, &self.documents_ids);
        let new_fstr = prune_string_facets(&index.facet_id_string_docids, &self.documents_ids);
        let new_nfd = sub_faceted_bitmaps(
            &index.number_faceted_documents_ids,
            &index.faceted_fields_ids,
            &self.documents_ids,
        );
        let new_sfd = sub_faceted_bitmaps(
            &index.string_faceted_documents_ids,
            &index.faceted_fields_ids,
            &self.documents_ids,
        );
        let new_f64rows = filter_facet_rows(
            &index.field_id_docid_facet_f64s,
            &index.faceted_fields_ids,
            &self.documents_ids,
        );
        let new_strrows = filter_facet_rows(
            &index.field_id_docid_facet_strings,
            &index.faceted_fields_ids,
            &self.documents_ids,
        );
        let new_live = rb_difference(&index.documents_ids, &self.documents_ids);
        index.updated_at = ts;
        index.documents_ids = new_live;
        index.documents = kept;
        index.docid_word_positions = new_positions;
        index.word_docids = new_word_docids;
        index.words_fst = new_words_fst;
        index.word_prefix_docids = new_prefix_docids;
        if rebuild_prefixes {
            index.words_prefixes_fst = new_prefixes_fst;
        }
        index.external_documents_ids = new_external;
        index.field_distribution = new_dist;
        index.word_pair_proximity_docids = new_wpp;
        index.word_prefix_pair_proximity_docids = new_wppp;
        index.word_level_position_docids = new_wlp;
        index.word_prefix_level_position_docids = new_wplp;
        index.field_id_word_count_docids = new_fwc;
        index.facet_id_f64_docids = new_ff64;
        index.facet_id_string_docids = new_fstr;
        index.number_faceted_documents_ids = new_nfd;
        index.string_faceted_documents_ids = new_sfd;
        index.field_id_docid_facet_f64s = new_f64rows;
        index.field_id_docid_facet_strings = new_strrows;
        proof {
            let touched = touched_words(tbl_view(o.docid_word_positions@), del);
            let removed_canon = removed_touched(tbl_view(o.word_docids@), touched, del);
            assert forall|w: Seq<u8>|
                #[trigger] crate::wordset::fst_seq(index.words_fst).contains(w) <==> (
            crate::wordset::fst_seq(o.words_fst).contains(w) && !removed_canon.contains(w)) by {
                assert(crate::wordset::fst_seq(words_to_delete) == sorted_removed.deep_view());
                assert(sorted_removed.deep_view().contains(w) <==> removed_words.deep_view().contains(
                    w,
                ));
                assert(removed_words.deep_view() == removed_canon);
            }
            if !rebuild_prefixes {
                assert(removed_keys(tbl_view(o.word_prefix_docids@), del)
                    =~= Seq::<Seq<u8>>::empty());
                assert forall|p: Seq<u8>|
                    #[trigger] crate::wordset::fst_seq(index.words_prefixes_fst).contains(p) <==> (
                crate::wordset::fst_seq(o.words_prefixes_fst).contains(p) && !removed_keys(
                    tbl_view(o.word_prefix_docids@),
                    del,
                ).contains(p)) by {
                    if removed_keys(tbl_view(o.word_prefix_docids@), del).contains(p) {
                        let k = choose|k: int|
                            0 <= k < removed_keys(tbl_view(o.word_prefix_docids@), del).len()
                                && removed_keys(tbl_view(o.word_prefix_docids@), del)[k] == p;
                        assert(false);
                    }
                }
            } else {
                assert forall|p: Seq<u8>|
                    #[trigger] crate::wordset::fst_seq(index.words_prefixes_fst).contains(p) <==> (
                crate::wordset::fst_seq(o.words_prefixes_fst).contains(p) && !removed_keys(
                    tbl_view(o.word_prefix_docids@),
                    del,
                ).contains(p)) by {
                    assert(crate::wordset::fst_seq(prefixes_to_delete)
                        == sorted_removed_p.deep_view());
                    assert(sorted_removed_p.deep_view().contains(p)
                        <==> removed_prefixes.deep_view().contains(p));
                    assert(removed_prefixes.deep_view() == removed_keys(
                        tbl_view(o.word_prefix_docids@),
                        del,
                    ));
                }
            }
        }
        Ok(d_len)
    }
}

} // verus!
