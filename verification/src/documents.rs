//! The batch container: a seekable, self-describing batch of compact
//! document records.
//!
//! Layout, bit for bit: eight big-endian bytes holding the metadata
//! offset; then each record, prefixed by its length as four big-endian
//! bytes; then the metadata, holding the record count and the field
//! dictionary. A producer streams records without knowing the final
//! dictionary and patches the offset once, on `finish`; `DocumentsReader`
//! walks the records back out.

use vstd::prelude::*;

use vstd::string::StringSliceAdditionalSpecFns;
use vstd::utf8::{decode_utf8, encode_utf8, valid_utf8};

use crate::fields::{
    bm_get_by_left, bm_insert_no_overwrite, bm_new, bm_len, fields_map, fields_wf, FieldsIds,
};
use crate::record::{
    be16, be16_val, be32, be32_val, be64, be64_val, parse_record, read_be16, read_be32, read_be64,
    record_bytes, varint_size, write_be16, write_be32, write_be64,
};

verus! {

/// What can go wrong while building or reading a batch.
#[derive(Debug)]
pub enum Error {
    /// The added value is neither a mapping nor a sequence of mappings,
    /// or a sequence was nested inside a sequence.
    InvalidDocumentFormat,
    /// One encoded record would exceed 2^31 - 1 bytes.
    DocumentTooLarge,
    /// An unexpected limit was hit; the text says which.
    Custom(String),
    /// Stored bytes did not decode as the format demands.
    Decoding,
    /// The batch bytes end before the format says they may.
    Io,
}

/// A byte sink that counts what runs through it, so the producer knows
/// the metadata offset without asking the sink.
pub struct ByteCounter {
    count: usize,
    writer: Vec<u8>,
}

impl ByteCounter {
    /// The bytes written so far.
    pub closed spec fn bytes(self) -> Seq<u8> {
        self.writer@
    }

    /// The running count.
    pub closed spec fn counted(self) -> int {
        self.count as int
    }

    /// The count agrees with what the sink holds.
    pub closed spec fn wf(self) -> bool {
        self.count == self.writer@.len()
    }

    /// Wraps an empty sink.
    pub fn new() -> (r: ByteCounter)
        ensures
            r.wf(),
            r.bytes() == Seq::<u8>::empty(),
    {
        let b = ByteCounter { count: 0, writer: Vec::new() };
        proof {
            assert(b.bytes() =~= Seq::<u8>::empty());
        }
        b
    }

    /// Writes a buffer through the counter.
    pub fn write(&mut self, buf: &Vec<u8>)
        requires
            old(self).wf(),
        ensures
            final(self).wf(),
            final(self).bytes() == old(self).bytes() + buf@,
            final(self).counted() == old(self).counted() + buf@.len(),
    {
        let mut i: usize = 0;
        while i < buf.len()
            invariant
                i <= buf.len(),
                self.writer@ =~= old(self).writer@ + buf@.subrange(0, i as int),
                self.count == old(self).count,
            decreases buf.len() - i,
        {
            self.writer.push(buf[i]);
            proof {
                assert(self.writer@ =~= old(self).writer@ + buf@.subrange(0, i + 1));
            }
            i = i + 1;
        }
        proof {
            assert(buf@.subrange(0, buf@.len() as int) =~= buf@);
        }
        self.count = self.writer.len();
    }

    /// Hands the sink back.
    pub fn into_inner(self) -> (r: Vec<u8>)
        ensures
            r@ == self.bytes(),
    {
        self.writer
    }
}

/// Relies on `String::from_utf8`: succeeds exactly on valid UTF-8 and
/// keeps the bytes.
#[verifier::external_body]
fn string_from_utf8(v: Vec<u8>) -> (r: Option<String>)
    ensures
        match r {
            Some(s) => valid_utf8(v@) && encode_utf8(s@) == v@,
            None => !valid_utf8(v@),
        },
{
    String::from_utf8(v).ok()
}

/// One field dictionary entry in the metadata: identifier, name length,
/// name bytes.
pub open spec fn field_entry_bytes(f: u16, name: Seq<char>) -> Seq<u8> {
    be16(f) + be64(encode_utf8(name).len() as u64) + encode_utf8(name)
}

/// The dictionary entries from identifier `i` up to `n`, in identifier
/// order; the dictionary assigns identifiers densely, so this covers it.
pub open spec fn meta_fields_bytes(v: Map<crate::FieldId, Seq<char>>, i: int, n: int) -> Seq<u8>
    decreases n - i,
{
    if i >= n {
        Seq::empty()
    } else {
        field_entry_bytes(i as u16, v[i as u16]) + meta_fields_bytes(v, i + 1, n)
    }
}

/// The metadata record: record count, number of fields, the fields.
pub open spec fn meta_bytes(count: u64, v: Map<crate::FieldId, Seq<char>>) -> Seq<u8> {
    be64(count) + be64(v.dom().len() as u64) + meta_fields_bytes(v, 0, v.dom().len() as int)
}

/// Reads dictionary entries `i..n` from the front of `b`, which must end
/// with the last of them; `acc` carries what was read before.
pub open spec fn parse_fields(
    b: Seq<u8>,
    i: int,
    n: int,
    acc: Map<crate::FieldId, Seq<char>>,
) -> Option<Map<crate::FieldId, Seq<char>>>
    decreases n - i,
{
    if i >= n {
        if b.len() == 0 {
            Some(acc)
        } else {
            None
        }
    } else if b.len() < 10 {
        None
    } else {
        let f = be16_val(b.subrange(0, 2));
        let l = be64_val(b.subrange(2, 10)) as int;
        if f != i || b.len() < 10 + l {
            None
        } else {
            let nb = b.subrange(10, 10 + l);
            if !valid_utf8(nb) {
                None
            } else {
                let name = decode_utf8(nb);
                if acc.dom().contains(f) || (exists|l2: crate::FieldId|
                    acc.dom().contains(l2) && acc[l2] == name) {
                    None
                } else {
                    parse_fields(b.skip(10 + l), i + 1, n, acc.insert(f, name))
                }
            }
        }
    }
}

/// Reads the metadata record: the count and the dictionary.
pub open spec fn parse_meta(b: Seq<u8>) -> Option<(u64, Map<crate::FieldId, Seq<char>>)> {
    if b.len() < 16 {
        None
    } else {
        let count = be64_val(b.subrange(0, 8));
        let n = be64_val(b.subrange(8, 16)) as int;
        if n > 0x10000 {
            None
        } else {
            match parse_fields(b.skip(16), 0, n, Map::empty()) {
                None => None,
                Some(m) => Some((count, m)),
            }
        }
    }
}

/// One length-prefixed record at the front of `b`: its entries and how
/// many bytes it took.
pub open spec fn parse_one(b: Seq<u8>) -> Option<(Seq<(u16, Seq<u8>)>, int)> {
    if b.len() < 4 {
        None
    } else {
        let l = be32_val(b.subrange(0, 4)) as int;
        if b.len() < 4 + l {
            None
        } else {
            match parse_record(b.subrange(4, 4 + l)) {
                None => None,
                Some(r) => Some((r, 4 + l)),
            }
        }
    }
}

/// `n` length-prefixed records from the front of `b`; what follows them
/// is not looked at.
pub open spec fn parse_docs(b: Seq<u8>, n: int) -> Option<Seq<Seq<(u16, Seq<u8>)>>>
    decreases n,
{
    if n <= 0 {
        Some(Seq::empty())
    } else {
        match parse_one(b) {
            None => None,
            Some(p) => {
                match parse_docs(b.skip(p.1), n - 1) {
                    None => None,
                    Some(rs) => Some(seq![p.0] + rs),
                }
            },
        }
    }
}

/// The batch header and metadata: the record count and the dictionary.
/// The records themselves are read one at a time against `parse_docs`.
pub open spec fn parse_batch(b: Seq<u8>) -> Option<(u64, Map<crate::FieldId, Seq<char>>)> {
    if b.len() < 8 {
        None
    } else {
        let off = be64_val(b.subrange(0, 8)) as int;
        if off < 8 || off > b.len() {
            None
        } else {
            parse_meta(b.skip(off))
        }
    }
}

/// The records region: each record behind its four-byte length.
pub open spec fn records_bytes(docs: Seq<Seq<(u16, Seq<u8>)>>) -> Seq<u8>
    decreases docs.len(),
{
    if docs.len() == 0 {
        Seq::empty()
    } else {
        be32(record_bytes(docs[0]).len() as u32) + record_bytes(docs[0]) + records_bytes(
            docs.drop_first(),
        )
    }
}

/// `records_bytes` over one more record.
pub proof fn lemma_records_push(docs: Seq<Seq<(u16, Seq<u8>)>>, d: Seq<(u16, Seq<u8>)>)
    ensures
        records_bytes(docs.push(d)) == records_bytes(docs) + be32(record_bytes(d).len() as u32)
            + record_bytes(d),
    decreases docs.len(),
{
    if docs.len() == 0 {
        assert(docs.push(d)[0] == d);
        assert(docs.push(d).drop_first() =~= Seq::<Seq<(u16, Seq<u8>)>>::empty());
        assert(records_bytes(docs) =~= Seq::<u8>::empty());
        assert(records_bytes(Seq::<Seq<(u16, Seq<u8>)>>::empty()) =~= Seq::<u8>::empty());
        assert(records_bytes(docs.push(d)) =~= records_bytes(docs) + be32(
            record_bytes(d).len() as u32,
        ) + record_bytes(d));
    } else {
        assert(docs.push(d)[0] == docs[0]);
        assert(docs.push(d).drop_first() =~= docs.drop_first().push(d));
        lemma_records_push(docs.drop_first(), d);
        assert(records_bytes(docs.push(d)) =~= records_bytes(docs) + be32(
            record_bytes(d).len() as u32,
        ) + record_bytes(d));
    }
}

/// The whole batch: offset, records, metadata.
pub open spec fn batch_bytes(
    docs: Seq<Seq<(u16, Seq<u8>)>>,
    v: Map<crate::FieldId, Seq<char>>,
) -> Seq<u8> {
    be64((8 + records_bytes(docs).len()) as u64) + records_bytes(docs) + meta_bytes(
        docs.len() as u64,
        v,
    )
}

/// A record the container can hold: field identifiers strictly sorted,
/// every value under the length prefix's reach, the whole record within
/// the size cap.
pub open spec fn doc_wf(es: Seq<(u16, Seq<u8>)>) -> bool {
    &&& crate::record::entries_sorted(es)
    &&& crate::record::entries_sizes_ok(es)
    &&& record_bytes(es).len() <= 0x7fffffff
}

/// Every record of the batch is well formed.
pub open spec fn docs_wf(docs: Seq<Seq<(u16, Seq<u8>)>>) -> bool {
    forall|i: int| 0 <= i < docs.len() ==> doc_wf(#[trigger] docs[i])
}


/// Appends a byte slice.
fn push_slice(out: &mut Vec<u8>, b: &[u8])
    ensures
        final(out)@ == old(out)@ + b@,
{
    let mut i: usize = 0;
    while i < b.len()
        invariant
            i <= b@.len(),
            out@ =~= old(out)@ + b@.subrange(0, i as int),
        decreases b@.len() - i,
    {
        out.push(*vstd::slice::slice_index_get(b, i));
        proof {
            assert(out@ =~= old(out)@ + b@.subrange(0, i + 1));
        }
        i = i + 1;
    }
    proof {
        assert(b@.subrange(0, b@.len() as int) =~= b@);
    }
}

/// Appends a byte vector.
fn push_vec(out: &mut Vec<u8>, b: &Vec<u8>)
    ensures
        final(out)@ == old(out)@ + b@,
{
    let mut i: usize = 0;
    while i < b.len()
        invariant
            i <= b@.len(),
            out@ =~= old(out)@ + b@.subrange(0, i as int),
        decreases b@.len() - i,
    {
        out.push(b[i]);
        proof {
            assert(out@ =~= old(out)@ + b@.subrange(0, i + 1));
        }
        i = i + 1;
    }
    proof {
        assert(b@.subrange(0, b@.len() as int) =~= b@);
    }
}

/// The least position in `r` whose field identifier is not below `f`.
fn lower_bound_fid(r: &Vec<(u16, Vec<u8>)>, f: u16) -> (j: usize)
    ensures
        j <= r.len(),
        forall|k: int| 0 <= k < j ==> (#[trigger] r.deep_view()[k]).0 < f,
        j < r.len() ==> r.deep_view()[j as int].0 >= f,
    
{
    let mut j: usize = 0;
    while j < r.len()
        invariant
            j <= r.len(),
            forall|k: int| 0 <= k < j ==> (#[trigger] r.deep_view()[k]).0 < f,
        decreases r.len() - j,
    {
        proof {
            assert(r.deep_view()[j as int] == (r@[j as int].0, r@[j as int].1@));
        }
        if r[j].0 >= f {
            return j;
        }
        j = j + 1;
    }
    j
}

/// Sorts record entries by strictly increasing field identifier. The
/// identifiers must be pairwise distinct; the set of entries is kept.
fn sort_entries(es: &Vec<(u16, Vec<u8>)>) -> (r: Vec<(u16, Vec<u8>)>)
    requires
        forall|i: int, j: int|
            0 <= i < j < es.deep_view().len() ==> (#[trigger] es.deep_view()[i]).0 != (
            #[trigger] es.deep_view()[j]).0,
    ensures
        crate::record::entries_sorted(r.deep_view()),
        forall|p: (u16, Seq<u8>)| r.deep_view().contains(p) <==> es.deep_view().contains(p),
        entries_size(r.deep_view()) == entries_size(es.deep_view()),
{
    let ghost dv = es.deep_view();
    let mut r: Vec<(u16, Vec<u8>)> = Vec::new();
    let mut i: usize = 0;
    while i < es.len()
        invariant
            i <= es.len(),
            dv == es.deep_view(),
            forall|a: int, b: int|
                0 <= a < b < dv.len() ==> (#[trigger] dv[a]).0 != (#[trigger] dv[b]).0,
            crate::record::entries_sorted(r.deep_view()),
            entries_size(r.deep_view()) == entries_size(dv.subrange(0, i as int)),
            forall|p: (u16, Seq<u8>)| #[trigger] r.deep_view().contains(p) <==> dv.subrange(
                0,
                i as int,
            ).contains(p),
        decreases es.len() - i,
    {
        proof {
            assert(dv[i as int] == (es@[i as int].0, es@[i as int].1@));
        }
        let f = es[i].0;
        let x: Vec<u8> = crate::seqs::clone_bytes(&es[i].1);
        let ghost prev = r.deep_view();
        let j = lower_bound_fid(&r, f);
        let ghost jj = j as int;
        proof {
            if jj < prev.len() {
                assert(prev[jj] == (r@[jj].0, r@[jj].1@));
                // the entry at the insertion point is from the unsorted prefix,
                // whose identifiers all differ from f
                assert(prev.contains(prev[jj]));
                assert(dv.subrange(0, i as int).contains(prev[jj]));
                let w = choose|w: int|
                    0 <= w < i && dv.subrange(0, i as int)[w] == prev[jj];
                assert(dv[w] == prev[jj]);
                assert(dv[w].0 != dv[i as int].0);
                assert(prev[jj].0 > f);
            }
        }
        let ghost oldr = r@;
        r.insert(j, (f, x));
        proof {
            let cur = r.deep_view();
            assert forall|k: int| 0 <= k < cur.len() implies cur[k] == (if k < jj {
                prev[k]
            } else if k == jj {
                (f, x@)
            } else {
                prev[k - 1]
            }) by {
                assert(cur[k] == (r@[k].0, r@[k].1@));
                if k < jj {
                    assert(r@[k] == oldr[k]);
                    assert(prev[k] == (oldr[k].0, oldr[k].1@));
                } else if k > jj {
                    assert(r@[k] == oldr[k - 1]);
                    assert(prev[k - 1] == (oldr[k - 1].0, oldr[k - 1].1@));
                }
            }
            assert forall|a: int, b: int| 0 <= a < b < cur.len() implies cur[a].0 < cur[b].0 by {
                if a < jj && b == jj {
                } else if a == jj && b > jj {
                    if b - 1 > jj {
                        assert(prev[jj].0 < prev[b - 1].0);
                    }
                } else {
                }
            }
            assert forall|p: (u16, Seq<u8>)| #[trigger] cur.contains(p) <==> (prev.contains(p) || p
                == (f, x@)) by {
                if cur.contains(p) {
                    let w = choose|w: int| 0 <= w < cur.len() && cur[w] == p;
                    if w < jj {
                        assert(prev[w] == p);
                        assert(prev.contains(p));
                    } else if w > jj {
                        assert(prev[w - 1] == p);
                        assert(prev.contains(p));
                    }
                }
                if prev.contains(p) {
                    let w = choose|w: int| 0 <= w < prev.len() && prev[w] == p;
                    if w < jj {
                        assert(cur[w] == p);
                        assert(cur.contains(p));
                    } else {
                        assert(cur[w + 1] == p);
                        assert(cur.contains(p));
                    }
                }
                if p == (f, x@) {
                    assert(cur[jj] == p);
                    assert(cur.contains(p));
                }
            }
            assert(cur =~= prev.insert(jj, (f, x@)));
            lemma_entries_size_insert(prev, jj, (f, x@));
            let pre = dv.subrange(0, i as int);
            let post = dv.subrange(0, i + 1);
            assert(post =~= pre.push(dv[i as int]));
            assert(dv[i as int] == (f, x@));
            lemma_entries_size_push(pre, dv[i as int]);
            assert(entries_size(cur) == entries_size(post));
            assert forall|p: (u16, Seq<u8>)| #[trigger] cur.contains(p) <==> post.contains(p) by {
                if post.contains(p) {
                    let w = choose|w: int| 0 <= w < post.len() && post[w] == p;
                    if w < i {
                        assert(pre[w] == p);
                        assert(pre.contains(p));
                    }
                }
                if pre.contains(p) {
                    let w = choose|w: int| 0 <= w < pre.len() && pre[w] == p;
                    assert(post[w] == p);
                    assert(post.contains(p));
                }
                if p == (f, x@) {
                    assert(post[i as int] == p);
                    assert(post.contains(p));
                }
            }
        }
        i = i + 1;
    }
    proof {
        assert(dv.subrange(0, dv.len() as int) =~= dv);
    }
    r
}

/// Appends the metadata record for `count` records and the dictionary.
fn write_meta(count: u64, m: &FieldsIds, out: &mut Vec<u8>)
    requires
        fields_wf(fields_map(*m)),
        fields_map(*m).dom().len() <= 0x10000,
    ensures
        final(out)@ == old(out)@ + meta_bytes(count, fields_map(*m)),
{
    let ghost v = fields_map(*m);
    let ghost nn = v.dom().len() as int;
    write_be64(count, out);
    let n = bm_len(m);
    write_be64(n as u64, out);
    let mut i: usize = 0;
    while i < n
        invariant
            i <= n,
            n as nat == v.dom().len(),
            n <= 0x10000,
            v == fields_map(*m),
            fields_wf(v),
            out@ + meta_fields_bytes(v, i as int, n as int) == old(out)@ + meta_bytes(count, v),
        decreases n - i,
    {
        proof {
            assert(v.dom().contains(i as u16));
        }
        let name = match bm_get_by_left(m, i as u16) {
            Some(nm) => nm,
            None => {
                proof {
                    assert(false);
                }
                String::new()
            },
        };
        write_be16(i as u16, out);
        let bytes: &[u8] = name.as_str().as_bytes();
        assert(bytes@ == encode_utf8(v[i as u16]));
        write_be64(bytes.len() as u64, out);
        push_slice(out, bytes);
        proof {
            assert(out@ + meta_fields_bytes(v, i + 1, n as int) =~= old(out)@ + meta_bytes(
                count,
                v,
            ));
        }
        i = i + 1;
    }
    proof {
        assert(out@ =~= old(out)@ + meta_bytes(count, v));
    }
}

/// Reading the metadata fields back rebuilds the dictionary.
#[verifier::rlimit(100)]
#[verifier::spinoff_prover]
proof fn lemma_fields_round_trip(
    v: Map<crate::FieldId, Seq<char>>,
    acc: Map<crate::FieldId, Seq<char>>,
    i: int,
    n: int,
)
    requires
        fields_wf(v),
        n == v.dom().len(),
        n <= 0x10000,
        0 <= i <= n,
        acc.dom() =~= v.dom().filter(|f: crate::FieldId| (f as int) < i),
        forall|f: crate::FieldId| acc.dom().contains(f) ==> acc[f] == v[f],
        forall|f: crate::FieldId|
            v.dom().contains(f) ==> encode_utf8(v[f]).len() < 0x10000000000000000,
    ensures
        parse_fields(meta_fields_bytes(v, i, n), i, n, acc) == Some(v),
    decreases n - i,
{
    let b = meta_fields_bytes(v, i, n);
    if i >= n {
        assert(b.len() == 0);
        assert forall|f: crate::FieldId| acc.dom().contains(f) <==> v.dom().contains(f) by {
            if v.dom().contains(f) {
                assert((f as nat) < v.dom().len());
            }
        }
        assert(acc.dom() =~= v.dom());
        assert(acc =~= v);
    } else {
        let name = v[i as u16];
        let nb = encode_utf8(name);
        assert(v.dom().contains(i as u16));
        assert(b =~= be16(i as u16) + (be64(nb.len() as u64) + (nb + meta_fields_bytes(
            v,
            i + 1,
            n,
        ))));
        assert(b.len() >= 10);
        assert(b.subrange(0, 2) =~= be16(i as u16));
        crate::record::lemma_be16_round_trip(i as u16);
        assert(b.subrange(2, 10) =~= be64(nb.len() as u64));
        crate::record::lemma_be64_round_trip(nb.len() as u64);
        let l = nb.len() as int;
        assert(b.len() == 10 + l + meta_fields_bytes(v, i + 1, n).len());
        assert(b.subrange(10, 10 + l) =~= nb);
        vstd::utf8::encode_utf8_valid_utf8(name);
        vstd::utf8::encode_utf8_decode_utf8(name);
        assert(!acc.dom().contains(i as u16));
        assert forall|l2: crate::FieldId| acc.dom().contains(l2) implies acc[l2] != name by {
            assert(v.dom().contains(l2) && acc[l2] == v[l2]);
            if v[l2] == name {
                assert(l2 == i as u16);
            }
        }
        assert(b.skip(10 + l) =~= meta_fields_bytes(v, i + 1, n));
        let acc2 = acc.insert(i as u16, name);
        assert(acc2.dom() =~= v.dom().filter(|f: crate::FieldId| (f as int) < i + 1)) by {
            assert forall|f: crate::FieldId| #[trigger] acc2.dom().contains(f) <==> (
            v.dom().contains(f) && (f as int) < i + 1) by {
                if acc2.dom().contains(f) {
                    if f == i as u16 {
                    } else {
                        assert(acc.dom().contains(f));
                        assert(v.dom().contains(f) && (f as int) < i);
                    }
                }
                if v.dom().contains(f) && (f as int) < i + 1 {
                    if (f as int) < i {
                        assert(acc.dom().contains(f));
                    } else {
                        assert(f == i as u16);
                    }
                }
            }
        }
        lemma_fields_round_trip(v, acc2, i + 1, n);
    }
}

/// Reading the metadata back gives the count and the dictionary.
pub proof fn lemma_meta_round_trip(count: u64, v: Map<crate::FieldId, Seq<char>>)
    requires
        fields_wf(v),
        v.dom().len() <= 0x10000,
        forall|f: crate::FieldId|
            v.dom().contains(f) ==> encode_utf8(v[f]).len() < 0x10000000000000000,
    ensures
        parse_meta(meta_bytes(count, v)) == Some((count, v)),
{
    let b = meta_bytes(count, v);
    let n = v.dom().len() as int;
    assert(b =~= be64(count) + (be64(v.dom().len() as u64) + meta_fields_bytes(v, 0, n)));
    assert(b.len() >= 16);
    assert(b.subrange(0, 8) =~= be64(count));
    crate::record::lemma_be64_round_trip(count);
    assert(b.subrange(8, 16) =~= be64(v.dom().len() as u64));
    crate::record::lemma_be64_round_trip(v.dom().len() as u64);
    assert(b.skip(16) =~= meta_fields_bytes(v, 0, n));
    assert(Map::<crate::FieldId, Seq<char>>::empty().dom() =~= v.dom().filter(
        |f: crate::FieldId| (f as int) < 0,
    ));
    lemma_fields_round_trip(v, Map::empty(), 0, n);
}

/// Reading `n` records back gives the records a batch was built from,
/// whatever follows them.
pub proof fn lemma_docs_round_trip(docs: Seq<Seq<(u16, Seq<u8>)>>, t: Seq<u8>)
    requires
        docs_wf(docs),
    ensures
        parse_docs(records_bytes(docs) + t, docs.len() as int) == Some(docs),
    decreases docs.len(),
{
    let b = records_bytes(docs) + t;
    if docs.len() == 0 {
    } else {
        let d = docs[0];
        let rec = record_bytes(d);
        assert(doc_wf(d));
        assert(b =~= be32(rec.len() as u32) + (rec + (records_bytes(docs.drop_first()) + t)));
        assert(b.len() >= 4);
        assert(b.subrange(0, 4) =~= be32(rec.len() as u32));
        crate::record::lemma_be32_round_trip(rec.len() as u32);
        let l = rec.len() as int;
        assert(b.len() >= 4 + l);
        assert(b.subrange(4, 4 + l) =~= rec);
        crate::record::lemma_record_round_trip(d);
        assert(parse_one(b) == Some((d, 4 + l)));
        assert(b.skip(4 + l) =~= records_bytes(docs.drop_first()) + t);
        assert(docs_wf(docs.drop_first())) by {
            assert forall|k: int| 0 <= k < docs.drop_first().len() implies doc_wf(
                #[trigger] docs.drop_first()[k],
            ) by {
                assert(docs.drop_first()[k] == docs[k + 1]);
            }
        }
        lemma_docs_round_trip(docs.drop_first(), t);
        assert(seq![d] + docs.drop_first() =~= docs);
    }
}

/// Reading a built batch back gives its record count and dictionary, and
/// its records in order: the container round trip.
pub proof fn lemma_batch_round_trip(docs: Seq<Seq<(u16, Seq<u8>)>>, v: Map<crate::FieldId, Seq<char>>)
    requires
        docs_wf(docs),
        fields_wf(v),
        v.dom().len() <= 0x10000,
        forall|f: crate::FieldId|
            v.dom().contains(f) ==> encode_utf8(v[f]).len() < 0x10000000000000000,
        docs.len() < 0x10000000000000000,
        8 + records_bytes(docs).len() < 0x10000000000000000,
    ensures
        parse_batch(batch_bytes(docs, v)) == Some((docs.len() as u64, v)),
        parse_docs(batch_bytes(docs, v).skip(8), docs.len() as int) == Some(docs),
{
    let b = batch_bytes(docs, v);
    let off = 8 + records_bytes(docs).len() as int;
    assert(b =~= be64((8 + records_bytes(docs).len()) as u64) + (records_bytes(docs) + meta_bytes(
        docs.len() as u64,
        v,
    )));
    assert(b.len() >= 8);
    assert(b.subrange(0, 8) =~= be64((8 + records_bytes(docs).len()) as u64));
    crate::record::lemma_be64_round_trip((8 + records_bytes(docs).len()) as u64);
    assert(b.skip(off) =~= meta_bytes(docs.len() as u64, v));
    lemma_meta_round_trip(docs.len() as u64, v);
    assert(b.skip(8) =~= records_bytes(docs) + meta_bytes(docs.len() as u64, v));
    lemma_docs_round_trip(docs, meta_bytes(docs.len() as u64, v));
}



/// The framed size of one record entry: the identifier, the length
/// prefix, the value bytes.
pub open spec fn entry_size(v: Seq<u8>) -> nat {
    2 + crate::record::varint32(v.len()).len() + v.len()
}

/// The framed size of a record, entry by entry.
pub open spec fn entries_size(es: Seq<(u16, Seq<u8>)>) -> nat
    decreases es.len(),
{
    if es.len() == 0 {
        0
    } else {
        entry_size(es[0].1) + entries_size(es.drop_first())
    }
}

/// `entries_size` over one more entry.
pub proof fn lemma_entries_size_push(es: Seq<(u16, Seq<u8>)>, e: (u16, Seq<u8>))
    ensures
        entries_size(es.push(e)) == entries_size(es) + entry_size(e.1),
    decreases es.len(),
{
    if es.len() == 0 {
        assert(es.push(e)[0] == e);
        assert(es.push(e).drop_first() =~= Seq::<(u16, Seq<u8>)>::empty());
        assert(entries_size(Seq::<(u16, Seq<u8>)>::empty()) == 0);
        assert(entries_size(es.push(e)) == entry_size(e.1) + entries_size(
            es.push(e).drop_first(),
        ));
        assert(entries_size(es) == 0);
    } else {
        assert(es.push(e)[0] == es[0]);
        assert(es.push(e).drop_first() =~= es.drop_first().push(e));
        lemma_entries_size_push(es.drop_first(), e);
    }
}

/// `entries_size` over one entry fewer.
pub proof fn lemma_entries_size_remove(es: Seq<(u16, Seq<u8>)>, j: int)
    requires
        0 <= j < es.len(),
    ensures
        entries_size(es.remove(j)) + entry_size(es[j].1) == entries_size(es),
    decreases es.len(),
{
    if j == 0 {
        assert(es.remove(0) =~= es.drop_first());
    } else {
        assert(es.remove(j)[0] == es[0]);
        assert(es.remove(j).drop_first() =~= es.drop_first().remove(j - 1));
        assert(es.drop_first()[j - 1] == es[j]);
        lemma_entries_size_remove(es.drop_first(), j - 1);
    }
}

/// `entries_size` over one entry slotted in.
pub proof fn lemma_entries_size_insert(es: Seq<(u16, Seq<u8>)>, j: int, e: (u16, Seq<u8>))
    requires
        0 <= j <= es.len(),
    ensures
        entries_size(es.insert(j, e)) == entries_size(es) + entry_size(e.1),
    decreases es.len(),
{
    if j == 0 {
        assert(es.insert(0, e)[0] == e);
        assert(es.insert(0, e).drop_first() =~= es);
    } else {
        assert(es.insert(j, e)[0] == es[0]);
        assert(es.insert(j, e).drop_first() =~= es.drop_first().insert(j - 1, e));
        lemma_entries_size_insert(es.drop_first(), j - 1, e);
    }
}

/// No entry outweighs the whole record.
pub proof fn lemma_entries_size_member(es: Seq<(u16, Seq<u8>)>, j: int)
    requires
        0 <= j < es.len(),
    ensures
        entry_size(es[j].1) <= entries_size(es),
    decreases es.len(),
{
    if j > 0 {
        assert(es.drop_first()[j - 1] == es[j]);
        lemma_entries_size_member(es.drop_first(), j - 1);
    }
}

/// A record's byte length is the sum of its entries' framed sizes.
pub proof fn lemma_record_size(es: Seq<(u16, Seq<u8>)>)
    ensures
        record_bytes(es).len() == entries_size(es),
    decreases es.len(),
{
    if es.len() > 0 {
        lemma_record_size(es.drop_first());
    }
}

/// The record size a mapping will take: one entry per distinct key,
/// counted at its last occurrence; `seen` holds the keys already
/// counted.
pub open spec fn doc_size_acc(fs: Seq<(String, crate::value::Value)>, seen: Set<Seq<char>>) -> nat
    decreases fs.len(),
{
    if fs.len() == 0 {
        0
    } else {
        let e = fs.last();
        if seen.contains(e.0@) {
            doc_size_acc(fs.drop_last(), seen)
        } else {
            entry_size(crate::value::json_of(e.1)) + doc_size_acc(
                fs.drop_last(),
                seen.insert(e.0@),
            )
        }
    }
}

/// The size of the record a mapping becomes.
pub open spec fn doc_size(fs: Seq<(String, crate::value::Value)>) -> nat {
    doc_size_acc(fs, Set::empty())
}

/// The framed size of the value the key last carries, or nothing if the
/// key does not occur.
pub open spec fn key_contrib(fs: Seq<(String, crate::value::Value)>, k: Seq<char>) -> nat
    decreases fs.len(),
{
    if fs.len() == 0 {
        0
    } else if fs.last().0@ == k {
        entry_size(crate::value::json_of(fs.last().1))
    } else {
        key_contrib(fs.drop_last(), k)
    }
}

/// Marking one more key as counted takes exactly its contribution out.
proof fn lemma_doc_size_uncount(
    fs: Seq<(String, crate::value::Value)>,
    seen: Set<Seq<char>>,
    k: Seq<char>,
)
    requires
        !seen.contains(k),
    ensures
        doc_size_acc(fs, seen) == doc_size_acc(fs, seen.insert(k)) + key_contrib(fs, k),
    decreases fs.len(),
{
    if fs.len() == 0 {
    } else {
        let e = fs.last();
        if e.0@ == k {
            assert(seen.insert(k).contains(e.0@));
        } else if seen.contains(e.0@) {
            assert(seen.insert(k).contains(e.0@));
            lemma_doc_size_uncount(fs.drop_last(), seen, k);
        } else {
            assert(!seen.insert(k).contains(e.0@));
            lemma_doc_size_uncount(fs.drop_last(), seen.insert(e.0@), k);
            assert(seen.insert(e.0@).insert(k) =~= seen.insert(k).insert(e.0@));
        }
    }
}

/// The record size after one more field: the key's old contribution
/// leaves, the new value's framed size arrives.
pub proof fn lemma_doc_size_push(fs: Seq<(String, crate::value::Value)>, e: (String, crate::value::Value))
    ensures
        doc_size(fs.push(e)) + key_contrib(fs, e.0@) == doc_size(fs) + entry_size(
            crate::value::json_of(e.1),
        ),
{
    assert(fs.push(e).last() == e);
    assert(fs.push(e).drop_last() =~= fs);
    assert(!Set::<Seq<char>>::empty().contains(e.0@));
    lemma_doc_size_uncount(fs, Set::empty(), e.0@);
    assert(Set::<Seq<char>>::empty().insert(e.0@) =~= Set::empty().insert(e.0@));
}

/// The key's contribution is the framed size of its last value.
proof fn lemma_key_contrib_at(fs: Seq<(String, crate::value::Value)>, j: int)
    requires
        0 <= j < fs.len(),
        forall|j2: int| j < j2 < fs.len() ==> (#[trigger] fs[j2]).0@ != fs[j].0@,
    ensures
        key_contrib(fs, fs[j].0@) == entry_size(crate::value::json_of(fs[j].1)),
    decreases fs.len(),
{
    if j == fs.len() - 1 {
        assert(fs.last() == fs[j]);
    } else {
        assert(fs.last().0@ != fs[j].0@);
        assert(fs.drop_last()[j] == fs[j]);
        assert(forall|j2: int|
            j < j2 < fs.drop_last().len() ==> (#[trigger] fs.drop_last()[j2]).0@
                != fs.drop_last()[j].0@) by {
            assert forall|j2: int|
                j < j2 < fs.drop_last().len() implies (#[trigger] fs.drop_last()[j2]).0@
                != fs.drop_last()[j].0@ by {
                assert(fs.drop_last()[j2] == fs[j2]);
            }
        }
        lemma_key_contrib_at(fs.drop_last(), j);
    }
}

/// A key that does not occur contributes nothing.
proof fn lemma_key_contrib_absent(fs: Seq<(String, crate::value::Value)>, k: Seq<char>)
    requires
        forall|j: int| 0 <= j < fs.len() ==> (#[trigger] fs[j]).0@ != k,
    ensures
        key_contrib(fs, k) == 0,
    decreases fs.len(),
{
    if fs.len() > 0 {
        assert(fs.last() == fs[fs.len() - 1]);
        assert forall|j: int| 0 <= j < fs.drop_last().len() implies (
        #[trigger] fs.drop_last()[j]).0@ != k by {
            assert(fs.drop_last()[j] == fs[j]);
        }
        lemma_key_contrib_absent(fs.drop_last(), k);
    }
}

/// Whether some identifier of the dictionary bears this name.
pub open spec fn has_field_name(v: Map<crate::FieldId, Seq<char>>, k: Seq<char>) -> bool {
    exists|f: crate::FieldId| v.dom().contains(f) && v[f] == k
}

/// The dictionary after the mapping's keys, in order, have been given
/// identifiers: a new key takes the next free identifier.
pub open spec fn grow_fields(
    v: Map<crate::FieldId, Seq<char>>,
    fs: Seq<(String, crate::value::Value)>,
) -> Map<crate::FieldId, Seq<char>>
    decreases fs.len(),
{
    if fs.len() == 0 {
        v
    } else {
        let v2 = grow_fields(v, fs.drop_last());
        if has_field_name(v2, fs.last().0@) {
            v2
        } else {
            v2.insert(v2.dom().len() as u16, fs.last().0@)
        }
    }
}

/// Whether handing the mapping's keys identifiers would need more than
/// the identifiers can hold.
pub open spec fn keys_overflow(
    v: Map<crate::FieldId, Seq<char>>,
    fs: Seq<(String, crate::value::Value)>,
) -> bool
    decreases fs.len(),
{
    if fs.len() == 0 {
        false
    } else {
        let v2 = grow_fields(v, fs.drop_last());
        keys_overflow(v, fs.drop_last()) || (!has_field_name(v2, fs.last().0@)
            && v2.dom().len() >= 0x10000)
    }
}

/// An overflow in a prefix is an overflow of the whole.
proof fn lemma_keys_overflow_prefix(
    v: Map<crate::FieldId, Seq<char>>,
    fs: Seq<(String, crate::value::Value)>,
    i: int,
)
    requires
        0 <= i <= fs.len(),
        keys_overflow(v, fs.subrange(0, i)),
    ensures
        keys_overflow(v, fs),
    decreases fs.len() - i,
{
    if i == fs.len() {
        assert(fs.subrange(0, i) =~= fs);
    } else {
        assert(fs.subrange(0, i + 1).drop_last() =~= fs.subrange(0, i));
        lemma_keys_overflow_prefix(v, fs, i + 1);
    }
}

/// The mappings an addition carries, in order.
pub open spec fn arr_docs(vs: Seq<crate::value::Value>) -> Seq<Seq<(String, crate::value::Value)>> {
    vs.map_values(|e: crate::value::Value| e->Object_0@)
}

/// The dictionary after a run of mappings.
pub open spec fn grow_fields_docs(
    v: Map<crate::FieldId, Seq<char>>,
    docs: Seq<Seq<(String, crate::value::Value)>>,
) -> Map<crate::FieldId, Seq<char>>
    decreases docs.len(),
{
    if docs.len() == 0 {
        v
    } else {
        grow_fields(grow_fields_docs(v, docs.drop_last()), docs.last())
    }
}

/// Whether a run of mappings would overflow the identifiers.
pub open spec fn docs_overflow(
    v: Map<crate::FieldId, Seq<char>>,
    docs: Seq<Seq<(String, crate::value::Value)>>,
) -> bool
    decreases docs.len(),
{
    if docs.len() == 0 {
        false
    } else {
        docs_overflow(v, docs.drop_last()) || keys_overflow(
            grow_fields_docs(v, docs.drop_last()),
            docs.last(),
        )
    }
}

/// An overflow in a prefix of the run is an overflow of the whole run.
proof fn lemma_docs_overflow_prefix(
    v: Map<crate::FieldId, Seq<char>>,
    docs: Seq<Seq<(String, crate::value::Value)>>,
    i: int,
)
    requires
        0 <= i <= docs.len(),
        docs_overflow(v, docs.subrange(0, i)),
    ensures
        docs_overflow(v, docs),
    decreases docs.len() - i,
{
    if i == docs.len() {
        assert(docs.subrange(0, i) =~= docs);
    } else {
        assert(docs.subrange(0, i + 1).drop_last() =~= docs.subrange(0, i));
        lemma_docs_overflow_prefix(v, docs, i + 1);
    }
}

/// Whether some mapping of the addition would make a record over the
/// size cap.
pub open spec fn add_oversize(document: crate::value::Value) -> bool {
    match document {
        crate::value::Value::Object(fs) => doc_size(fs@) > 0x7fffffff,
        crate::value::Value::Array(vs) => exists|k: int|
            0 <= k < vs@.len() && doc_size((#[trigger] vs@[k])->Object_0@) > 0x7fffffff,
        _ => false,
    }
}

/// Whether the addition's keys would overflow the dictionary.
pub open spec fn add_overflow(
    v: Map<crate::FieldId, Seq<char>>,
    document: crate::value::Value,
) -> bool {
    match document {
        crate::value::Value::Object(fs) => keys_overflow(v, fs@),
        crate::value::Value::Array(vs) => docs_overflow(v, arr_docs(vs@)),
        _ => false,
    }
}

/// Whether a record's framed size is over the cap a length prefix must
/// fit under.
fn record_oversized(es: &Vec<(u16, Vec<u8>)>) -> (r: bool)
    ensures
        r == (entries_size(es.deep_view()) > 0x7fffffff),
{
    let ghost dv = es.deep_view();
    let mut total: u128 = 0;
    let mut i: usize = 0;
    proof {
        assert(dv.skip(0) =~= dv);
    }
    while i < es.len()
        invariant
            i <= es.len(),
            dv == es.deep_view(),
            total <= 0x7fffffff,
            total as nat + entries_size(dv.skip(i as int)) == entries_size(dv),
        decreases es.len() - i,
    {
        proof {
            assert(dv.skip(i as int)[0] == dv[i as int]);
            assert(dv[i as int] == (es@[i as int].0, es@[i as int].1@));
            assert(dv.skip(i as int).drop_first() =~= dv.skip(i + 1));
        }
        let vlen = es[i].1.len();
        let term: u128 = 2 + varint_size(vlen) as u128 + vlen as u128;
        proof {
            assert(term as nat == entry_size(dv[i as int].1));
        }
        let next = total + term;
        if next > 0x7fffffff {
            proof {
                assert(entries_size(dv) >= next as nat);
            }
            return true;
        }
        total = next;
        i = i + 1;
    }
    proof {
        assert(dv.skip(dv.len() as int).len() == 0);
        assert(dv.len() == es@.len());
    }
    false
}

/// Every pair of `a` is in `b` unchanged: the dictionary only grows.
pub open spec fn fields_extend(
    a: Map<crate::FieldId, Seq<char>>,
    b: Map<crate::FieldId, Seq<char>>,
) -> bool {
    forall|f: crate::FieldId|
        #[trigger] a.dom().contains(f) ==> b.dom().contains(f) && b[f] == a[f]
}

/// Entry `e` carries the value of the last occurrence, before `hi`, of
/// the key that `e`'s field identifier names.
pub open spec fn entry_ok(
    m: Map<crate::FieldId, Seq<char>>,
    fs: Seq<(String, crate::value::Value)>,
    hi: int,
    e: (u16, Seq<u8>),
) -> bool {
    exists|j: int|
        0 <= j < hi && (#[trigger] fs[j]).0@ == m[e.0] && e.1 == crate::value::json_of(fs[j].1)
            && (forall|j2: int| j < j2 < hi ==> fs[j2].0@ != fs[j].0@)
}

/// Some entry of `es` is assigned the key `name` by the dictionary.
pub open spec fn key_covered(
    m: Map<crate::FieldId, Seq<char>>,
    es: Seq<(u16, Seq<u8>)>,
    name: Seq<char>,
) -> bool {
    exists|i: int| 0 <= i < es.len() && m[(#[trigger] es[i]).0] == name
}

/// The record `es` is what adding the mapping `fs` produces, read
/// against the dictionary `m`: its field set is exactly the set of keys
/// of `fs`, and each value is the JSON text of the key's last value.
pub open spec fn record_matches(
    m: Map<crate::FieldId, Seq<char>>,
    fs: Seq<(String, crate::value::Value)>,
    es: Seq<(u16, Seq<u8>)>,
) -> bool {
    &&& crate::record::entries_sorted(es)
    &&& forall|i: int| 0 <= i < es.len() ==> m.dom().contains((#[trigger] es[i]).0)
    &&& forall|i: int| 0 <= i < es.len() ==> entry_ok(m, fs, fs.len() as int, #[trigger] es[i])
    &&& forall|j: int| 0 <= j < fs.len() ==> key_covered(m, es, (#[trigger] fs[j]).0@)
}

/// A record still matches after the dictionary grows, as long as its
/// identifiers were already assigned.
proof fn lemma_matches_extend(
    m1: Map<crate::FieldId, Seq<char>>,
    m2: Map<crate::FieldId, Seq<char>>,
    fs: Seq<(String, crate::value::Value)>,
    es: Seq<(u16, Seq<u8>)>,
)
    requires
        record_matches(m1, fs, es),
        fields_extend(m1, m2),
    ensures
        record_matches(m2, fs, es),
{
    assert forall|i: int| 0 <= i < es.len() implies m2.dom().contains((#[trigger] es[i]).0) by {
        assert(m1.dom().contains(es[i].0));
    }
    assert forall|i: int| 0 <= i < es.len() implies entry_ok(
        m2,
        fs,
        fs.len() as int,
        #[trigger] es[i],
    ) by {
        assert(m1.dom().contains(es[i].0));
        assert(m2[es[i].0] == m1[es[i].0]);
        assert(entry_ok(m1, fs, fs.len() as int, es[i]));
        let j = choose|j: int|
            0 <= j < fs.len() && (#[trigger] fs[j]).0@ == m1[es[i].0] && es[i].1
                == crate::value::json_of(fs[j].1) && (forall|j2: int|
                j < j2 < fs.len() ==> fs[j2].0@ != fs[j].0@);
        assert(fs[j].0@ == m2[es[i].0]);
    }
    assert forall|j: int| 0 <= j < fs.len() implies key_covered(m2, es, (#[trigger] fs[j]).0@) by {
        assert(key_covered(m1, es, fs[j].0@));
        let i = choose|i: int| 0 <= i < es.len() && m1[(#[trigger] es[i]).0] == fs[j].0@;
        assert(m1.dom().contains(es[i].0));
        assert(m2[es[i].0] == fs[j].0@);
    }
}

/// The position of field `f` in an unsorted entry list.
fn find_fid(acc: &Vec<(u16, Vec<u8>)>, f: u16) -> (r: Option<usize>)
    ensures
        match r {
            Some(j) => j < acc.len() && acc.deep_view()[j as int].0 == f,
            None => forall|k: int| 0 <= k < acc.len() ==> (#[trigger] acc.deep_view()[k]).0 != f,
        },
{
    let mut k: usize = 0;
    while k < acc.len()
        invariant
            k <= acc.len(),
            forall|q: int| 0 <= q < k ==> (#[trigger] acc.deep_view()[q]).0 != f,
        decreases acc.len() - k,
    {
        proof {
            assert(acc.deep_view()[k as int] == (acc@[k as int].0, acc@[k as int].1@));
        }
        if acc[k].0 == f {
            return Some(k);
        }
        k = k + 1;
    }
    None
}

/// Builds the compact record of one mapping, assigning identifiers to
/// new keys as they appear. Repeated keys keep their last value. The
/// build fails exactly when the dictionary runs out of identifiers or
/// the record would exceed the size cap, dictionary overflow first.
#[verifier::rlimit(100)]
fn build_record(index: &mut FieldsIds, fs: &Vec<(String, crate::value::Value)>) -> (r: Result<
    Vec<(u16, Vec<u8>)>,
    Error,
>)
    requires
        fields_wf(fields_map(*old(index))),
        fields_map(*old(index)).dom().len() <= 0x10000,
    ensures
        fields_wf(fields_map(*final(index))),
        fields_map(*final(index)).dom().len() <= 0x10000,
        fields_extend(fields_map(*old(index)), fields_map(*final(index))),
        match r {
            Ok(es) => {
                &&& record_matches(fields_map(*final(index)), fs@, es.deep_view())
                &&& doc_wf(es.deep_view())
                &&& forall|i: int|
                    0 <= i < es.deep_view().len() ==> fields_map(*final(index)).dom().contains(
                        (#[trigger] es.deep_view()[i]).0,
                    )
                &&& fields_map(*final(index)) == grow_fields(fields_map(*old(index)), fs@)
                &&& !keys_overflow(fields_map(*old(index)), fs@)
                &&& doc_size(fs@) <= 0x7fffffff
            },
            Err(e) => {
                &&& (e is Custom || e is DocumentTooLarge)
                &&& ((e is Custom) <==> keys_overflow(fields_map(*old(index)), fs@))
                &&& ((e is DocumentTooLarge) <==> (!keys_overflow(fields_map(*old(index)), fs@)
                    && doc_size(fs@) > 0x7fffffff))
                &&& (e is DocumentTooLarge ==> fields_map(*final(index)) == grow_fields(
                    fields_map(*old(index)),
                    fs@,
                ))
            },
        },
{
    let ghost m0 = fields_map(*old(index));
    let mut acc: Vec<(u16, Vec<u8>)> = Vec::new();
    let mut i: usize = 0;
    proof {
        assert(fs@.subrange(0, 0) =~= Seq::<(String, crate::value::Value)>::empty());
    }
    while i < fs.len()
        invariant
            m0 == fields_map(*old(index)),
            fields_wf(m0),
            i <= fs.len(),
            fields_wf(fields_map(*index)),
            fields_map(*index).dom().len() <= 0x10000,
            fields_extend(m0, fields_map(*index)),
            fields_map(*index) == grow_fields(m0, fs@.subrange(0, i as int)),
            !keys_overflow(m0, fs@.subrange(0, i as int)),
            entries_size(acc.deep_view()) == doc_size(fs@.subrange(0, i as int)),
            forall|a: int, b: int|
                0 <= a < b < acc.deep_view().len() ==> (#[trigger] acc.deep_view()[a]).0 != (
                #[trigger] acc.deep_view()[b]).0,
            forall|k: int|
                0 <= k < acc.deep_view().len() ==> fields_map(*index).dom().contains(
                    (#[trigger] acc.deep_view()[k]).0,
                ),
            forall|k: int|
                0 <= k < acc.deep_view().len() ==> entry_ok(
                    fields_map(*index),
                    fs@,
                    i as int,
                    #[trigger] acc.deep_view()[k],
                ),
            forall|j: int|
                0 <= j < i ==> key_covered(fields_map(*index), acc.deep_view(), (
                #[trigger] fs@[j]).0@),
        decreases fs.len() - i,
    {
        let ghost mcur = fields_map(*index);
        let ghost pcur = fs@.subrange(0, i as int);
        let ghost pnext = fs@.subrange(0, i + 1);
        proof {
            assert(pnext.drop_last() =~= pcur);
            assert(pnext.last() == fs@[i as int]);
        }
        let name = &fs[i].0;
        let fid = match crate::fields::insert_or_get(index, name) {
            Some(f) => f,
            None => {
                proof {
                    // a fresh key arrived with the identifiers exhausted
                    assert(!has_field_name(mcur, fs@[i as int].0@));
                    assert(keys_overflow(m0, pnext));
                    lemma_keys_overflow_prefix(m0, fs@, i + 1);
                }
                return Err(Error::Custom(String::new()));
            },
        };
        let ghost mnew = fields_map(*index);
        proof {
            // the dictionary grows as the key fold says
            if mcur.dom().contains(fid) {
                assert(mcur[fid] == fs@[i as int].0@);
                assert(has_field_name(mcur, fs@[i as int].0@));
                assert(mnew =~= mcur);
                assert(mnew == grow_fields(m0, pnext));
            } else {
                assert(fid as nat == mcur.dom().len());
                assert(!has_field_name(mcur, fs@[i as int].0@)) by {
                    if has_field_name(mcur, fs@[i as int].0@) {
                        let f2 = choose|f2: crate::FieldId|
                            mcur.dom().contains(f2) && mcur[f2] == fs@[i as int].0@;
                        assert(mnew.dom().contains(f2) && mnew[f2] == fs@[i as int].0@);
                        assert(crate::fields::fields_injective(mnew));
                        assert(f2 == fid);
                    }
                }
                assert(mcur.dom().len() < 0x10000);
                assert(mcur.dom().len() as u16 == fid);
                assert(mnew == grow_fields(m0, pnext));
            }
            assert(!keys_overflow(m0, pnext)) by {
                if !has_field_name(mcur, fs@[i as int].0@) {
                    assert(mcur.dom().len() < 0x10000);
                }
            }
            // entries keep their meaning under the grown dictionary
            assert(fields_extend(mcur, mnew));
            assert(fields_extend(m0, mnew)) by {
                assert forall|g: crate::FieldId| m0.dom().contains(g) implies mnew.dom().contains(
                    g,
                ) && mnew[g] == m0[g] by {
                    assert(fields_map(*index) == mnew);
                    assert(mcur.dom().contains(g) && mcur[g] == m0[g]);
                }
            }
            assert forall|k: int| 0 <= k < acc.deep_view().len() implies entry_ok(
                mnew,
                fs@,
                i as int,
                #[trigger] acc.deep_view()[k],
            ) by {
                let e = acc.deep_view()[k];
                assert(mcur.dom().contains(e.0));
                assert(mnew[e.0] == mcur[e.0]);
                assert(entry_ok(mcur, fs@, i as int, e));
                let j = choose|j: int|
                    0 <= j < i && (#[trigger] fs@[j]).0@ == mcur[e.0] && e.1
                        == crate::value::json_of(fs@[j].1) && (forall|j2: int|
                        j < j2 < i ==> fs@[j2].0@ != fs@[j].0@);
                assert(fs@[j].0@ == mnew[e.0]);
            }
        }
        let mut bytes: Vec<u8> = Vec::new();
        crate::value::write_json(&fs[i].1, &mut bytes);
        let ghost accd0 = acc.deep_view();
        match find_fid(&acc, fid) {
            Some(j) => {
                proof {
                    // the replaced entry carries exactly the key's old
                    // contribution
                    let e = accd0[j as int];
                    assert(mnew[e.0] == fs@[i as int].0@);
                    assert(entry_ok(mnew, fs@, i as int, e));
                    let jw = choose|jw: int|
                        0 <= jw < i && (#[trigger] fs@[jw]).0@ == mnew[e.0] && e.1
                            == crate::value::json_of(fs@[jw].1) && (forall|j2: int|
                            jw < j2 < i ==> fs@[j2].0@ != fs@[jw].0@);
                    assert(pcur[jw] == fs@[jw]);
                    assert forall|j2: int| jw < j2 < pcur.len() implies (
                    #[trigger] pcur[j2]).0@ != pcur[jw].0@ by {
                        assert(pcur[j2] == fs@[j2]);
                    }
                    lemma_key_contrib_at(pcur, jw);
                    assert(key_contrib(pcur, fs@[i as int].0@) == entry_size(e.1));
                    lemma_entries_size_remove(accd0, j as int);
                }
                acc.remove(j);
                proof {
                    let ghost cur = acc.deep_view();
                    assert forall|k: int| 0 <= k < cur.len() implies cur[k] == (if k < j {
                        accd0[k]
                    } else {
                        accd0[k + 1]
                    }) by {
                        assert(cur[k] == (acc@[k].0, acc@[k].1@));
                    }
                    assert(cur =~= accd0.remove(j as int));
                    assert(entries_size(cur) + key_contrib(pcur, fs@[i as int].0@)
                        == entries_size(accd0));
                    assert forall|k: int| 0 <= k < cur.len() implies (#[trigger] cur[k]).0
                        != fid by {
                        if k < j {
                            assert(accd0[k].0 != accd0[j as int].0);
                        } else {
                            assert(accd0[k + 1].0 != accd0[j as int].0);
                        }
                    }
                    assert forall|q: int|
                        0 <= q < accd0.len() && (#[trigger] accd0[q]).0 != fid implies acc.deep_view().contains(
                        accd0[q],
                    ) by {
                        if q < j {
                            assert(cur[q] == accd0[q]);
                        } else if q > j {
                            assert(cur[q - 1] == accd0[q]);
                        } else {
                            assert(accd0[j as int].0 == fid);
                        }
                    }
                }
            },
            None => {
                proof {
                    // the key has no entry, so it never occurred yet and
                    // contributes nothing
                    assert forall|j0: int| 0 <= j0 < pcur.len() implies (
                    #[trigger] pcur[j0]).0@ != fs@[i as int].0@ by {
                        assert(pcur[j0] == fs@[j0]);
                        if fs@[j0].0@ == fs@[i as int].0@ {
                            assert(key_covered(mcur, accd0, fs@[j0].0@));
                            let k0 = choose|k0: int|
                                0 <= k0 < accd0.len() && mcur[(#[trigger] accd0[k0]).0]
                                    == fs@[j0].0@;
                            assert(mnew[accd0[k0].0] == mcur[accd0[k0].0]);
                            assert(mnew[accd0[k0].0] == mnew[fid]);
                            assert(crate::fields::fields_injective(mnew));
                            assert(accd0[k0].0 == fid);
                        }
                    }
                    lemma_key_contrib_absent(pcur, fs@[i as int].0@);
                    assert forall|q: int|
                        0 <= q < accd0.len() && (#[trigger] accd0[q]).0 != fid implies acc.deep_view().contains(
                        accd0[q],
                    ) by {
                        assert(acc.deep_view()[q] == accd0[q]);
                    }
                }
            },
        }
        let ghost accd1 = acc.deep_view();
        proof {
            assert forall|k: int| 0 <= k < accd1.len() implies (#[trigger] accd1[k]).0 != fid by {}
            assert(forall|q: int|
                0 <= q < accd0.len() && (#[trigger] accd0[q]).0 != fid ==> accd1.contains(
                    accd0[q],
                ));
            assert(entries_size(accd1) + key_contrib(pcur, fs@[i as int].0@) == entries_size(
                accd0,
            ));
            assert(bytes@ =~= crate::value::json_of(fs@[i as int].1));
            assert(pnext =~= pcur.push(fs@[i as int]));
            lemma_entries_size_push(accd1, (fid, bytes@));
            lemma_doc_size_push(pcur, fs@[i as int]);
        }
        acc.push((fid, bytes));
        proof {
            let cur = acc.deep_view();
            let e_new = (fid, bytes@);
            assert forall|k: int| 0 <= k < cur.len() implies cur[k] == (if k < accd1.len() {
                accd1[k]
            } else {
                e_new
            }) by {
                assert(cur[k] == (acc@[k].0, acc@[k].1@));
            }
            assert(cur =~= accd1.push(e_new));
            assert(entries_size(cur) == doc_size(pnext));
            // the fresh entry is the last occurrence of its key so far
            assert(fs@[i as int].0@ == mnew[fid]);
            assert(entry_ok(mnew, fs@, i + 1, e_new));
            // older entries: the new key differs from theirs, so their
            // last occurrence stays last
            assert forall|k: int| 0 <= k < cur.len() implies entry_ok(
                mnew,
                fs@,
                i + 1,
                #[trigger] cur[k],
            ) by {
                if k < accd1.len() {
                    let e = cur[k];
                    assert(accd1[k] == e);
                    assert(entry_ok(mnew, fs@, i as int, e));
                    let j = choose|j: int|
                        0 <= j < i && (#[trigger] fs@[j]).0@ == mnew[e.0] && e.1
                            == crate::value::json_of(fs@[j].1) && (forall|j2: int|
                            j < j2 < i ==> fs@[j2].0@ != fs@[j].0@);
                    assert(e.0 != fid);
                    assert(mnew.dom().contains(e.0) && mnew.dom().contains(fid));
                    assert(crate::fields::fields_injective(mnew));
                    assert(mnew[e.0] != mnew[fid]);
                    assert(fs@[i as int].0@ != fs@[j].0@);
                    assert(forall|j2: int| j < j2 < i + 1 ==> fs@[j2].0@ != fs@[j].0@);
                }
            }
            // every key up to i + 1 is represented
            assert forall|j: int| 0 <= j < i + 1 implies key_covered(mnew, cur, (
            #[trigger] fs@[j]).0@) by {
                if j == i {
                    assert(cur[cur.len() - 1] == e_new);
                    assert(mnew[e_new.0] == fs@[j].0@);
                } else {
                    assert(key_covered(mcur, accd0, fs@[j].0@));
                    let k0 = choose|k0: int|
                        0 <= k0 < accd0.len() && mcur[(#[trigger] accd0[k0]).0] == fs@[j].0@;
                    let e = accd0[k0];
                    assert(mnew[e.0] == mcur[e.0]);
                    if mnew[e.0] == mnew[fid] {
                        // that key is the one just upserted; the new entry covers it
                        assert(mnew[e_new.0] == fs@[j].0@);
                        assert(cur[cur.len() - 1] == e_new);
                    } else {
                        // the old witness survived the upsert
                        assert(e.0 != fid);
                        assert(accd1.contains(e));
                        let kk = choose|kk: int| 0 <= kk < accd1.len() && accd1[kk] == e;
                        assert(cur[kk] == e);
                        assert(mnew[cur[kk].0] == fs@[j].0@);
                    }
                }
            }
        }
        i = i + 1;
    }
    proof {
        assert(fs@.subrange(0, fs@.len() as int) =~= fs@);
    }
    let sorted = sort_entries(&acc);
    if record_oversized(&sorted) {
        return Err(Error::DocumentTooLarge);
    }
    proof {
        let sd = sorted.deep_view();
        let ad = acc.deep_view();
        let m = fields_map(*index);
        assert forall|k: int| 0 <= k < sd.len() implies m.dom().contains((#[trigger] sd[k]).0)
            && entry_ok(m, fs@, fs@.len() as int, sd[k]) by {
            assert(sd.contains(sd[k]));
            assert(ad.contains(sd[k]));
            let q = choose|q: int| 0 <= q < ad.len() && ad[q] == sd[k];
            assert(fs@.subrange(0, fs@.len() as int) =~= fs@);
        }
        assert forall|j: int| 0 <= j < fs@.len() implies key_covered(m, sd, (
        #[trigger] fs@[j]).0@) by {
            assert(key_covered(m, ad, fs@[j].0@));
            let q = choose|q: int| 0 <= q < ad.len() && m[(#[trigger] ad[q]).0] == fs@[j].0@;
            assert(ad.contains(ad[q]));
            assert(sd.contains(ad[q]));
            let k = choose|k: int| 0 <= k < sd.len() && sd[k] == ad[q];
            assert(m[sd[k].0] == fs@[j].0@);
        }
        // the size cap bounds every entry and the framed record
        assert forall|k: int| 0 <= k < sd.len() implies (#[trigger] sd[k]).1.len()
            < 0x80000000 by {
            lemma_entries_size_member(sd, k);
        }
        assert(crate::record::entries_sizes_ok(sd));
        lemma_record_size(sd);
        assert(doc_wf(sd));
    }
    Ok(sorted)
}

/// The shapes `add_documents` accepts: a mapping, or a sequence of
/// mappings.
pub open spec fn valid_addition(v: crate::value::Value) -> bool {
    ||| v is Object
    ||| (v is Array && (forall|i: int|
        0 <= i < v->Array_0@.len() ==> (#[trigger] v->Array_0@[i]) is Object))
}

/// Writes batches of compact document records to an in-memory sink,
/// assigning field identifiers as keys appear.
pub struct DocumentsBuilder {
    writer: ByteCounter,
    index: FieldsIds,
    count: usize,
    docs: Ghost<Seq<Seq<(u16, Seq<u8>)>>>,
}

impl DocumentsBuilder {
    /// The records appended so far.
    pub closed spec fn batch_docs(self) -> Seq<Seq<(u16, Seq<u8>)>> {
        self.docs@
    }

    /// The field dictionary built so far.
    pub closed spec fn batch_fields(self) -> Map<crate::FieldId, Seq<char>> {
        fields_map(self.index)
    }

    /// The builder's invariant: the sink holds the offset placeholder
    /// and the records written so far, the dictionary is a bijection
    /// that covers every identifier the records use, and every record
    /// is well formed.
    pub closed spec fn wf(self) -> bool {
        &&& self.writer.wf()
        &&& fields_wf(self.batch_fields())
        &&& self.batch_fields().dom().len() <= 0x10000
        &&& self.count == self.docs@.len()
        &&& docs_wf(self.docs@)
        &&& self.writer.bytes() == be64(0) + records_bytes(self.docs@)
        &&& self.writer.bytes().len() >= 8 + 4 * self.count
        &&& forall|d: int, k: int|
            0 <= d < self.docs@.len() && 0 <= k < self.docs@[d].len()
                ==> self.batch_fields().dom().contains((#[trigger] self.docs@[d][k]).0)
    }

    /// Opens a builder over a fresh sink, reserving the eight bytes the
    /// metadata offset is patched into on `finish`.
    pub fn new(index: FieldsIds) -> (r: Result<DocumentsBuilder, Error>)
        requires
            fields_wf(fields_map(index)),
            fields_map(index).dom().len() <= 0x10000,
        ensures
            match r {
                Ok(b) => {
                    &&& b.wf()
                    &&& b.batch_docs() == Seq::<Seq<(u16, Seq<u8>)>>::empty()
                    &&& b.batch_fields() == fields_map(index)
                },
                Err(_) => false,
            },
    {
        let ghost m = fields_map(index);
        let mut writer = ByteCounter::new();
        let mut header: Vec<u8> = Vec::new();
        write_be64(0, &mut header);
        writer.write(&header);
        let b = DocumentsBuilder {
            writer,
            index,
            count: 0,
            docs: Ghost(Seq::empty()),
        };
        proof {
            assert(records_bytes(Seq::<Seq<(u16, Seq<u8>)>>::empty()) =~= Seq::<u8>::empty());
            assert(b.writer.bytes() =~= be64(0) + records_bytes(b.docs@));
        }
        Ok(b)
    }

    /// The number of documents written to the builder so far.
    pub fn len(&self) -> (r: usize)
        requires
            self.wf(),
        ensures
            r == self.batch_docs().len(),
    {
        self.count
    }

    /// Appends one record: its length as four big-endian bytes, then its
    /// bytes.
    fn push_doc(&mut self, es: Vec<(u16, Vec<u8>)>)
        requires
            old(self).wf(),
            doc_wf(es.deep_view()),
            forall|k: int|
                0 <= k < es.deep_view().len() ==> old(self).batch_fields().dom().contains(
                    (#[trigger] es.deep_view()[k]).0,
                ),
        ensures
            final(self).wf(),
            final(self).batch_docs() == old(self).batch_docs().push(es.deep_view()),
            final(self).batch_fields() == old(self).batch_fields(),
    {
        let rec = crate::record::encode_record(&es);
        let mut pre: Vec<u8> = Vec::new();
        write_be32(rec.len() as u32, &mut pre);
        self.writer.write(&pre);
        self.writer.write(&rec);
        self.count = self.count + 1;
        proof {
            lemma_records_push(self.docs@, es.deep_view());
        }
        self.docs = Ghost(self.docs@.push(es.deep_view()));
        proof {
            assert(self.writer.bytes() =~= be64(0) + records_bytes(self.docs@));
            assert forall|d: int, k: int|
                0 <= d < self.docs@.len() && 0 <= k < self.docs@[d].len() implies self.batch_fields().dom().contains(
                (#[trigger] self.docs@[d][k]).0,
            ) by {
                if d < self.docs@.len() - 1 {
                    assert(self.docs@[d] == old(self).docs@[d]);
                } else {
                    assert(self.docs@[d] == es.deep_view());
                }
            }
        }
    }

    /// Adds documents to the builder: a mapping becomes one record, a
    /// sequence of mappings one record per element, in order. Any other
    /// shape is refused; so is a record over the size cap, or a fresh
    /// key once the dictionary's identifiers run out. The batch is
    /// unchanged on any error, and a valid addition within the caps
    /// always lands.
    #[verifier::rlimit(100)]
    #[verifier::spinoff_prover]
    pub fn add_documents(&mut self, document: crate::value::Value) -> (r: Result<(), Error>)
        requires
            old(self).wf(),
        ensures
            final(self).wf(),
            fields_extend(old(self).batch_fields(), final(self).batch_fields()),
            match r {
                Ok(()) => {
                    &&& valid_addition(document)
                    &&& !add_oversize(document)
                    &&& !add_overflow(old(self).batch_fields(), document)
                    &&& (document is Object ==> {
                        &&& final(self).batch_docs().len() == old(self).batch_docs().len() + 1
                        &&& final(self).batch_docs().drop_last() == old(self).batch_docs()
                        &&& record_matches(
                            final(self).batch_fields(),
                            document->Object_0@,
                            final(self).batch_docs().last(),
                        )
                        &&& final(self).batch_fields() == grow_fields(
                            old(self).batch_fields(),
                            document->Object_0@,
                        )
                    })
                    &&& (document is Array ==> {
                        &&& final(self).batch_docs().len() == old(self).batch_docs().len()
                            + document->Array_0@.len()
                        &&& final(self).batch_docs().subrange(
                            0,
                            old(self).batch_docs().len() as int,
                        ) == old(self).batch_docs()
                        &&& forall|k: int|
                            0 <= k < document->Array_0@.len() ==> record_matches(
                                final(self).batch_fields(),
                                (#[trigger] document->Array_0@[k])->Object_0@,
                                final(self).batch_docs()[old(self).batch_docs().len() + k],
                            )
                        &&& final(self).batch_fields() == grow_fields_docs(
                            old(self).batch_fields(),
                            arr_docs(document->Array_0@),
                        )
                    })
                },
                Err(e) => {
                    &&& final(self).batch_docs() == old(self).batch_docs()
                    &&& ((e is InvalidDocumentFormat) <==> !valid_addition(document))
                    &&& (valid_addition(document) ==> {
                        &&& (e is Custom || e is DocumentTooLarge)
                        &&& (e is Custom ==> add_overflow(old(self).batch_fields(), document))
                        &&& (e is DocumentTooLarge ==> add_oversize(document))
                        &&& (!add_overflow(old(self).batch_fields(), document) ==> ((
                        e is DocumentTooLarge) <==> add_oversize(document)))
                        &&& (!add_oversize(document) ==> ((e is Custom) <==> add_overflow(
                            old(self).batch_fields(),
                            document,
                        )))
                    })
                },
            },
            // success is owed: a valid addition within the size cap and
            // the dictionary's room always lands
            (r is Ok <==> (valid_addition(document) && !add_oversize(document) && !add_overflow(
                old(self).batch_fields(),
                document,
            ))),
    {
        match &document {
            crate::value::Value::Object(fs) => {
                let es = match build_record(&mut self.index, fs) {
                    Ok(es) => es,
                    Err(e) => {
                        return Err(e);
                    },
                };
                self.push_doc(es);
                proof {
                    assert(self.docs@.drop_last() =~= old(self).docs@);
                }
                Ok(())
            },
            crate::value::Value::Array(vs) => {
                let mut i: usize = 0;
                while i < vs.len()
                    invariant
                        i <= vs.len(),
                        old(self).wf(),
                        *self == *old(self),
                        document is Array,
                        document->Array_0@ == vs@,
                        forall|k: int| 0 <= k < i ==> (#[trigger] vs@[k]) is Object,
                    decreases vs.len() - i,
                {
                    match &vs[i] {
                        crate::value::Value::Object(_) => {},
                        _ => {
                            return Err(Error::InvalidDocumentFormat);
                        },
                    }
                    i = i + 1;
                }
                let ghost m0 = fields_map(self.index);
                let mut recs: Vec<Vec<(u16, Vec<u8>)>> = Vec::new();
                let mut i: usize = 0;
                while i < vs.len()
                    invariant
                        i <= vs.len(),
                        old(self).wf(),
                        document is Array,
                        document->Array_0@ == vs@,
                        m0 == old(self).batch_fields(),
                        forall|k: int| 0 <= k < vs@.len() ==> (#[trigger] vs@[k]) is Object,
                        recs@.len() == i,
                        fields_wf(fields_map(self.index)),
                        fields_map(self.index).dom().len() <= 0x10000,
                        fields_extend(m0, fields_map(self.index)),
                        self.writer == old(self).writer,
                        self.count == old(self).count,
                        self.docs == old(self).docs,
                        forall|k: int|
                            0 <= k < i ==> record_matches(
                                fields_map(self.index),
                                (#[trigger] vs@[k])->Object_0@,
                                recs.deep_view()[k],
                            ),
                        forall|k: int| 0 <= k < i ==> doc_wf(#[trigger] recs.deep_view()[k]),
                        forall|k: int, q: int|
                            0 <= k < i && 0 <= q < recs.deep_view()[k].len() ==> fields_map(
                                self.index,
                            ).dom().contains((#[trigger] recs.deep_view()[k][q]).0),
                        fields_map(self.index) == grow_fields_docs(
                            m0,
                            arr_docs(vs@).subrange(0, i as int),
                        ),
                        !docs_overflow(m0, arr_docs(vs@).subrange(0, i as int)),
                        forall|k: int|
                            0 <= k < i ==> doc_size((#[trigger] vs@[k])->Object_0@) <= 0x7fffffff,
                    decreases vs.len() - i,
                {
                    let ghost mcur = fields_map(self.index);
                    let ghost recsd0 = recs.deep_view();
                    proof {
                        assert(arr_docs(vs@).subrange(0, 0)
                            =~= Seq::<Seq<(String, crate::value::Value)>>::empty());
                        assert(arr_docs(vs@)[i as int] == vs@[i as int]->Object_0@);
                        assert(arr_docs(vs@).subrange(0, i + 1).drop_last() =~= arr_docs(
                            vs@,
                        ).subrange(0, i as int));
                        assert(arr_docs(vs@).subrange(0, i + 1).last() == arr_docs(vs@)[i as int]);
                    }
                    let es = match &vs[i] {
                        crate::value::Value::Object(fs) => {
                            match build_record(&mut self.index, fs) {
                                Ok(es) => es,
                                Err(e) => {
                                    proof {
                                        assert(self.wf()) by {
                                            assert forall|d: int, q: int|
                                                0 <= d < self.docs@.len() && 0 <= q
                                                    < self.docs@[d].len() implies self.batch_fields().dom().contains(
                                                (#[trigger] self.docs@[d][q]).0,
                                            ) by {
                                                assert(old(self).batch_fields().dom().contains(
                                                    self.docs@[d][q].0,
                                                ));
                                            }
                                        }
                                        if e is Custom {
                                            // the failing element's keys overflowed
                                            assert(keys_overflow(mcur, fs@));
                                            assert(docs_overflow(
                                                m0,
                                                arr_docs(vs@).subrange(0, i + 1),
                                            ));
                                            lemma_docs_overflow_prefix(
                                                m0,
                                                arr_docs(vs@),
                                                i + 1,
                                            );
                                            assert(add_overflow(m0, document));
                                        } else {
                                            // the failing element's record was oversized
                                            assert(doc_size(vs@[i as int]->Object_0@)
                                                > 0x7fffffff);
                                            assert(add_oversize(document));
                                        }
                                    }
                                    return Err(e);
                                },
                            }
                        },
                        _ => {
                            proof {
                                assert(false);
                            }
                            Vec::new()
                        },
                    };
                    let ghost mnew = fields_map(self.index);
                    recs.push(es);
                    proof {
                        assert forall|k: int| 0 <= k < recs.deep_view().len() implies recs.deep_view()[k]
                            == (if k < recsd0.len() {
                            recsd0[k]
                        } else {
                            es.deep_view()
                        }) by {
                            assert(recs.deep_view()[k] == recs@[k].deep_view());
                        }
                        assert forall|k: int| 0 <= k < i + 1 implies record_matches(
                            mnew,
                            (#[trigger] vs@[k])->Object_0@,
                            recs.deep_view()[k],
                        ) by {
                            if k < i {
                                lemma_matches_extend(
                                    mcur,
                                    mnew,
                                    vs@[k]->Object_0@,
                                    recsd0[k],
                                );
                            }
                        }
                    }
                    i = i + 1;
                }
                proof {
                    assert(arr_docs(vs@).subrange(0, vs@.len() as int) =~= arr_docs(vs@));
                }
                let ghost d0 = self.docs@;
                let ghost mfin = fields_map(self.index);
                let mut i: usize = 0;
                while i < recs.len()
                    invariant
                        i <= recs.len(),
                        old(self).wf(),
                        document is Array,
                        document->Array_0@ == vs@,
                        m0 == old(self).batch_fields(),
                        recs@.len() == vs@.len(),
                        self.wf(),
                        fields_map(self.index) == mfin,
                        fields_extend(m0, mfin),
                        mfin == grow_fields_docs(m0, arr_docs(vs@)),
                        !docs_overflow(m0, arr_docs(vs@)),
                        forall|k: int|
                            0 <= k < vs@.len() ==> doc_size((#[trigger] vs@[k])->Object_0@)
                                <= 0x7fffffff,
                        self.docs@ == d0 + recs.deep_view().subrange(0, i as int),
                        d0 == old(self).docs@,
                        forall|k: int|
                            0 <= k < recs@.len() ==> record_matches(
                                mfin,
                                (#[trigger] vs@[k])->Object_0@,
                                recs.deep_view()[k],
                            ),
                        forall|k: int| 0 <= k < recs@.len() ==> doc_wf(
                            #[trigger] recs.deep_view()[k],
                        ),
                        forall|k: int, q: int|
                            0 <= k < recs@.len() && 0 <= q < recs.deep_view()[k].len()
                                ==> mfin.dom().contains(
                                (#[trigger] recs.deep_view()[k][q]).0,
                            ),
                    decreases recs.len() - i,
                {
                    proof {
                        assert(recs.deep_view()[i as int] == recs@[i as int].deep_view());
                    }
                    let es: Vec<(u16, Vec<u8>)> = clone_entries(&recs[i]);
                    self.push_doc(es);
                    proof {
                        assert(self.docs@ =~= d0 + recs.deep_view().subrange(0, i + 1));
                    }
                    i = i + 1;
                }
                proof {
                    assert(recs.deep_view().subrange(0, recs@.len() as int) =~= recs.deep_view());
                    assert(self.docs@ == d0 + recs.deep_view());
                    assert(self.docs@.subrange(0, d0.len() as int) =~= d0);
                    assert forall|k: int| 0 <= k < vs@.len() implies record_matches(
                        fields_map(self.index),
                        (#[trigger] vs@[k])->Object_0@,
                        self.docs@[d0.len() + k],
                    ) by {
                        assert(self.docs@[d0.len() + k] == recs.deep_view()[k]);
                    }
                }
                Ok(())
            },
            _ => Err(Error::InvalidDocumentFormat),
        }
    }

    /// Writes the metadata at the end of the sink, patches the offset at
    /// the front, and hands the finished batch back.
    pub fn finish(self) -> (r: Vec<u8>)
        requires
            self.wf(),
        ensures
            r@ == batch_bytes(self.batch_docs(), self.batch_fields()),
    {
        let DocumentsBuilder { writer, index, count, docs } = self;
        let ghost dseq = docs@;
        let ghost m = fields_map(index);
        let body = writer.into_inner();
        let offset = body.len();
        let mut out: Vec<u8> = Vec::new();
        write_be64(offset as u64, &mut out);
        let tail = crate::record::copy_range(&body, 8, body.len());
        push_vec(&mut out, &tail);
        write_meta(count as u64, &index, &mut out);
        proof {
            assert(be64(0).len() == 8);
            assert(tail@ =~= records_bytes(dseq));
            assert(offset == 8 + records_bytes(dseq).len());
            assert(out@ =~= batch_bytes(dseq, m));
        }
        out
    }
}

/// Copies a record's entries.
pub fn clone_entries(es: &Vec<(u16, Vec<u8>)>) -> (r: Vec<(u16, Vec<u8>)>)
    ensures
        r.deep_view() == es.deep_view(),
{
    let mut r: Vec<(u16, Vec<u8>)> = Vec::new();
    let mut i: usize = 0;
    while i < es.len()
        invariant
            i <= es.len(),
            r.deep_view() =~= es.deep_view().subrange(0, i as int),
        decreases es.len() - i,
    {
        let ghost prev = r.deep_view();
        let ghost prevv = r@;
        proof {
            assert(es.deep_view()[i as int] == (es@[i as int].0, es@[i as int].1@));
        }
        let v = crate::seqs::clone_bytes(&es[i].1);
        let f = es[i].0;
        r.push((f, v));
        proof {
            assert(r@ == prevv.push((f, v)));
            assert(r.deep_view().len() == r@.len());
            assert(prev.len() == prevv.len());
            assert(prev.len() == i);
            assert forall|k: int| 0 <= k < r.deep_view().len() implies r.deep_view()[k] == (if k
                < prev.len() {
                prev[k]
            } else {
                es.deep_view()[i as int]
            }) by {
                assert(r.deep_view()[k] == r@[k].deep_view());
                if k < prev.len() {
                    assert(r@[k] == prevv[k]);
                    assert(prev[k] == prevv[k].deep_view());
                } else {
                    assert(r@[k] == (f, v));
                    assert(r@[k].deep_view() == (f, v@));
                }
            }
            assert forall|k: int| 0 <= k < i + 1 implies r.deep_view()[k] == es.deep_view()[k] by {
                if k < i {
                    assert(prev[k] == es.deep_view().subrange(0, i as int)[k]);
                    assert(es.deep_view().subrange(0, i as int)[k] == es.deep_view()[k]);
                }
            }
            assert(r.deep_view().len() == i + 1);
            assert forall|k: int| 0 <= k < i + 1 implies r.deep_view()[k] == es.deep_view().subrange(
                0,
                i + 1,
            )[k] by {}
            assert(r.deep_view() =~= es.deep_view().subrange(0, i + 1));
        }
        i = i + 1;
    }
    proof {
        assert(es.deep_view().subrange(0, es@.len() as int) =~= es.deep_view());
    }
    r
}


/// Reads a batch back: the dictionary up front, then one record per
/// call, never touching bytes past the advertised count.
pub struct DocumentsReader {
    bytes: Vec<u8>,
    pos: usize,
    seen: u64,
    count: u64,
    index: FieldsIds,
}

impl DocumentsReader {
    /// The batch bytes the reader was opened on.
    pub closed spec fn src(self) -> Seq<u8> {
        self.bytes@
    }

    /// The bytes not yet consumed by record reads.
    pub closed spec fn tail(self) -> Seq<u8> {
        self.bytes@.skip(self.pos as int)
    }

    /// The record count the metadata advertised.
    pub closed spec fn doc_count(self) -> u64 {
        self.count
    }

    /// How many records have been handed out.
    pub closed spec fn seen_docs(self) -> u64 {
        self.seen
    }

    /// The field dictionary the metadata carried.
    pub closed spec fn fields(self) -> Map<crate::FieldId, Seq<char>> {
        fields_map(self.index)
    }

    /// The reader's invariant: its cursor stays inside the bytes, and
    /// the header and metadata parsed to what it carries.
    pub closed spec fn wf(self) -> bool {
        &&& self.pos <= self.bytes@.len()
        &&& self.seen <= self.count
        &&& parse_batch(self.bytes@) == Some((self.count, fields_map(self.index)))
    }

    /// Opens a reader: reads the metadata offset, the count and the
    /// dictionary, and leaves the cursor at the first record.
    pub fn from_reader(bytes: Vec<u8>) -> (r: Result<DocumentsReader, Error>)
        ensures
            match r {
                Ok(rd) => {
                    &&& rd.wf()
                    &&& parse_batch(bytes@) == Some((rd.doc_count(), rd.fields()))
                    &&& rd.seen_docs() == 0
                    &&& rd.src() == bytes@
                    &&& rd.tail() == bytes@.skip(8)
                },
                Err(_) => parse_batch(bytes@) is None,
            },
    {
        if bytes.len() < 8 {
            return Err(Error::Io);
        }
        let off64 = read_be64(&bytes, 0);
        proof {
            assert(bytes@.subrange(0, 8) =~= bytes@.subrange(0int, 0int + 8));
        }
        if off64 < 8 || off64 > bytes.len() as u64 {
            return Err(Error::Io);
        }
        let off = off64 as usize;
        let ghost meta = bytes@.skip(off as int);
        if bytes.len() - off < 16 {
            return Err(Error::Io);
        }
        let count = read_be64(&bytes, off);
        let n64 = read_be64(&bytes, off + 8);
        proof {
            assert(meta.subrange(0, 8) =~= bytes@.subrange(off as int, off as int + 8));
            assert(meta.subrange(8, 16) =~= bytes@.subrange(off + 8, off + 8 + 8));
        }
        if n64 > 0x10000 {
            return Err(Error::Decoding);
        }
        let n = n64 as usize;
        let mut index = bm_new();
        let mut mpos: usize = off + 16;
        let mut i: usize = 0;
        proof {
            assert(bytes@.skip(mpos as int) =~= meta.skip(16));
            assert(parse_batch(bytes@) == parse_meta(meta));
            assert(parse_meta(meta) == match parse_fields(
                meta.skip(16),
                0,
                n as int,
                crate::fields::empty_fields(),
            ) {
                None => None,
                Some(m) => Some((count, m)),
            });
        }
        while i < n
            invariant
                i <= n,
                off + 16 <= mpos <= bytes@.len(),
                meta == bytes@.skip(off as int),
                off + 16 <= bytes@.len(),
                parse_fields(bytes@.skip(mpos as int), i as int, n as int, fields_map(index))
                    == parse_fields(meta.skip(16), 0, n as int, crate::fields::empty_fields()),
                parse_batch(bytes@) == parse_meta(meta),
                parse_meta(meta) == match parse_fields(
                    meta.skip(16),
                    0,
                    n as int,
                    crate::fields::empty_fields(),
                ) {
                    None => None,
                    Some(m) => Some((count, m)),
                },
            decreases n - i,
        {
            let ghost cur = bytes@.skip(mpos as int);
            let ghost mcur = fields_map(index);
            if bytes.len() - mpos < 10 {
                return Err(Error::Io);
            }
            let f = read_be16(&bytes, mpos);
            let l64 = read_be64(&bytes, mpos + 2);
            proof {
                assert(cur.subrange(0, 2) =~= bytes@.subrange(mpos as int, mpos + 2));
                assert(cur.subrange(2, 10) =~= bytes@.subrange(mpos + 2, mpos + 2 + 8));
            }
            if (f as usize) != i || l64 > (bytes.len() - mpos - 10) as u64 {
                return Err(Error::Decoding);
            }
            let l = l64 as usize;
            let nb = crate::record::copy_range(&bytes, mpos + 10, mpos + 10 + l);
            proof {
                assert(cur.subrange(10, 10 + l as int) =~= bytes@.subrange(
                    mpos + 10,
                    mpos + 10 + l as int,
                ));
            }
            let name = match string_from_utf8(nb) {
                Some(nm) => nm,
                None => {
                    return Err(Error::Decoding);
                },
            };
            let ghost nmv = name@;
            proof {
                assert(encode_utf8(nmv) == cur.subrange(10, 10 + l as int));
                vstd::utf8::encode_utf8_decode_utf8(nmv);
                assert(decode_utf8(cur.subrange(10, 10 + l as int)) == nmv);
                assert(cur.skip(10 + l as int) =~= bytes@.skip(mpos + 10 + l as int));
            }
            let ok = bm_insert_no_overwrite(&mut index, f, name);
            if !ok {
                return Err(Error::Decoding);
            }
            mpos = mpos + 10 + l;
            i = i + 1;
        }
        if mpos != bytes.len() {
            return Err(Error::Decoding);
        }
        let rd = DocumentsReader { bytes, pos: 8, seen: 0, count, index };
        proof {
            assert(rd.bytes@.skip(mpos as int).len() == 0);
            assert(parse_fields(
                meta.skip(16),
                0,
                n as int,
                crate::fields::empty_fields(),
            ) == Some(fields_map(rd.index)));
            assert(parse_meta(meta) == Some((count, fields_map(rd.index))));
        }
        Ok(rd)
    }

    /// The fields dictionary for the batch.
    pub fn index(&self) -> (r: &FieldsIds)
        ensures
            fields_map(*r) == self.fields(),
    {
        &self.index
    }

    /// The number of documents in the batch.
    pub fn len(&self) -> (r: u64)
        ensures
            r == self.doc_count(),
    {
        self.count
    }

    /// Returns the next record, or `None` exactly after the advertised
    /// count; bytes past the count are never read.
    pub fn next_document_with_index(&mut self) -> (r: Result<Option<Vec<(u16, Vec<u8>)>>, Error>)
        requires
            old(self).wf(),
        ensures
            final(self).wf(),
            final(self).src() == old(self).src(),
            final(self).doc_count() == old(self).doc_count(),
            final(self).fields() == old(self).fields(),
            match r {
                Ok(None) => *final(self) == *old(self) && old(self).seen_docs() == old(
                    self,
                ).doc_count(),
                Ok(Some(rec)) => {
                    &&& old(self).seen_docs() < old(self).doc_count()
                    &&& final(self).seen_docs() == old(self).seen_docs() + 1
                    &&& match parse_one(old(self).tail()) {
                        Some(p) => rec.deep_view() == p.0 && final(self).tail() == old(
                            self,
                        ).tail().skip(p.1),
                        None => false,
                    }
                },
                Err(_) => *final(self) == *old(self) && old(self).seen_docs() < old(
                    self,
                ).doc_count() && parse_one(old(self).tail()) is None,
            },
    {
        if self.seen == self.count {
            return Ok(None);
        }
        let ghost t = self.bytes@.skip(self.pos as int);
        if self.bytes.len() - self.pos < 4 {
            return Err(Error::Io);
        }
        let l32 = read_be32(&self.bytes, self.pos);
        proof {
            assert(t.subrange(0, 4) =~= self.bytes@.subrange(self.pos as int, self.pos + 4));
        }
        if (l32 as u64) > ((self.bytes.len() - self.pos - 4) as u64) {
            proof {
                assert(t.len() < 4 + l32 as int);
            }
            return Err(Error::Io);
        }
        let l = l32 as usize;
        let rec_bytes = crate::record::copy_range(&self.bytes, self.pos + 4, self.pos + 4 + l);
        proof {
            assert(t.subrange(4, 4 + l as int) =~= self.bytes@.subrange(
                self.pos + 4,
                self.pos + 4 + l as int,
            ));
        }
        match crate::record::decode_record(&rec_bytes) {
            Some(es) => {
                self.pos = self.pos + 4 + l;
                self.seen = self.seen + 1;
                proof {
                    assert(parse_one(t) == Some((es.deep_view(), 4 + l as int)));
                    assert(self.bytes@.skip(self.pos as int) =~= t.skip(4 + l as int));
                }
                Ok(Some(es))
            },
            None => Err(Error::Decoding),
        }
    }
}

} // verus!
