//! The compact document record: a sorted sequence of `(field, value)`
//! entries with enough framing for random access by field.
//!
//! One entry is the field identifier as two big-endian bytes, the value
//! length as a base-128 varint (low seven bits first, high bit set on all
//! but the last byte), then the value bytes. Records are the unit the
//! batch container stores; `record_bytes` is the layout, `parse_record`
//! reads it back, and the two are proved inverse.

use vstd::prelude::*;

verus! {

/// A `u16` as two big-endian bytes.
pub open spec fn be16(x: u16) -> Seq<u8> {
    seq![(x >> 8) as u8, (x & 0xff) as u8]
}

/// The value of two big-endian bytes.
pub open spec fn be16_val(s: Seq<u8>) -> u16 {
    ((s[0] as u16) << 8) | (s[1] as u16)
}

/// A `u32` as four big-endian bytes.
pub open spec fn be32(x: u32) -> Seq<u8> {
    seq![(x >> 24) as u8, ((x >> 16) & 0xff) as u8, ((x >> 8) & 0xff) as u8, (x & 0xff) as u8]
}

/// The value of four big-endian bytes.
pub open spec fn be32_val(s: Seq<u8>) -> u32 {
    ((s[0] as u32) << 24) | ((s[1] as u32) << 16) | ((s[2] as u32) << 8) | (s[3] as u32)
}

/// A `u64` as eight big-endian bytes.
pub open spec fn be64(x: u64) -> Seq<u8> {
    seq![
        (x >> 56) as u8,
        ((x >> 48) & 0xff) as u8,
        ((x >> 40) & 0xff) as u8,
        ((x >> 32) & 0xff) as u8,
        ((x >> 24) & 0xff) as u8,
        ((x >> 16) & 0xff) as u8,
        ((x >> 8) & 0xff) as u8,
        (x & 0xff) as u8,
    ]
}

/// The value of eight big-endian bytes.
pub open spec fn be64_val(s: Seq<u8>) -> u64 {
    ((s[0] as u64) << 56) | ((s[1] as u64) << 48) | ((s[2] as u64) << 40) | ((s[3] as u64) << 32)
        | ((s[4] as u64) << 24) | ((s[5] as u64) << 16) | ((s[6] as u64) << 8) | (s[7] as u64)
}

/// Reading back two big-endian bytes gives the encoded value.
pub proof fn lemma_be16_round_trip(x: u16)
    ensures
        be16_val(be16(x)) == x,
{
    assert(((((x >> 8) as u8) as u16) << 8) | (((x & 0xff) as u8) as u16) == x) by (bit_vector);
}

/// Reading back four big-endian bytes gives the encoded value.
pub proof fn lemma_be32_round_trip(x: u32)
    ensures
        be32_val(be32(x)) == x,
{
    assert(((((x >> 24) as u8) as u32) << 24) | (((((x >> 16) & 0xff) as u8) as u32) << 16) | ((((
    (x >> 8) & 0xff) as u8) as u32) << 8) | (((x & 0xff) as u8) as u32) == x) by (bit_vector);
}

/// Reading back eight big-endian bytes gives the encoded value.
pub proof fn lemma_be64_round_trip(x: u64)
    ensures
        be64_val(be64(x)) == x,
{
    assert(((((x >> 56) as u8) as u64) << 56) | (((((x >> 48) & 0xff) as u8) as u64) << 48) | ((((
    (x >> 40) & 0xff) as u8) as u64) << 40) | (((((x >> 32) & 0xff) as u8) as u64) << 32) | ((((
    (x >> 24) & 0xff) as u8) as u64) << 24) | (((((x >> 16) & 0xff) as u8) as u64) << 16) | ((((
    (x >> 8) & 0xff) as u8) as u64) << 8) | (((x & 0xff) as u8) as u64) == x) by (bit_vector);
}

/// Appends a `u16` as two big-endian bytes.
pub fn write_be16(x: u16, out: &mut Vec<u8>)
    ensures
        final(out)@ == old(out)@ + be16(x),
{
    proof {
        assert(x >> 8 < 256 && (x & 0xff) < 256) by (bit_vector);
    }
    out.push((x >> 8) as u8);
    out.push((x & 0xff) as u8);
    proof {
        assert(out@ =~= old(out)@ + be16(x));
    }
}

/// Appends a `u32` as four big-endian bytes.
pub fn write_be32(x: u32, out: &mut Vec<u8>)
    ensures
        final(out)@ == old(out)@ + be32(x),
{
    proof {
        assert(x >> 24 < 256 && ((x >> 16) & 0xff) < 256 && ((x >> 8) & 0xff) < 256 && (x & 0xff)
            < 256) by (bit_vector);
    }
    out.push((x >> 24) as u8);
    out.push(((x >> 16) & 0xff) as u8);
    out.push(((x >> 8) & 0xff) as u8);
    out.push((x & 0xff) as u8);
    proof {
        assert(out@ =~= old(out)@ + be32(x));
    }
}

/// Appends a `u64` as eight big-endian bytes.
pub fn write_be64(x: u64, out: &mut Vec<u8>)
    ensures
        final(out)@ == old(out)@ + be64(x),
{
    proof {
        assert(x >> 56 < 256 && ((x >> 48) & 0xff) < 256 && ((x >> 40) & 0xff) < 256 && ((x >> 32)
            & 0xff) < 256 && ((x >> 24) & 0xff) < 256 && ((x >> 16) & 0xff) < 256 && ((x >> 8)
            & 0xff) < 256 && (x & 0xff) < 256) by (bit_vector);
    }
    out.push((x >> 56) as u8);
    out.push(((x >> 48) & 0xff) as u8);
    out.push(((x >> 40) & 0xff) as u8);
    out.push(((x >> 32) & 0xff) as u8);
    out.push(((x >> 24) & 0xff) as u8);
    out.push(((x >> 16) & 0xff) as u8);
    out.push(((x >> 8) & 0xff) as u8);
    out.push((x & 0xff) as u8);
    proof {
        assert(out@ =~= old(out)@ + be64(x));
    }
}

/// Reads a `u16` from two big-endian bytes at `pos`.
pub fn read_be16(b: &Vec<u8>, pos: usize) -> (r: u16)
    requires
        pos + 2 <= b@.len(),
    ensures
        r == be16_val(b@.subrange(pos as int, pos + 2)),
{
    let n = b.len();
    let b0 = b[pos];
    let b1 = b[pos + 1];
    proof {
        assert(b@.subrange(pos as int, pos + 2)[0] == b@[pos as int]);
        assert(b@.subrange(pos as int, pos + 2)[1] == b@[pos as int + 1]);
    }
    ((b0 as u16) << 8) | (b1 as u16)
}

/// Reads a `u32` from four big-endian bytes at `pos`.
pub fn read_be32(b: &Vec<u8>, pos: usize) -> (r: u32)
    requires
        pos + 4 <= b@.len(),
    ensures
        r == be32_val(b@.subrange(pos as int, pos + 4)),
{
    let n = b.len();
    let ghost s = b@.subrange(pos as int, pos + 4);
    proof {
        assert forall|k: int| 0 <= k < 4 implies s[k] == b@[pos + k] by {}
    }
    ((b[pos] as u32) << 24) | ((b[pos + 1] as u32) << 16) | ((b[pos + 2] as u32) << 8) | (b[pos
        + 3] as u32)
}

/// Reads a `u64` from eight big-endian bytes at `pos`.
pub fn read_be64(b: &Vec<u8>, pos: usize) -> (r: u64)
    requires
        pos + 8 <= b@.len(),
    ensures
        r == be64_val(b@.subrange(pos as int, pos + 8)),
{
    let n = b.len();
    let ghost s = b@.subrange(pos as int, pos + 8);
    proof {
        assert forall|k: int| 0 <= k < 8 implies s[k] == b@[pos + k] by {}
    }
    ((b[pos] as u64) << 56) | ((b[pos + 1] as u64) << 48) | ((b[pos + 2] as u64) << 40) | ((b[pos
        + 3] as u64) << 32) | ((b[pos + 4] as u64) << 24) | ((b[pos + 5] as u64) << 16) | ((b[pos
        + 6] as u64) << 8) | (b[pos + 7] as u64)
}

/// A length as a base-128 varint, low seven bits first, high bit set on
/// every byte but the last.
pub open spec fn varint32(n: nat) -> Seq<u8>
    decreases n,
{
    if n < 128 {
        seq![n as u8]
    } else {
        seq![(128 + n % 128) as u8] + varint32(n / 128)
    }
}

/// The largest value a varint of `k` bytes can carry, plus one.
pub open spec fn varint_bound(k: int) -> nat {
    if k <= 1 {
        128
    } else if k == 2 {
        0x4000
    } else if k == 3 {
        0x200000
    } else if k == 4 {
        0x10000000
    } else {
        0x800000000
    }
}

/// Powers of 128: how far a varint of a given length reaches.
pub open spec fn pow128(k: nat) -> nat
    decreases k,
{
    if k == 0 {
        1
    } else {
        128 * pow128((k - 1) as nat)
    }
}

/// A value under the `k`-th power of 128 encodes in at most `k` bytes.
proof fn lemma_varint_len_k(n: nat, k: nat)
    requires
        k >= 1,
        n < pow128(k),
    ensures
        varint32(n).len() <= k,
    decreases k,
{
    if n < 128 {
    } else {
        assert(n / 128 < pow128((k - 1) as nat)) by (nonlinear_arith)
            requires
                n < 128 * pow128((k - 1) as nat),
                n >= 128,
        ;
        lemma_varint_len_k(n / 128, (k - 1) as nat);
    }
}

/// How many bytes the varint encoding of `n` takes.
pub fn varint_size(n: usize) -> (r: usize)
    ensures
        r as nat == varint32(n as nat).len(),
        1 <= r <= 10,
    decreases n,
{
    proof {
        assert(pow128(10) == 0x400000000000000000) by {
            assert(pow128(0) == 1);
            assert(pow128(1) == 128);
            assert(pow128(2) == 0x4000);
            assert(pow128(3) == 0x200000);
            assert(pow128(4) == 0x10000000);
            assert(pow128(5) == 0x800000000);
            assert(pow128(6) == 0x40000000000);
            assert(pow128(7) == 0x2000000000000);
            assert(pow128(8) == 0x100000000000000);
            assert(pow128(9) == 0x8000000000000000);
        }
        lemma_varint_len_k(n as nat, 10);
    }
    if n < 128 {
        1
    } else {
        1 + varint_size(n / 128)
    }
}

/// Reads a varint of at most `k` bytes from the front of `b`: the value
/// and how many bytes it took.
pub open spec fn parse_varint_k(b: Seq<u8>, k: int) -> Option<(nat, int)>
    decreases k,
{
    if k <= 0 || b.len() == 0 {
        None
    } else if b[0] < 128 {
        Some((b[0] as nat, 1))
    } else {
        match parse_varint_k(b.drop_first(), k - 1) {
            None => None,
            Some(p) => Some((((b[0] - 128) + 128 * p.0) as nat, p.1 + 1)),
        }
    }
}

/// Reads a varint of at most five bytes, as the record format allows.
pub open spec fn parse_varint(b: Seq<u8>) -> Option<(nat, int)> {
    parse_varint_k(b, 5)
}

/// Appends the varint encoding of `n`.
pub fn write_varint(n: u32, out: &mut Vec<u8>)
    ensures
        final(out)@ == old(out)@ + varint32(n as nat),
    decreases n,
{
    if n < 128 {
        out.push(n as u8);
        proof {
            assert(out@ =~= old(out)@ + varint32(n as nat));
        }
    } else {
        out.push(128 + (n % 128) as u8);
        let ghost mid = out@;
        write_varint(n / 128, out);
        proof {
            assert(out@ =~= old(out)@ + varint32(n as nat));
        }
    }
}

/// Reads a varint at `pos`, within a budget of `k` bytes.
fn parse_varint_at(b: &Vec<u8>, pos: usize, k: u8) -> (r: Option<(u64, usize)>)
    requires
        k <= 5,
        pos <= b@.len(),
    ensures
        match r {
            Some(p) => {
                &&& parse_varint_k(b@.skip(pos as int), k as int) == Some(
                    (p.0 as nat, p.1 as int),
                )
                &&& (p.0 as nat) < varint_bound(k as int)
                &&& 1 <= p.1 <= k
                &&& pos + p.1 <= b@.len()
            },
            None => parse_varint_k(b@.skip(pos as int), k as int) is None,
        },
    decreases k,
{
    if k == 0 || pos >= b.len() {
        return None;
    }
    let b0 = b[pos];
    assert(b@.skip(pos as int)[0] == b@[pos as int]);
    if b0 < 128 {
        Some((b0 as u64, 1))
    } else {
        proof {
            assert(b@.skip(pos as int).drop_first() =~= b@.skip(pos + 1));
        }
        match parse_varint_at(b, pos + 1, k - 1) {
            None => None,
            Some((v, n)) => {
                assert((v as nat) < varint_bound(k - 1));
                let val = ((b0 - 128) as u64) + 128 * v;
                assert((val as nat) < varint_bound(k as int));
                Some((val, n + 1))
            },
        }
    }
}

/// Reading back a varint gives the encoded value, whatever follows it.
pub proof fn lemma_varint_round_trip(n: nat, t: Seq<u8>, k: int)
    requires
        n < varint_bound(k),
        1 <= k <= 5,
    ensures
        parse_varint_k(varint32(n) + t, k) == Some((n, varint32(n).len() as int)),
    decreases k,
{
    let b = varint32(n) + t;
    if n < 128 {
        assert(b[0] == n as u8);
        assert(b[0] < 128);
    } else {
        assert(b[0] == (128 + n % 128) as u8);
        assert(b[0] >= 128);
        assert(n >= 128 && varint_bound(k) > 128);
        assert(k >= 2);
        assert(n / 128 < varint_bound(k - 1));
        lemma_varint_round_trip(n / 128, t, k - 1);
        assert(b.drop_first() =~= varint32(n / 128) + t);
        assert((b[0] - 128) + 128 * (n / 128) == n % 128 + 128 * (n / 128));
        assert(n % 128 + 128 * (n / 128) == n);
    }
}

/// One record entry: field identifier, value length, value bytes.
pub open spec fn entry_bytes(f: u16, v: Seq<u8>) -> Seq<u8> {
    be16(f) + varint32(v.len()) + v
}

/// A whole record: its entries, one after the other.
pub open spec fn record_bytes(es: Seq<(u16, Seq<u8>)>) -> Seq<u8>
    decreases es.len(),
{
    if es.len() == 0 {
        Seq::empty()
    } else {
        entry_bytes(es[0].0, es[0].1) + record_bytes(es.drop_first())
    }
}

/// `record_bytes` over one more entry.
pub proof fn lemma_record_push(es: Seq<(u16, Seq<u8>)>, f: u16, v: Seq<u8>)
    ensures
        record_bytes(es.push((f, v))) == record_bytes(es) + entry_bytes(f, v),
    decreases es.len(),
{
    if es.len() == 0 {
        assert(es.push((f, v))[0] == (f, v));
        assert(es.push((f, v)).drop_first() =~= Seq::<(u16, Seq<u8>)>::empty());
        assert(record_bytes(Seq::<(u16, Seq<u8>)>::empty()) =~= Seq::<u8>::empty());
        assert(record_bytes(es) =~= Seq::<u8>::empty());
        assert(record_bytes(es.push((f, v))) =~= record_bytes(es) + entry_bytes(f, v));
    } else {
        assert(es.push((f, v))[0] == es[0]);
        assert(es.push((f, v)).drop_first() =~= es.drop_first().push((f, v)));
        lemma_record_push(es.drop_first(), f, v);
        assert(record_bytes(es.push((f, v))) =~= record_bytes(es) + entry_bytes(f, v));
    }
}

/// Every value in the record is small enough for its length prefix, and
/// small enough that a record holding it stays under the size cap.
pub open spec fn entries_sizes_ok(es: Seq<(u16, Seq<u8>)>) -> bool {
    forall|i: int| 0 <= i < es.len() ==> (#[trigger] es[i].1).len() < 0x80000000
}

/// Entries are sorted by strictly increasing field identifier.
pub open spec fn entries_sorted(es: Seq<(u16, Seq<u8>)>) -> bool {
    forall|i: int, j: int| 0 <= i < j < es.len() ==> es[i].0 < es[j].0
}

/// Reads the entries of a record back out of its bytes.
pub open spec fn parse_record(b: Seq<u8>) -> Option<Seq<(u16, Seq<u8>)>>
    decreases b.len(),
{
    if b.len() == 0 {
        Some(Seq::empty())
    } else if b.len() < 2 {
        None
    } else {
        let f = be16_val(b.subrange(0, 2));
        let rest = b.skip(2);
        match parse_varint(rest) {
            None => None,
            Some(p) => {
                let n = p.0;
                let k = p.1;
                if k < 1 || rest.len() < k + n {
                    None
                } else {
                    let v = rest.subrange(k, k + n);
                    match parse_record(rest.skip(k + n)) {
                        None => None,
                        Some(es) => Some(seq![(f, v)] + es),
                    }
                }
            },
        }
    }
}

/// Reading a record back gives exactly the entries it was built from.
#[verifier::rlimit(60)]
pub proof fn lemma_record_round_trip(es: Seq<(u16, Seq<u8>)>)
    requires
        entries_sizes_ok(es),
    ensures
        parse_record(record_bytes(es)) == Some(es),
    decreases es.len(),
{
    if es.len() == 0 {
    } else {
        let f = es[0].0;
        let v = es[0].1;
        let b = record_bytes(es);
        let tail = record_bytes(es.drop_first());
        assert(b =~= be16(f) + (varint32(v.len()) + (v + tail)));
        assert(b.len() >= 2);
        assert(b.subrange(0, 2) =~= be16(f));
        lemma_be16_round_trip(f);
        let rest = b.skip(2);
        assert(rest =~= varint32(v.len()) + (v + tail));
        assert(v.len() < varint_bound(5));
        lemma_varint_round_trip(v.len(), v + tail, 5);
        let k = varint32(v.len()).len() as int;
        assert(parse_varint(rest) == Some((v.len(), k)));
        assert(k >= 1);
        assert(rest.len() == k + v.len() + tail.len());
        assert(rest.subrange(k, k + v.len()) =~= v);
        assert(rest.skip(k + v.len()) =~= tail);
        assert(entries_sizes_ok(es.drop_first())) by {
            assert forall|i: int| 0 <= i < es.drop_first().len() implies (#[trigger] es.drop_first()[
                i]).1.len() < 0x80000000 by {
                assert(es.drop_first()[i] == es[i + 1]);
            }
        }
        lemma_record_round_trip(es.drop_first());
        assert(seq![(f, v)] + es.drop_first() =~= es);
    }
}

/// Encodes a record from its entries.
pub fn encode_record(es: &Vec<(u16, Vec<u8>)>) -> (r: Vec<u8>)
    requires
        entries_sizes_ok(es.deep_view()),
    ensures
        r@ == record_bytes(es.deep_view()),
{
    let mut out: Vec<u8> = Vec::new();
    let mut i: usize = 0;
    while i < es.len()
        invariant
            i <= es.len(),
            entries_sizes_ok(es.deep_view()),
            out@ == record_bytes(es.deep_view().subrange(0, i as int)),
        decreases es.len() - i,
    {
        proof {
            assert(es.deep_view()[i as int] == (es@[i as int].0, es@[i as int].1@));
            assert(es.deep_view()[i as int].1.len() < 0x80000000);
        }
        let f = es[i].0;
        write_be16(f, &mut out);
        write_varint(es[i].1.len() as u32, &mut out);
        let mut j: usize = 0;
        let ghost mid = out@;
        while j < es[i].1.len()
            invariant
                i < es.len(),
                j <= es@[i as int].1.len(),
                out@ == mid + es@[i as int].1@.subrange(0, j as int),
            decreases es@[i as int].1.len() - j,
        {
            out.push(es[i].1[j]);
            proof {
                assert(out@ =~= mid + es@[i as int].1@.subrange(0, j + 1));
            }
            j = j + 1;
        }
        proof {
            let dv = es.deep_view();
            assert(es@[i as int].1@.subrange(0, es@[i as int].1@.len() as int) =~= es@[i as int].1@);
            lemma_record_push(dv.subrange(0, i as int), dv[i as int].0, dv[i as int].1);
            assert(dv.subrange(0, i as int).push(dv[i as int]) =~= dv.subrange(0, i + 1));
            assert(out@ =~= record_bytes(dv.subrange(0, i + 1)));
        }
        i = i + 1;
    }
    proof {
        assert(es.deep_view().subrange(0, es@.len() as int) =~= es.deep_view());
    }
    out
}

/// Copies `b[i..j]` out as a fresh byte string.
pub fn copy_range(b: &Vec<u8>, i: usize, j: usize) -> (r: Vec<u8>)
    requires
        i <= j <= b@.len(),
    ensures
        r@ == b@.subrange(i as int, j as int),
{
    let mut r: Vec<u8> = Vec::new();
    let mut p: usize = i;
    while p < j
        invariant
            i <= p <= j <= b@.len(),
            r@ =~= b@.subrange(i as int, p as int),
        decreases j - p,
    {
        r.push(b[p]);
        proof {
            assert(r@ =~= b@.subrange(i as int, p + 1));
        }
        p = p + 1;
    }
    r
}

/// Decodes a record, or reports that the bytes are not a record.
pub fn decode_record(b: &Vec<u8>) -> (r: Option<Vec<(u16, Vec<u8>)>>)
    ensures
        match r {
            Some(es) => parse_record(b@) == Some(es.deep_view()),
            None => parse_record(b@) is None,
        },
{
    let mut acc: Vec<(u16, Vec<u8>)> = Vec::new();
    let mut pos: usize = 0;
    proof {
        assert(b@.skip(0) =~= b@);
        assert(acc.deep_view() =~= Seq::<(u16, Seq<u8>)>::empty());
        match parse_record(b@) {
            Some(es) => {
                assert(acc.deep_view() + es =~= es);
            },
            None => {},
        }
    }
    loop
        invariant
            pos <= b@.len(),
            parse_record(b@) == match parse_record(b@.skip(pos as int)) {
                Some(es) => Some(acc.deep_view() + es),
                None => None,
            },
        decreases b@.len() - pos,
    {
        let ghost tail = b@.skip(pos as int);
        if pos == b.len() {
            proof {
                assert(tail.len() == 0);
                assert(acc.deep_view() + Seq::<(u16, Seq<u8>)>::empty() =~= acc.deep_view());
            }
            return Some(acc);
        }
        if b.len() - pos < 2 {
            return None;
        }
        let f = read_be16(b, pos);
        proof {
            assert(tail.subrange(0, 2) =~= b@.subrange(pos as int, pos + 2));
            assert(tail.skip(2) =~= b@.skip(pos + 2));
        }
        match parse_varint_at(b, pos + 2, 5) {
            None => {
                return None;
            },
            Some((n, k)) => {
                if ((b.len() - pos - 2 - k) as u64) < n {
                    return None;
                }
                let n = n as usize;
                let v = copy_range(b, pos + 2 + k, pos + 2 + k + n);
                proof {
                    let rest = tail.skip(2);
                    assert(rest.subrange(k as int, k + n) =~= b@.subrange(
                        pos + 2 + k,
                        pos + 2 + k + n,
                    ));
                    assert(rest.skip(k + n) =~= b@.skip(pos + 2 + k + n));
                }
                let ghost accd0 = acc.deep_view();
                let ghost accv0 = acc@;
                acc.push((f, v));
                proof {
                    assert forall|q: int| 0 <= q < acc.deep_view().len() implies acc.deep_view()[q]
                        == accd0.push((f, v@))[q] by {
                        assert(acc.deep_view()[q] == acc@[q].deep_view());
                        if q < accd0.len() {
                            assert(acc@[q] == accv0[q]);
                            assert(accd0[q] == accv0[q].deep_view());
                        }
                    }
                    assert(acc.deep_view() =~= accd0.push((f, v@)));
                    match parse_record(b@.skip(pos + 2 + k + n)) {
                        Some(es) => {
                            assert(parse_record(tail) == Some(seq![(f, v@)] + es));
                            assert(accd0 + (seq![(f, v@)] + es) =~= acc.deep_view() + es);
                        },
                        None => {
                            assert(parse_record(tail) is None);
                        },
                    }
                }
                pos = pos + 2 + k + n;
            },
        }
    }
}

/// The first value stored under field `f`, if any.
pub open spec fn record_field(es: Seq<(u16, Seq<u8>)>, f: u16) -> Option<Seq<u8>>
    decreases es.len(),
{
    if es.len() == 0 {
        None
    } else if es[0].0 == f {
        Some(es[0].1)
    } else {
        record_field(es.drop_first(), f)
    }
}

/// Looks up field `f` in a record's entries.
pub fn record_get(es: &Vec<(u16, Vec<u8>)>, f: u16) -> (r: Option<Vec<u8>>)
    ensures
        match r {
            Some(v) => record_field(es.deep_view(), f) == Some(v@),
            None => record_field(es.deep_view(), f) is None,
        },
{
    let mut i: usize = 0;
    proof {
        assert(es.deep_view().skip(0) =~= es.deep_view());
    }
    while i < es.len()
        invariant
            i <= es.len(),
            record_field(es.deep_view(), f) == record_field(
                es.deep_view().skip(i as int),
                f,
            ),
        decreases es.len() - i,
    {
        let ghost dv = es.deep_view();
        proof {
            assert(dv.skip(i as int)[0] == dv[i as int]);
            assert(dv[i as int] == (es@[i as int].0, es@[i as int].1@));
            assert(dv.skip(i as int).drop_first() =~= dv.skip(i + 1));
        }
        if es[i].0 == f {
            let v = crate::seqs::clone_bytes(&es[i].1);
            return Some(v);
        }
        i = i + 1;
    }
    proof {
        assert(es.deep_view().skip(es@.len() as int).len() == 0);
    }
    None
}

} // verus!
