//! Dynamically typed document values and their canonical JSON encoding.
//!
//! The batch container and the primary-key reader accept heterogeneous
//! scalar, object and array shapes, carried by the tagged variant `Value`.
//! Field values are stored in records as JSON text; `json_of` is the byte
//! layout and `write_json` produces it.

use vstd::prelude::*;

use vstd::string::StringSliceAdditionalSpecFns;
use vstd::utf8::encode_utf8;

verus! {

/// A document value: the shapes the container accepts at its boundary.
pub enum Value {
    Null,
    Bool(bool),
    Number(i64),
    Str(String),
    Array(Vec<Value>),
    Object(Vec<(String, Value)>),
}

/// The decimal digits of `n`, most significant first.
pub open spec fn dec_digits(n: nat) -> Seq<u8>
    decreases n,
{
    if n < 10 {
        seq![(48 + n) as u8]
    } else {
        dec_digits(n / 10).push((48 + n % 10) as u8)
    }
}

/// The JSON text of an integer.
pub open spec fn json_num(n: int) -> Seq<u8> {
    if n < 0 {
        seq![45u8] + dec_digits((-n) as nat)
    } else {
        dec_digits(n as nat)
    }
}

/// A lowercase hexadecimal digit.
pub open spec fn hex_digit(x: u8) -> u8 {
    if x < 10 {
        (48 + x) as u8
    } else {
        (87 + x) as u8
    }
}

/// How one byte of string content appears inside a JSON string literal:
/// quote and backslash are escaped, control bytes take the two-character
/// escapes JSON names or a `\u00..` escape, everything else stands as is.
pub open spec fn esc_byte(b: u8) -> Seq<u8> {
    if b == 34 {
        seq![92u8, 34u8]
    } else if b == 92 {
        seq![92u8, 92u8]
    } else if b == 8 {
        seq![92u8, 98u8]
    } else if b == 9 {
        seq![92u8, 116u8]
    } else if b == 10 {
        seq![92u8, 110u8]
    } else if b == 12 {
        seq![92u8, 102u8]
    } else if b == 13 {
        seq![92u8, 114u8]
    } else if b < 32 {
        seq![92u8, 117u8, 48u8, 48u8, hex_digit(b / 16), hex_digit(b % 16)]
    } else {
        seq![b]
    }
}

/// String content, escaped byte by byte.
pub open spec fn esc_bytes(s: Seq<u8>) -> Seq<u8>
    decreases s.len(),
{
    if s.len() == 0 {
        Seq::empty()
    } else {
        esc_byte(s[0]) + esc_bytes(s.drop_first())
    }
}

/// The JSON text of a string: its UTF-8 bytes, escaped, between quotes.
pub open spec fn json_str(sv: Seq<char>) -> Seq<u8> {
    seq![34u8] + esc_bytes(encode_utf8(sv)) + seq![34u8]
}

/// The JSON text of a value.
pub open spec fn json_of(v: Value) -> Seq<u8>
    decreases v,
{
    match v {
        Value::Null => seq![110u8, 117u8, 108u8, 108u8],
        Value::Bool(b) => if b {
            seq![116u8, 114u8, 117u8, 101u8]
        } else {
            seq![102u8, 97u8, 108u8, 115u8, 101u8]
        },
        Value::Number(n) => json_num(n as int),
        Value::Str(s) => json_str(s@),
        Value::Array(vs) => seq![91u8] + json_of_arr(vs@) + seq![93u8],
        Value::Object(fs) => seq![123u8] + json_of_obj(fs@) + seq![125u8],
    }
}

/// The comma-separated JSON texts of array elements.
pub open spec fn json_of_arr(vs: Seq<Value>) -> Seq<u8>
    decreases vs,
{
    if vs.len() == 0 {
        Seq::empty()
    } else if vs.len() == 1 {
        json_of(vs[0])
    } else {
        json_of_arr(vs.drop_last()) + seq![44u8] + json_of(vs.last())
    }
}

/// The comma-separated `"key":value` JSON texts of object members.
pub open spec fn json_of_obj(fs: Seq<(String, Value)>) -> Seq<u8>
    decreases fs,
{
    if fs.len() == 0 {
        Seq::empty()
    } else if fs.len() == 1 {
        json_str(fs[0].0@) + seq![58u8] + json_of(fs[0].1)
    } else {
        json_of_obj(fs.drop_last()) + seq![44u8] + json_str(fs.last().0@) + seq![58u8] + json_of(
            fs.last().1,
        )
    }
}

/// Appends the decimal digits of `n`.
pub fn write_dec(n: u64, out: &mut Vec<u8>)
    ensures
        final(out)@ == old(out)@ + dec_digits(n as nat),
    decreases n,
{
    if n < 10 {
        out.push(48 + n as u8);
        proof {
            assert(out@ =~= old(out)@ + dec_digits(n as nat));
        }
    } else {
        write_dec(n / 10, out);
        out.push(48 + (n % 10) as u8);
        proof {
            assert(out@ =~= old(out)@ + dec_digits(n as nat));
        }
    }
}

/// Appends the JSON text of a signed integer.
pub fn write_num(n: i64, out: &mut Vec<u8>)
    ensures
        final(out)@ == old(out)@ + json_num(n as int),
{
    if n < 0 {
        out.push(45);
        let m: u64 = if n == i64::MIN {
            9223372036854775808u64
        } else {
            (-n) as u64
        };
        assert(m as nat == (-(n as int)) as nat);
        write_dec(m, out);
        proof {
            assert(out@ =~= old(out)@ + json_num(n as int));
        }
    } else {
        write_dec(n as u64, out);
    }
}

/// `esc_bytes` over one more byte.
pub proof fn lemma_esc_push(s: Seq<u8>, x: u8)
    ensures
        esc_bytes(s.push(x)) == esc_bytes(s) + esc_byte(x),
    decreases s.len(),
{
    if s.len() == 0 {
        assert(s.push(x)[0] == x);
        assert(s.push(x).drop_first() =~= Seq::<u8>::empty());
        assert(esc_bytes(Seq::<u8>::empty()) =~= Seq::<u8>::empty());
        assert(esc_bytes(s.push(x)) == esc_byte(x) + esc_bytes(s.push(x).drop_first()));
        assert(esc_bytes(s) =~= Seq::<u8>::empty());
        assert(esc_bytes(s.push(x)) =~= esc_bytes(s) + esc_byte(x));
    } else {
        assert(s.push(x)[0] == s[0]);
        assert(s.push(x).drop_first() =~= s.drop_first().push(x));
        lemma_esc_push(s.drop_first(), x);
        assert(esc_bytes(s.push(x)) == esc_byte(s[0]) + esc_bytes(s.push(x).drop_first()));
        assert(esc_bytes(s.push(x)) == esc_byte(s[0]) + (esc_bytes(s.drop_first()) + esc_byte(x)));
        assert(esc_bytes(s) == esc_byte(s[0]) + esc_bytes(s.drop_first()));
        assert(esc_bytes(s.push(x)) =~= esc_bytes(s) + esc_byte(x));
    }
}

/// Appends one byte of string content, escaped.
fn write_esc_byte(b: u8, out: &mut Vec<u8>)
    ensures
        final(out)@ == old(out)@ + esc_byte(b),
{
    if b == 34 {
        out.push(92);
        out.push(34);
    } else if b == 92 {
        out.push(92);
        out.push(92);
    } else if b == 8 {
        out.push(92);
        out.push(98);
    } else if b == 9 {
        out.push(92);
        out.push(116);
    } else if b == 10 {
        out.push(92);
        out.push(110);
    } else if b == 12 {
        out.push(92);
        out.push(102);
    } else if b == 13 {
        out.push(92);
        out.push(114);
    } else if b < 32 {
        out.push(92);
        out.push(117);
        out.push(48);
        out.push(48);
        let hi = b / 16;
        let lo = b % 16;
        out.push(if hi < 10 { 48 + hi } else { 87 + hi });
        out.push(if lo < 10 { 48 + lo } else { 87 + lo });
    } else {
        out.push(b);
    }
    proof {
        assert(out@ =~= old(out)@ + esc_byte(b));
    }
}

/// Appends the JSON text of a string.
pub fn write_str(s: &String, out: &mut Vec<u8>)
    ensures
        final(out)@ == old(out)@ + json_str(s@),
{
    out.push(34);
    let bytes: &[u8] = s.as_str().as_bytes();
    assert(bytes@ == encode_utf8(s@));
    let ghost mid = out@;
    let mut i: usize = 0;
    while i < bytes.len()
        invariant
            i <= bytes.len(),
            out@ == mid + esc_bytes(bytes@.subrange(0, i as int)),
        decreases bytes.len() - i,
    {
        let b = *vstd::slice::slice_index_get(bytes, i);
        write_esc_byte(b, out);
        proof {
            assert(bytes@.subrange(0, i + 1) =~= bytes@.subrange(0, i as int).push(bytes@[i as int]));
            lemma_esc_push(bytes@.subrange(0, i as int), bytes@[i as int]);
        }
        i = i + 1;
    }
    out.push(34);
    proof {
        assert(bytes@.subrange(0, bytes@.len() as int) =~= bytes@);
        assert(out@ =~= old(out)@ + json_str(s@));
    }
}

/// Appends the JSON text of a value.
#[verifier::loop_isolation(false)]
#[verifier::rlimit(100)]
pub fn write_json(v: &Value, out: &mut Vec<u8>)
    ensures
        final(out)@ == old(out)@ + json_of(*v),
    decreases *v,
{
    match v {
        Value::Null => {
            out.push(110);
            out.push(117);
            out.push(108);
            out.push(108);
            proof {
                assert(out@ =~= old(out)@ + json_of(*v));
            }
        },
        Value::Bool(b) => {
            if *b {
                out.push(116);
                out.push(114);
                out.push(117);
                out.push(101);
            } else {
                out.push(102);
                out.push(97);
                out.push(108);
                out.push(115);
                out.push(101);
            }
            proof {
                assert(out@ =~= old(out)@ + json_of(*v));
            }
        },
        Value::Number(n) => {
            write_num(*n, out);
        },
        Value::Str(s) => {
            write_str(s, out);
        },
        Value::Array(vs) => {
            out.push(91);
            let ghost mid = out@;
            let mut i: usize = 0;
            while i < vs.len()
                invariant
                    i <= vs.len(),
                    out@ == mid + json_of_arr(vs@.subrange(0, i as int)),
                decreases vs.len() - i,
            {
                if i > 0 {
                    out.push(44);
                }
                proof {
                    assert(*vs == v->Array_0);
                    assert(decreases_to!(*v => v->Array_0));
                    assert(decreases_to!(v->Array_0 => v->Array_0@));
                    assert(decreases_to!(v->Array_0@ => v->Array_0@[i as int]));
                }
                write_json(&vs[i], out);
                proof {
                    let pre = vs@.subrange(0, i as int);
                    let post = vs@.subrange(0, i + 1);
                    assert(post.len() == i + 1);
                    if i == 0 {
                        assert(post[0] == vs@[0]);
                        assert(out@ =~= mid + json_of_arr(post));
                    } else {
                        assert(post.drop_last() =~= pre);
                        assert(post.last() == vs@[i as int]);
                        assert(out@ =~= mid + json_of_arr(post));
                    }
                }
                i = i + 1;
            }
            out.push(93);
            proof {
                assert(vs@.subrange(0, vs@.len() as int) =~= vs@);
                assert(out@ =~= old(out)@ + json_of(*v));
            }
        },
        Value::Object(fs) => {
            out.push(123);
            let ghost mid = out@;
            let mut i: usize = 0;
            while i < fs.len()
                invariant
                    i <= fs.len(),
                    out@ == mid + json_of_obj(fs@.subrange(0, i as int)),
                decreases fs.len() - i,
            {
                if i > 0 {
                    out.push(44);
                }
                write_str(&fs[i].0, out);
                out.push(58);
                proof {
                    assert(*fs == v->Object_0);
                    assert(decreases_to!(*v => v->Object_0));
                    assert(decreases_to!(v->Object_0 => v->Object_0@));
                    assert(decreases_to!(v->Object_0@ => v->Object_0@[i as int]));
                    assert(decreases_to!(v->Object_0@[i as int] => v->Object_0@[i as int].1));
                }
                write_json(&fs[i].1, out);
                proof {
                    let pre = fs@.subrange(0, i as int);
                    let post = fs@.subrange(0, i + 1);
                    assert(post.len() == i + 1);
                    if i == 0 {
                        assert(post[0] == fs@[0]);
                        assert(out@ =~= mid + json_of_obj(post));
                    } else {
                        assert(post.drop_last() =~= pre);
                        assert(post.last() == fs@[i as int]);
                        assert(out@ =~= mid + json_of_obj(post));
                    }
                }
                i = i + 1;
            }
            out.push(125);
            proof {
                assert(fs@.subrange(0, fs@.len() as int) =~= fs@);
                assert(out@ =~= old(out)@ + json_of(*v));
            }
        },
    }
}

} // verus!
