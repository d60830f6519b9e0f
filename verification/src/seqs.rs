//! Orderings and sorting helpers for byte strings and document identifiers.
//!
//! Words, prefixes and external identifiers are byte strings ordered
//! lexicographically; document identifiers are `u32` ordered numerically.
//! The deletion pipeline sorts both kinds before building finite-state sets,
//! so the orderings and a deduplicating sort live here.

use vstd::prelude::*;

verus! {

/// Strict lexicographic order on byte strings.
pub open spec fn lex_lt(a: Seq<u8>, b: Seq<u8>) -> bool
    decreases a.len(),
{
    if b.len() == 0 {
        false
    } else if a.len() == 0 {
        true
    } else if a[0] < b[0] {
        true
    } else if a[0] > b[0] {
        false
    } else {
        lex_lt(a.drop_first(), b.drop_first())
    }
}

/// A sequence of byte strings in strictly increasing lexicographic order.
pub open spec fn strict_sorted_bytes(s: Seq<Seq<u8>>) -> bool {
    forall|i: int, j: int| 0 <= i < j < s.len() ==> lex_lt(s[i], s[j])
}

/// A sequence of document identifiers in strictly increasing order.
pub open spec fn strict_sorted_u32(s: Seq<u32>) -> bool {
    forall|i: int, j: int| 0 <= i < j < s.len() ==> s[i] < s[j]
}

/// Exactly one of `a < b`, `a == b`, `b < a` holds.
pub proof fn lemma_lex_connected(a: Seq<u8>, b: Seq<u8>)
    ensures
        lex_lt(a, b) || lex_lt(b, a) || a == b,
        lex_lt(a, b) ==> !lex_lt(b, a) && a != b,
    decreases a.len() + b.len(),
{
    if a.len() == 0 && b.len() == 0 {
        assert(a =~= b);
    } else if a.len() != 0 && b.len() != 0 && a[0] == b[0] {
        lemma_lex_connected(a.drop_first(), b.drop_first());
        if a.drop_first() == b.drop_first() {
            assert forall|i: int| 0 <= i < a.len() implies a[i] == b[i] by {
                if i > 0 {
                    assert(a.drop_first()[i - 1] == a[i]);
                    assert(b.drop_first()[i - 1] == b[i]);
                }
            }
            assert(a =~= b);
        }
        if a == b {
            assert(a.drop_first() =~= b.drop_first());
        }
    } else {
        if a == b && a.len() != 0 {
            assert(a[0] == b[0]);
        }
    }
}

/// Lexicographic order is transitive.
pub proof fn lemma_lex_trans(a: Seq<u8>, b: Seq<u8>, c: Seq<u8>)
    requires
        lex_lt(a, b),
        lex_lt(b, c),
    ensures
        lex_lt(a, c),
    decreases a.len() + b.len() + c.len(),
{
    if a.len() != 0 && b.len() != 0 && c.len() != 0 {
        if a[0] == b[0] && b[0] == c[0] {
            lemma_lex_trans(a.drop_first(), b.drop_first(), c.drop_first());
        }
    }
}

/// Whether `a` comes strictly before `b` in lexicographic byte order.
pub fn bytes_lt(a: &Vec<u8>, b: &Vec<u8>) -> (r: bool)
    ensures
        r == lex_lt(a@, b@),
{
    let mut i: usize = 0;
    proof {
        assert(a@.skip(0) =~= a@);
        assert(b@.skip(0) =~= b@);
    }
    loop
        invariant
            i <= a.len(),
            i <= b.len(),
            lex_lt(a@, b@) == lex_lt(a@.skip(i as int), b@.skip(i as int)),
        decreases a.len() - i,
    {
        if i == b.len() {
            return false;
        }
        if i == a.len() {
            return true;
        }
        let x = a[i];
        let y = b[i];
        if x < y {
            return true;
        }
        if x > y {
            return false;
        }
        proof {
            assert(a@.skip(i as int).drop_first() =~= a@.skip(i + 1));
            assert(b@.skip(i as int).drop_first() =~= b@.skip(i + 1));
        }
        i = i + 1;
    }
}

/// Whether two byte strings hold the same bytes.
pub fn bytes_eq(a: &Vec<u8>, b: &Vec<u8>) -> (r: bool)
    ensures
        r == (a@ == b@),
{
    if a.len() != b.len() {
        return false;
    }
    let mut i: usize = 0;
    while i < a.len()
        invariant
            i <= a.len(),
            a.len() == b.len(),
            forall|j: int| 0 <= j < i ==> a@[j] == b@[j],
        decreases a.len() - i,
    {
        if a[i] != b[i] {
            return false;
        }
        i = i + 1;
    }
    proof {
        assert(a@ =~= b@);
    }
    true
}

/// Copies a byte string.
pub fn clone_bytes(v: &Vec<u8>) -> (r: Vec<u8>)
    ensures
        r@ == v@,
{
    let mut r: Vec<u8> = Vec::new();
    let mut i: usize = 0;
    while i < v.len()
        invariant
            i <= v.len(),
            r@ =~= v@.subrange(0, i as int),
        decreases v.len() - i,
    {
        r.push(v[i]);
        proof {
            assert(r@ =~= v@.subrange(0, i + 1));
        }
        i = i + 1;
    }
    proof {
        assert(r@ =~= v@);
    }
    r
}

/// A byte string's deep view is its view.
pub proof fn lemma_bytes_view(v: Vec<u8>)
    ensures
        v.deep_view() == v@,
{
    assert(v.deep_view() =~= v@);
}

/// Whether a list of byte strings holds `x`.
pub fn bytes_member(v: &Vec<Vec<u8>>, x: &Vec<u8>) -> (r: bool)
    ensures
        r == v.deep_view().contains(x@),
{
    let mut i: usize = 0;
    while i < v.len()
        invariant
            i <= v.len(),
            forall|j: int| 0 <= j < i ==> v.deep_view()[j] != x@,
        decreases v.len() - i,
    {
        assert(v.deep_view()[i as int] == v@[i as int]@);
        if bytes_eq(&v[i], x) {
            return true;
        }
        i = i + 1;
    }
    false
}

/// The least position in `r` whose entry is not lexicographically below `x`.
fn lower_bound_bytes(r: &Vec<Vec<u8>>, x: &Vec<u8>) -> (j: usize)
    ensures
        j <= r.len(),
        forall|k: int| 0 <= k < j ==> lex_lt(r.deep_view()[k], x@),
        j < r.len() ==> !lex_lt(r.deep_view()[j as int], x@),
{
    let mut j: usize = 0;
    while j < r.len()
        invariant
            j <= r.len(),
            forall|k: int| 0 <= k < j ==> lex_lt(r.deep_view()[k], x@),
        decreases r.len() - j,
    {
        assert(r.deep_view()[j as int] == r@[j as int]@);
        if !bytes_lt(&r[j], x) {
            return j;
        }
        j = j + 1;
    }
    j
}

/// Sorts byte strings into strictly increasing lexicographic order,
/// dropping duplicates; the set of members is unchanged.
pub fn sort_dedup_bytes(v: &Vec<Vec<u8>>) -> (r: Vec<Vec<u8>>)
    ensures
        strict_sorted_bytes(r.deep_view()),
        forall|x: Seq<u8>| r.deep_view().contains(x) <==> v.deep_view().contains(x),
{
    let mut r: Vec<Vec<u8>> = Vec::new();
    let mut i: usize = 0;
    while i < v.len()
        invariant
            i <= v.len(),
            strict_sorted_bytes(r.deep_view()),
            forall|x: Seq<u8>| #[trigger] r.deep_view().contains(x) <==> v.deep_view().subrange(
                0,
                i as int,
            ).contains(x),
        decreases v.len() - i,
    {
        assert(v.deep_view()[i as int] == v@[i as int]@);
        let x: Vec<u8> = clone_bytes(&v[i]);
        let ghost prev = r.deep_view();
        let j = lower_bound_bytes(&r, &x);
        let ghost jj = j as int;
        let mut skip = false;
        if j < r.len() {
            assert(r.deep_view()[jj] == r@[jj]@);
            if bytes_eq(&r[j], &x) {
                skip = true;
            }
        }
        if !skip {
            proof {
                if jj < prev.len() {
                    lemma_lex_connected(prev[jj], x@);
                    assert(lex_lt(x@, prev[jj]));
                }
            }
            r.insert(j, x);
            proof {
                let cur = r.deep_view();
                assert forall|k: int| 0 <= k < cur.len() implies cur[k] == (if k < jj {
                    prev[k]
                } else if k == jj {
                    x@
                } else {
                    prev[k - 1]
                }) by {
                    assert(cur[k] == r@[k]@);
                    if k < jj {
                        assert(prev[k] == r@[k]@);
                    } else if k > jj {
                        assert(prev[k - 1] == r@[k]@);
                    }
                }
                assert forall|p: int, q: int| 0 <= p < q < cur.len() implies lex_lt(
                    cur[p],
                    cur[q],
                ) by {
                    if p < jj && q == jj {
                    } else if p == jj && q > jj {
                        if q - 1 > jj {
                            lemma_lex_trans(x@, prev[jj], prev[q - 1]);
                        }
                    } else {
                    }
                }
                assert forall|y: Seq<u8>| #[trigger] cur.contains(y) <==> (prev.contains(y) || y
                    == x@) by {
                    if cur.contains(y) {
                        let w = choose|w: int| 0 <= w < cur.len() && cur[w] == y;
                        if w < jj {
                            assert(prev[w] == y);
                            assert(prev.contains(y));
                        } else if w > jj {
                            assert(prev[w - 1] == y);
                            assert(prev.contains(y));
                        }
                    }
                    if prev.contains(y) {
                        let w = choose|w: int| 0 <= w < prev.len() && prev[w] == y;
                        if w < jj {
                            assert(cur[w] == y);
                            assert(cur.contains(y));
                        } else {
                            assert(cur[w + 1] == y);
                            assert(cur.contains(y));
                        }
                    }
                    if y == x@ {
                        assert(cur[jj] == y);
                        assert(cur.contains(y));
                    }
                }
            }
        } else {
            proof {
                assert(prev.contains(x@));
            }
        }
        proof {
            let pre = v.deep_view().subrange(0, i as int);
            let post = v.deep_view().subrange(0, i + 1);
            assert(post =~= pre.push(v.deep_view()[i as int]));
            assert forall|y: Seq<u8>| #[trigger] r.deep_view().contains(y) <==> post.contains(
                y,
            ) by {
                if post.contains(y) {
                    let w = choose|w: int| 0 <= w < post.len() && post[w] == y;
                    if w < i {
                        assert(pre[w] == y);
                        assert(pre.contains(y));
                    } else {
                        assert(y == x@);
                    }
                }
                if pre.contains(y) {
                    let w = choose|w: int| 0 <= w < pre.len() && pre[w] == y;
                    assert(post[w] == y);
                    assert(post.contains(y));
                }
                if y == x@ {
                    assert(post[i as int] == y);
                    assert(post.contains(y));
                }
            }
        }
        i = i + 1;
    }
    proof {
        assert(v.deep_view().subrange(0, v.len() as int) =~= v.deep_view());
    }
    r
}

} // verus!
