//! The positional level builder: recomputes, for every word, the
//! multi-resolution tree of position-range buckets from the level-zero
//! entries of the positional table.
//!
//! Levels are grouped in powers of the group size, so a higher level is
//! a clean refinement of the one below; a word with too few level-zero
//! entries gets no levels at all. The whole table is rebuilt: the
//! level-zero entries stream through unchanged and the rest is computed.

use vstd::prelude::*;

use roaring::RoaringBitmap;

use crate::bitmap::{bitmap_seq, rb_clone, rb_new, rb_union};
use crate::index::Index;
use crate::seqs::{bytes_eq, bytes_member, clone_bytes, lemma_bytes_view};

verus! {

/// A positional entry, with its posting read as a set.
pub type LevelEntry = ((Seq<u8>, u8, u32, u32), Set<u32>);

/// The positional table with postings read as sets of documents.
pub open spec fn sview(t: Seq<((Vec<u8>, u8, u32, u32), RoaringBitmap)>) -> Seq<LevelEntry> {
    t.map_values(
        |e: ((Vec<u8>, u8, u32, u32), RoaringBitmap)|
            (
                (e.0.0.deep_view(), e.0.1, e.0.2, e.0.3),
                bitmap_seq(e.1).to_set(),
            ),
    )
}

/// The level-zero entries of one word, in table order.
pub open spec fn level0_of(t: Seq<LevelEntry>, w: Seq<u8>) -> Seq<LevelEntry>
    decreases t.len(),
{
    if t.len() == 0 {
        Seq::empty()
    } else {
        let r = level0_of(t.drop_first(), w);
        if t[0].0.1 == 0 && t[0].0.0 == w {
            seq![t[0]] + r
        } else {
            r
        }
    }
}

/// The words with level-zero entries, first occurrence first; `acc`
/// holds the ones already seen.
pub open spec fn words_acc(t: Seq<LevelEntry>, acc: Seq<Seq<u8>>) -> Seq<Seq<u8>>
    decreases t.len(),
{
    if t.len() == 0 {
        acc
    } else if t[0].0.1 == 0 && !acc.contains(t[0].0.0) {
        words_acc(t.drop_first(), acc.push(t[0].0.0))
    } else {
        words_acc(t.drop_first(), acc)
    }
}

/// The union of the postings of a run of entries.
pub open spec fn run_union(chunk: Seq<LevelEntry>) -> Set<u32>
    decreases chunk.len(),
{
    if chunk.len() == 0 {
        Set::empty()
    } else {
        chunk[0].1.union(run_union(chunk.drop_first()))
    }
}

/// One bucket over a run of level-zero entries: the word, the level, the
/// first left bound, the last right bound, and everything the run holds.
pub open spec fn bucket(chunk: Seq<LevelEntry>, w: Seq<u8>, lvl: u8) -> LevelEntry {
    ((w, lvl, chunk[0].0.2, chunk.last().0.3), run_union(chunk))
}

/// The buckets of one level: the level-zero entries cut into runs of
/// `gk`, the last run possibly shorter.
pub open spec fn level_buckets(l0: Seq<LevelEntry>, w: Seq<u8>, lvl: u8, gk: nat) -> Seq<
    LevelEntry,
>
    decreases l0.len(),
{
    if l0.len() == 0 || gk == 0 {
        Seq::empty()
    } else if l0.len() <= gk {
        seq![bucket(l0, w, lvl)]
    } else {
        seq![bucket(l0.take(gk as int), w, lvl)] + level_buckets(
            l0.skip(gk as int),
            w,
            lvl,
            gk,
        )
    }
}

/// All the levels of one word, from `lvl` up, while a level would still
/// hold at least `m` buckets; `fuel` bounds the climb.
pub open spec fn word_levels(
    l0: Seq<LevelEntry>,
    w: Seq<u8>,
    g: nat,
    m: nat,
    gk: nat,
    lvl: u8,
    fuel: nat,
) -> Seq<LevelEntry>
    decreases fuel,
{
    if fuel == 0 || gk == 0 || l0.len() / gk < m || lvl == 255 {
        Seq::empty()
    } else {
        level_buckets(l0, w, lvl, gk) + word_levels(
            l0,
            w,
            g,
            m,
            gk * g,
            (lvl + 1) as u8,
            (fuel - 1) as nat,
        )
    }
}

/// The whole rebuilt table: for each word, its level-zero entries
/// unchanged, then its levels.
pub open spec fn rebuilt(t: Seq<LevelEntry>, words: Seq<Seq<u8>>, g: nat, m: nat) -> Seq<
    LevelEntry,
>
    decreases words.len(),
{
    if words.len() == 0 {
        Seq::empty()
    } else {
        level0_of(t, words[0]) + word_levels(
            level0_of(t, words[0]),
            words[0],
            g,
            m,
            g,
            1,
            level0_of(t, words[0]).len(),
        ) + rebuilt(t, words.drop_first(), g, m)
    }
}

/// Rebuilds the positional level pyramid.
pub struct WordsLevelPositions {
    level_group_size: usize,
    min_level_size: usize,
    update_id: u64,
}

impl WordsLevelPositions {
    /// The configured group size.
    pub closed spec fn group_size(self) -> nat {
        self.level_group_size as nat
    }

    /// The configured minimum level size.
    pub closed spec fn min_size(self) -> nat {
        self.min_level_size as nat
    }

    /// The builder's configuration invariant: groups of at least two,
    /// levels of at least one bucket.
    pub closed spec fn wf(self) -> bool {
        self.level_group_size >= 2 && self.min_level_size >= 1
    }

    /// A builder with the default group size and minimum level size.
    pub fn new(update_id: u64) -> (r: WordsLevelPositions)
        ensures
            r.wf(),
            r.group_size() == 4,
            r.min_size() == 5,
    {
        WordsLevelPositions { level_group_size: 4, min_level_size: 5, update_id }
    }

    /// Sets the group size; values below two are clamped to two.
    pub fn level_group_size(&mut self, value: usize)
        requires
            old(self).wf(),
        ensures
            final(self).wf(),
            final(self).group_size() == (if value >= 2 {
                value as nat
            } else {
                2nat
            }),
            final(self).min_size() == old(self).min_size(),
    {
        self.level_group_size = if value >= 2 {
            value
        } else {
            2
        };
    }

    /// Sets the minimum level size.
    pub fn min_level_size(&mut self, value: usize)
        requires
            old(self).wf(),
            value >= 1,
        ensures
            final(self).wf(),
            final(self).min_size() == value as nat,
            final(self).group_size() == old(self).group_size(),
    {
        self.min_level_size = value;
    }

    /// Clears every entry above level zero and rebuilds the pyramid
    /// from the level-zero entries, word by word.
    pub fn execute(self, index: &mut Index)
        requires
            self.wf(),
        ensures
            sview(final(index).word_level_position_docids@) == rebuilt(
                sview(old(index).word_level_position_docids@),
                words_acc(sview(old(index).word_level_position_docids@), Seq::empty()),
                self.group_size(),
                self.min_size(),
            ),
            final(index).updated_at == old(index).updated_at,
            same_but_levels(*old(index), *final(index)),
    {
        let ghost tv = sview(index.word_level_position_docids@);
        let t = &index.word_level_position_docids;
        // the words present at level zero, in first-seen order
        let mut words: Vec<Vec<u8>> = Vec::new();
        let mut i: usize = 0;
        proof {
            assert(tv.skip(0) =~= tv);
            assert(words.deep_view() =~= Seq::<Seq<u8>>::empty());
        }
        while i < t.len()
            invariant
                i <= t.len(),
                tv == sview(t@),
                t == &index.word_level_position_docids,
                words_acc(tv, Seq::empty()) == words_acc(tv.skip(i as int), words.deep_view()),
            decreases t.len() - i,
        {
            proof {
                assert(tv.skip(i as int)[0] == tv[i as int]);
                assert(tv[i as int] == (
                    (t@[i as int].0.0.deep_view(), t@[i as int].0.1, t@[i as int].0.2, t@[i as int].0.3),
                    bitmap_seq(t@[i as int].1).to_set(),
                ));
                lemma_bytes_view(t@[i as int].0.0);
                assert(tv.skip(i as int).drop_first() =~= tv.skip(i + 1));
            }
            if t[i].0.1 == 0 && !bytes_member(&words, &t[i].0.0) {
                let w = clone_bytes(&t[i].0.0);
                proof {
                    lemma_bytes_view(w);
                }
                let ghost wv0 = words.deep_view();
                words.push(w);
                proof {
                    assert(words.deep_view() =~= wv0.push(tv[i as int].0.0));
                }
            }
            i = i + 1;
        }
        proof {
            assert(tv.skip(tv.len() as int).len() == 0);
            assert(tv.len() == t@.len());
        }
        // rebuild, word by word
        let mut out: Vec<((Vec<u8>, u8, u32, u32), RoaringBitmap)> = Vec::new();
        let mut wi: usize = 0;
        let ghost wsv = words.deep_view();
        proof {
            assert(wsv.skip(0) =~= wsv);
            assert(sview(out@) =~= Seq::<LevelEntry>::empty());
            assert(sview(out@) + rebuilt(tv, wsv, self.group_size(), self.min_size()) =~= rebuilt(
                tv,
                wsv,
                self.group_size(),
                self.min_size(),
            ));
        }
        while wi < words.len()
            invariant
                wi <= words.len(),
                tv == sview(t@),
                t == &index.word_level_position_docids,
                wsv == words.deep_view(),
                self.wf(),
                rebuilt(tv, wsv, self.group_size(), self.min_size()) == sview(out@) + rebuilt(
                    tv,
                    wsv.skip(wi as int),
                    self.group_size(),
                    self.min_size(),
                ),
            decreases words.len() - wi,
        {
            proof {
                assert(wsv.skip(wi as int)[0] == wsv[wi as int]);
                assert(wsv[wi as int] == words@[wi as int].deep_view());
                lemma_bytes_view(words@[wi as int]);
                assert(wsv.skip(wi as int).drop_first() =~= wsv.skip(wi + 1));
            }
            let w = &words[wi];
            let ghost wv = w.deep_view();
            // this word's level-zero entries, in table order
            let mut l0: Vec<((Vec<u8>, u8, u32, u32), RoaringBitmap)> = Vec::new();
            let mut j: usize = 0;
            proof {
                assert(tv.skip(0) =~= tv);
                assert(sview(l0@) =~= Seq::<LevelEntry>::empty());
                assert(sview(l0@) + level0_of(tv.skip(0), wv) =~= level0_of(tv, wv));
            }
            while j < t.len()
                invariant
                    j <= t.len(),
                    tv == sview(t@),
                    t == &index.word_level_position_docids,
                    wv == w.deep_view(),
                    wv == w@,
                    level0_of(tv, wv) == sview(l0@) + level0_of(tv.skip(j as int), wv),
                decreases t.len() - j,
            {
                proof {
                    assert(tv.skip(j as int)[0] == tv[j as int]);
                    assert(tv[j as int] == (
                        (
                            t@[j as int].0.0.deep_view(),
                            t@[j as int].0.1,
                            t@[j as int].0.2,
                            t@[j as int].0.3,
                        ),
                        bitmap_seq(t@[j as int].1).to_set(),
                    ));
                    lemma_bytes_view(t@[j as int].0.0);
                    assert(tv.skip(j as int).drop_first() =~= tv.skip(j + 1));
                }
                let ghost l0v = sview(l0@);
                if t[j].0.1 == 0 && bytes_eq(&t[j].0.0, w) {
                    let key = (clone_bytes(&t[j].0.0), t[j].0.1, t[j].0.2, t[j].0.3);
                    proof {
                        lemma_bytes_view(key.0);
                    }
                    let p = rb_clone(&t[j].1);
                    l0.push((key, p));
                    proof {
                        assert(sview(l0@) =~= l0v.push(tv[j as int]));
                        assert(l0v + (seq![tv[j as int]] + level0_of(tv.skip(j + 1), wv)) =~= sview(
                            l0@,
                        ) + level0_of(tv.skip(j + 1), wv));
                    }
                }
                j = j + 1;
            }
            proof {
                assert(tv.skip(tv.len() as int).len() == 0);
                assert(sview(l0@) + level0_of(tv.skip(tv.len() as int), wv) =~= sview(l0@));
                assert(tv.len() == t@.len());
                assert(sview(l0@) == level0_of(tv, wv));
            }
            let ghost l0v = sview(l0@);
            let n = l0.len();
            proof {
                assert(l0v.len() == n);
            }
            // the level-zero entries stream through unchanged
            let ghost out0 = sview(out@);
            let mut q: usize = 0;
            proof {
                assert(sview(out@) + l0v.skip(0) =~= out0 + l0v);
            }
            while q < l0.len()
                invariant
                    q <= l0.len(),
                    l0v == sview(l0@),
                    out0 + l0v == sview(out@) + l0v.skip(q as int),
                decreases l0.len() - q,
            {
                proof {
                    assert(l0v.skip(q as int)[0] == l0v[q as int]);
                    assert(l0v[q as int] == (
                        (
                            l0@[q as int].0.0.deep_view(),
                            l0@[q as int].0.1,
                            l0@[q as int].0.2,
                            l0@[q as int].0.3,
                        ),
                        bitmap_seq(l0@[q as int].1).to_set(),
                    ));
                    assert(l0v.skip(q as int).drop_first() =~= l0v.skip(q + 1));
                }
                let key = (clone_bytes(&l0[q].0.0), l0[q].0.1, l0[q].0.2, l0[q].0.3);
                proof {
                    lemma_bytes_view(l0@[q as int].0.0);
                    lemma_bytes_view(key.0);
                }
                let p = rb_clone(&l0[q].1);
                let ghost ocur = sview(out@);
                out.push((key, p));
                proof {
                    assert(sview(out@) =~= ocur.push(l0v[q as int]));
                    assert(ocur.push(l0v[q as int]) + l0v.skip(q + 1) =~= ocur + l0v.skip(
                        q as int,
                    ));
                }
                q = q + 1;
            }
            proof {
                assert(l0v.skip(l0v.len() as int).len() == 0);
                assert(sview(out@) =~= out0 + l0v);
            }
            // the levels, while they stay large enough
            let mut gk: usize = self.level_group_size;
            let mut lvl: u8 = 1;
            let ghost outl = sview(out@);
            let ghost g = self.group_size();
            let ghost m = self.min_size();
            proof {
                assert(vstd::arithmetic::power2::pow2(0) == 1) by {
                    vstd::arithmetic::power2::lemma2_to64();
                }
                assert(word_levels(l0v, wv, g, m, g, 1, n as nat) + Seq::<LevelEntry>::empty()
                    =~= word_levels(l0v, wv, g, m, g, 1, n as nat));
            }
            let mut stop = false;
            while !stop && n / gk >= self.min_level_size && lvl < 255
                invariant
                    self.wf(),
                    l0v == sview(l0@),
                    l0v.len() == n,
                    n == l0@.len(),
                    g == self.group_size(),
                    m == self.min_size(),
                    1 <= lvl,
                    2 <= gk,
                    wv == w.deep_view(),
                    stop ==> outl + word_levels(l0v, wv, g, m, g, 1, n as nat) == sview(out@),
                    !stop ==> vstd::arithmetic::power2::pow2((lvl - 1) as nat) <= gk,
                    !stop ==> lvl - 1 <= n,
                    !stop ==> outl + word_levels(l0v, wv, g, m, g, 1, n as nat) == sview(out@)
                        + word_levels(l0v, wv, g, m, gk as nat, lvl, (n - (lvl - 1)) as nat),
                decreases 255 - lvl,
            {
                proof {
                    // the level number stays well below the fuel
                    lemma_pow2_exceeds((lvl - 1) as nat);
                    assert(gk <= n) by (nonlinear_arith)
                        requires
                            n as int / gk as int >= m as int,
                            m >= 1,
                            gk >= 2,
                            n < 0x10000000000000000,
                    ;
                    assert(lvl - 1 < n);
                    assert(word_levels(l0v, wv, g, m, gk as nat, lvl, (n - (lvl - 1)) as nat)
                        == level_buckets(l0v, wv, lvl, gk as nat) + word_levels(
                        l0v,
                        wv,
                        g,
                        m,
                        (gk * g) as nat,
                        (lvl + 1) as u8,
                        (n - lvl) as nat,
                    ));
                }
                // one level: the level-zero entries cut into runs of gk
                let ghost outb = sview(out@);
                let mut pos: usize = 0;
                proof {
                    assert(l0v.skip(0) =~= l0v);
                    assert(sview(out@) + level_buckets(l0v.skip(0), wv, lvl, gk as nat)
                        =~= outb + level_buckets(l0v, wv, lvl, gk as nat));
                }
                while pos < n
                    invariant
                        pos <= n,
                        n == l0@.len(),
                        l0v == sview(l0@),
                        l0v.len() == n,
                        2 <= gk,
                        wv == w.deep_view(),
                        outb + level_buckets(l0v, wv, lvl, gk as nat) == sview(out@)
                            + level_buckets(l0v.skip(pos as int), wv, lvl, gk as nat),
                    decreases n - pos,
                {
                    let end = if n - pos < gk {
                        n
                    } else {
                        pos + gk
                    };
                    let ghost chunk = l0v.subrange(pos as int, end as int);
                    proof {
                        if n - pos <= gk {
                            assert(l0v.skip(pos as int).len() <= gk);
                            assert(chunk =~= l0v.skip(pos as int));
                        } else {
                            assert(l0v.skip(pos as int).take(gk as int) =~= chunk);
                            assert(l0v.skip(pos as int).skip(gk as int) =~= l0v.skip(
                                pos + gk,
                            ));
                        }
                        assert(chunk[0] == l0v[pos as int]);
                        assert(chunk.last() == l0v[end - 1]);
                    }
                    // the run's bounds and the union of its postings
                    let left = l0[pos].0.2;
                    let mut right = l0[pos].0.3;
                    let mut u = rb_new();
                    let mut k: usize = pos;
                    proof {
                        assert(bitmap_seq(u).to_set() =~= Set::<u32>::empty());
                        assert(chunk.take(0) =~= Seq::<LevelEntry>::empty());
                        assert(run_union(chunk.take(0)) =~= Set::<u32>::empty());
                    }
                    while k < end
                        invariant
                            pos <= k <= end <= n,
                            n == l0@.len(),
                            l0v == sview(l0@),
                            l0v.len() == n,
                            chunk == l0v.subrange(pos as int, end as int),
                            bitmap_seq(u).to_set() =~= run_union(chunk.take(k - pos)),
                        decreases end - k,
                    {
                        proof {
                            assert(l0v[k as int] == (
                                (
                                    l0@[k as int].0.0.deep_view(),
                                    l0@[k as int].0.1,
                                    l0@[k as int].0.2,
                                    l0@[k as int].0.3,
                                ),
                                bitmap_seq(l0@[k as int].1).to_set(),
                            ));
                            assert(chunk[k - pos] == l0v[k as int]);
                        }
                        let u2 = rb_union(&u, &l0[k].1);
                        proof {
                            lemma_run_union_push(chunk.take(k - pos), chunk[k - pos]);
                            assert(chunk.take(k - pos).push(chunk[k - pos]) =~= chunk.take(
                                k - pos + 1,
                            ));
                            assert(bitmap_seq(u2).to_set() =~= run_union(chunk.take(k - pos))
                                .union(l0v[k as int].1));
                        }
                        u = u2;
                        k = k + 1;
                    }
                    let right2 = l0[end - 1].0.3;
                    let wkey = clone_bytes(w);
                    proof {
                        lemma_bytes_view(wkey);
                        assert(chunk.take(end - pos) =~= chunk);
                        assert(l0v[end - 1] == (
                            (
                                l0@[end - 1].0.0.deep_view(),
                                l0@[end - 1].0.1,
                                l0@[end - 1].0.2,
                                l0@[end - 1].0.3,
                            ),
                            bitmap_seq(l0@[end - 1].1).to_set(),
                        ));
                        assert(l0v[pos as int] == (
                            (
                                l0@[pos as int].0.0.deep_view(),
                                l0@[pos as int].0.1,
                                l0@[pos as int].0.2,
                                l0@[pos as int].0.3,
                            ),
                            bitmap_seq(l0@[pos as int].1).to_set(),
                        ));
                    }
                    let ghost ocur = sview(out@);
                    out.push(((wkey, lvl, left, right2), u));
                    proof {
                        assert(sview(out@) =~= ocur.push(bucket(chunk, wv, lvl)));
                        if n - pos <= gk {
                            assert(level_buckets(l0v.skip(pos as int), wv, lvl, gk as nat)
                                =~= seq![bucket(chunk, wv, lvl)]);
                            assert(l0v.skip(n as int) =~= Seq::<LevelEntry>::empty());
                            assert(level_buckets(l0v.skip(n as int), wv, lvl, gk as nat)
                                =~= Seq::<LevelEntry>::empty());
                            assert(ocur + (seq![bucket(chunk, wv, lvl)] + Seq::<
                                LevelEntry,
                            >::empty()) =~= sview(out@) + level_buckets(
                                l0v.skip(n as int),
                                wv,
                                lvl,
                                gk as nat,
                            ));
                        } else {
                            assert(level_buckets(l0v.skip(pos as int), wv, lvl, gk as nat)
                                == seq![bucket(chunk, wv, lvl)] + level_buckets(
                                l0v.skip(pos + gk),
                                wv,
                                lvl,
                                gk as nat,
                            ));
                            assert(ocur + (seq![bucket(chunk, wv, lvl)] + level_buckets(
                                l0v.skip(pos + gk),
                                wv,
                                lvl,
                                gk as nat,
                            )) =~= sview(out@) + level_buckets(
                                l0v.skip(pos + gk),
                                wv,
                                lvl,
                                gk as nat,
                            ));
                        }
                    }
                    pos = end;
                }
                proof {
                    assert(l0v.skip(n as int).len() == 0);
                    assert(sview(out@) =~= outb + level_buckets(l0v, wv, lvl, gk as nat));
                }
                // the next level groups g times as much
                if gk > n / self.level_group_size {
                    // the next group size exceeds the entry count: the
                    // levels above hold nothing
                    proof {
                        assert((gk * g) as nat >= (n + 1) as nat) by (nonlinear_arith)
                            requires
                                gk as int > n as int / (self.level_group_size as int),
                                g == self.level_group_size as nat,
                                g >= 2,
                                gk >= 2,
                                n < 0x10000000000000000,
                        ;
                        assert(l0v.len() < (gk * g) as nat);
                        assert(l0v.len() / ((gk * g) as nat) < m) by (nonlinear_arith)
                            requires
                                l0v.len() < (gk * g) as nat,
                                m >= 1,
                                (gk * g) as nat > 0,
                        ;
                        assert(word_levels(
                            l0v,
                            wv,
                            g,
                            m,
                            (gk * g) as nat,
                            (lvl + 1) as u8,
                            (n - lvl) as nat,
                        ) =~= Seq::<LevelEntry>::empty());
                        assert(outl + word_levels(l0v, wv, g, m, g, 1, n as nat) =~= sview(out@));
                    }
                    stop = true;
                    lvl = lvl + 1;
                } else {
                proof {
                    assert(gk * self.level_group_size <= n) by (nonlinear_arith)
                        requires
                            gk as int <= n as int / (self.level_group_size as int),
                            self.level_group_size >= 2,
                            n >= 0,
                    ;
                }
                let gk2 = gk * self.level_group_size;
                proof {
                    assert(gk2 >= 2) by (nonlinear_arith)
                        requires
                            gk2 == gk * self.level_group_size,
                            gk >= 2,
                            self.level_group_size >= 2,
                    ;
                    assert(gk2 == gk * g);
                    assert(vstd::arithmetic::power2::pow2(lvl as nat) <= gk2) by {
                        assert(vstd::arithmetic::power2::pow2(lvl as nat) == 2
                            * vstd::arithmetic::power2::pow2((lvl - 1) as nat)) by {
                            vstd::arithmetic::power2::lemma_pow2_unfold(lvl as nat);
                        }
                        assert(2 * gk <= gk * g) by (nonlinear_arith)
                            requires
                                g >= 2,
                                gk >= 2,
                                g == self.level_group_size as nat,
                        ;
                    }
                }
                gk = gk2;
                lvl = lvl + 1;
                }
            }
            proof {
                // whatever ended the loop, the remaining levels are empty
                if !stop {
                    assert(n / gk < self.min_level_size || lvl == 255);
                    assert(word_levels(l0v, wv, g, m, gk as nat, lvl, (n - (lvl - 1)) as nat)
                        =~= Seq::<LevelEntry>::empty());
                }
                assert(sview(out@) =~= outl + word_levels(l0v, wv, g, m, g, 1, n as nat));
                assert(sview(out@) =~= out0 + (level0_of(tv, wv) + word_levels(
                    l0v,
                    wv,
                    g,
                    m,
                    g,
                    1,
                    level0_of(tv, wv).len(),
                )));
                assert(out0 + (level0_of(tv, wv) + word_levels(
                    l0v,
                    wv,
                    g,
                    m,
                    g,
                    1,
                    level0_of(tv, wv).len(),
                )) + rebuilt(tv, wsv.skip(wi + 1), g, m) =~= out0 + rebuilt(
                    tv,
                    wsv.skip(wi as int),
                    g,
                    m,
                ));
            }
            wi = wi + 1;

        }
        proof {
            assert(wsv.skip(wsv.len() as int).len() == 0);
            assert(rebuilt(tv, wsv.skip(wsv.len() as int), self.group_size(), self.min_size())
                =~= Seq::<LevelEntry>::empty());
            assert(sview(out@) + rebuilt(
                tv,
                wsv.skip(wsv.len() as int),
                self.group_size(),
                self.min_size(),
            ) =~= sview(out@));
            assert(wsv.len() == words@.len());
        }
        index.word_level_position_docids = out;
    }
}

/// Two raised to `e` exceeds `e`.
proof fn lemma_pow2_exceeds(e: nat)
    ensures
        e < vstd::arithmetic::power2::pow2(e),
    decreases e,
{
    if e == 0 {
        assert(vstd::arithmetic::power2::pow2(0) == 1) by {
            vstd::arithmetic::power2::lemma2_to64();
        }
    } else {
        lemma_pow2_exceeds((e - 1) as nat);
        vstd::arithmetic::power2::lemma_pow2_unfold(e);
        vstd::arithmetic::power2::lemma_pow2_pos((e - 1) as nat);
    }
}

/// The union over one more entry.
proof fn lemma_run_union_push(c: Seq<LevelEntry>, e: LevelEntry)
    ensures
        run_union(c.push(e)) == run_union(c).union(e.1),
    decreases c.len(),
{
    if c.len() == 0 {
        assert(c.push(e)[0] == e);
        assert(c.push(e).drop_first() =~= Seq::<LevelEntry>::empty());
        assert(run_union(Seq::<LevelEntry>::empty()) =~= Set::<u32>::empty());
        assert(run_union(c) =~= Set::<u32>::empty());
        assert(run_union(c.push(e)) == e.1.union(run_union(c.push(e).drop_first())));
        assert forall|x: u32| run_union(c.push(e)).contains(x) <==> run_union(c).union(
            e.1,
        ).contains(x) by {}
        assert(run_union(c.push(e)) =~= run_union(c).union(e.1));
    } else {
        assert(c.push(e)[0] == c[0]);
        assert(c.push(e).drop_first() =~= c.drop_first().push(e));
        lemma_run_union_push(c.drop_first(), e);
        assert(run_union(c.push(e)) == c[0].1.union(run_union(c.drop_first().push(e))));
        assert(run_union(c.push(e)) == c[0].1.union(run_union(c.drop_first()).union(e.1)));
        assert(run_union(c) == c[0].1.union(run_union(c.drop_first())));
        assert forall|x: u32| run_union(c.push(e)).contains(x) <==> run_union(c).union(
            e.1,
        ).contains(x) by {
            assert(run_union(c.push(e)).contains(x) == (c[0].1.contains(x) || run_union(
                c.drop_first(),
            ).contains(x) || e.1.contains(x)));
            assert(run_union(c).union(e.1).contains(x) == (c[0].1.contains(x) || run_union(
                c.drop_first(),
            ).contains(x) || e.1.contains(x)));
        }
        assert(run_union(c.push(e)) =~= run_union(c).union(e.1));
    }
}


/// The union over two runs, one after the other.
pub proof fn lemma_run_union_concat(a: Seq<LevelEntry>, b: Seq<LevelEntry>)
    ensures
        run_union(a + b) == run_union(a).union(run_union(b)),
    decreases a.len(),
{
    if a.len() == 0 {
        assert(a + b =~= b);
        assert forall|x: u32| run_union(a + b).contains(x) <==> run_union(a).union(
            run_union(b),
        ).contains(x) by {}
        assert(run_union(a + b) =~= run_union(a).union(run_union(b)));
    } else {
        assert((a + b)[0] == a[0]);
        assert((a + b).drop_first() =~= a.drop_first() + b);
        lemma_run_union_concat(a.drop_first(), b);
        assert(run_union(a + b) == a[0].1.union(run_union(a.drop_first() + b)));
        assert(run_union(a) == a[0].1.union(run_union(a.drop_first())));
        assert forall|x: u32| run_union(a + b).contains(x) <==> run_union(a).union(
            run_union(b),
        ).contains(x) by {}
        assert(run_union(a + b) =~= run_union(a).union(run_union(b)));
    }
}

/// The union of all postings at one level equals the union at level
/// zero: a level is a lossless summary.
pub proof fn lemma_level_union(l0: Seq<LevelEntry>, w: Seq<u8>, lvl: u8, gk: nat)
    requires
        gk >= 1,
    ensures
        run_union(level_buckets(l0, w, lvl, gk)) == run_union(l0),
    decreases l0.len(),
{
    if l0.len() == 0 {
        assert(run_union(level_buckets(l0, w, lvl, gk)) =~= run_union(l0));
    } else if l0.len() <= gk {
        let bs = level_buckets(l0, w, lvl, gk);
        assert(bs == seq![bucket(l0, w, lvl)]);
        assert(bs[0].1 == run_union(l0));
        assert(bs.drop_first() =~= Seq::<LevelEntry>::empty());
        assert(run_union(bs) == bs[0].1.union(run_union(bs.drop_first())));
        assert forall|x: u32| run_union(bs).contains(x) <==> run_union(l0).contains(x) by {}
        assert(run_union(bs) =~= run_union(l0));
    } else {
        let head = l0.take(gk as int);
        let tail = l0.skip(gk as int);
        lemma_level_union(tail, w, lvl, gk);
        let bs = level_buckets(l0, w, lvl, gk);
        assert(bs == seq![bucket(head, w, lvl)] + level_buckets(tail, w, lvl, gk));
        assert(bs[0] == bucket(head, w, lvl));
        assert(bs.drop_first() =~= level_buckets(tail, w, lvl, gk));
        assert(run_union(bs) == bucket(head, w, lvl).1.union(
            run_union(level_buckets(tail, w, lvl, gk)),
        ));
        assert(head + tail =~= l0);
        lemma_run_union_concat(head, tail);
        assert forall|x: u32| run_union(bs).contains(x) <==> run_union(l0).contains(x) by {}
        assert(run_union(bs) =~= run_union(l0));
    }
}

/// A word with fewer than `m * g` level-zero entries gets no levels at
/// all.
pub proof fn lemma_no_levels_when_small(
    l0: Seq<LevelEntry>,
    w: Seq<u8>,
    g: nat,
    m: nat,
    fuel: nat,
)
    requires
        g >= 1,
        l0.len() < m * g,
    ensures
        word_levels(l0, w, g, m, g, 1, fuel) == Seq::<LevelEntry>::empty(),
{
    assert(l0.len() / g < m) by (nonlinear_arith)
        requires
            g >= 1,
            l0.len() < m * g,
    ;
}

/// The level-zero rows are position ranges: each row's right bound is
/// at least its left, and rows do not overlap and ascend.
pub open spec fn rows_ordered(l0: Seq<LevelEntry>) -> bool {
    &&& forall|i: int| 0 <= i < l0.len() ==> (#[trigger] l0[i]).0.2 <= l0[i].0.3
    &&& forall|i: int, j: int| 0 <= i < j < l0.len() ==> (#[trigger] l0[i]).0.3 <= (
        #[trigger] l0[j]).0.2
}

/// Every bucket of a level covers one run of exactly `gk` consecutive
/// level-zero rows, except possibly the last, which covers what is
/// left; its bounds are the run's first left and last right, so the
/// right bound is at least the left, and its posting is the run's
/// union.
pub proof fn lemma_buckets_shape(l0: Seq<LevelEntry>, w: Seq<u8>, lvl: u8, gk: nat)
    requires
        gk >= 1,
        rows_ordered(l0),
    ensures
        forall|i: int|
            0 <= i < level_buckets(l0, w, lvl, gk).len() ==> (#[trigger] level_buckets(
                l0,
                w,
                lvl,
                gk,
            )[i]) == bucket(
                l0.subrange(
                    i * gk,
                    if (i + 1) * gk <= l0.len() {
                        (i + 1) * gk
                    } else {
                        l0.len() as int
                    },
                ),
                w,
                lvl,
            ),
        forall|i: int|
            0 <= i < level_buckets(l0, w, lvl, gk).len() ==> #[trigger] (i * gk) < l0.len(),
        forall|i: int|
            0 <= i < level_buckets(l0, w, lvl, gk).len() ==> (#[trigger] level_buckets(
                l0,
                w,
                lvl,
                gk,
            )[i]).0.2 <= level_buckets(l0, w, lvl, gk)[i].0.3,
    decreases l0.len(),
{
    let bs = level_buckets(l0, w, lvl, gk);
    if l0.len() == 0 {
    } else if l0.len() <= gk {
        assert(bs == seq![bucket(l0, w, lvl)]);
        assert(l0.subrange(0, l0.len() as int) =~= l0);
        assert(l0[0].0.2 <= l0[l0.len() - 1].0.3) by {
            if l0.len() > 1 {
                assert(l0[0].0.3 <= l0[l0.len() - 1].0.2);
            }
        }
        assert forall|i: int| 0 <= i < bs.len() implies (#[trigger] bs[i]) == bucket(
            l0.subrange(
                i * gk,
                if (i + 1) * gk <= l0.len() {
                    (i + 1) * gk
                } else {
                    l0.len() as int
                },
            ),
            w,
            lvl,
        ) && #[trigger] (i * gk) < l0.len() && bs[i].0.2 <= bs[i].0.3 by {
            assert(i == 0);
            assert(0 * gk == 0) by (nonlinear_arith);
            assert((0 + 1) * gk == gk) by (nonlinear_arith);
            if gk <= l0.len() {
                assert(l0.len() == gk);
                assert(l0.subrange(0, gk as int) =~= l0);
            }
        }
        assert forall|i: int| 0 <= i < bs.len() implies #[trigger] (i * gk) < l0.len() by {
            assert(bs[i] == bs[i]);
        }
    } else {
        let head = l0.take(gk as int);
        let tail = l0.skip(gk as int);
        assert(rows_ordered(tail)) by {
            assert forall|i: int| 0 <= i < tail.len() implies (#[trigger] tail[i]).0.2
                <= tail[i].0.3 by {
                assert(tail[i] == l0[i + gk]);
            }
            assert forall|i: int, j: int| 0 <= i < j < tail.len() implies (
            #[trigger] tail[i]).0.3 <= (#[trigger] tail[j]).0.2 by {
                assert(tail[i] == l0[i + gk]);
                assert(tail[j] == l0[j + gk]);
            }
        }
        lemma_buckets_shape(tail, w, lvl, gk);
        assert(bs == seq![bucket(head, w, lvl)] + level_buckets(tail, w, lvl, gk));
        assert forall|i: int| 0 <= i < bs.len() implies (#[trigger] bs[i]) == bucket(
            l0.subrange(
                i * gk,
                if (i + 1) * gk <= l0.len() {
                    (i + 1) * gk
                } else {
                    l0.len() as int
                },
            ),
            w,
            lvl,
        ) && #[trigger] (i * gk) < l0.len() && bs[i].0.2 <= bs[i].0.3 by {
            if i == 0 {
                assert(0 * gk == 0) by (nonlinear_arith);
                assert((0 + 1) * gk == gk) by (nonlinear_arith);
                assert(bs[0] == bucket(head, w, lvl));
                assert(head =~= l0.subrange(0, gk as int));
                assert(head[0] == l0[0]);
                assert(head.last() == l0[gk - 1]);
                assert(l0[0].0.2 <= l0[gk - 1].0.3) by {
                    if gk > 1 {
                        assert(l0[0].0.3 <= l0[gk - 1].0.2);
                    }
                }
            } else {
                let tb = level_buckets(tail, w, lvl, gk);
                assert(bs[i] == tb[i - 1]);
                assert((i - 1) * gk == i * gk - gk) by (nonlinear_arith);
                assert(i * gk == (i + 1) * gk - gk) by (nonlinear_arith);
                assert((i - 1) * gk < tail.len());
                assert(tb[i - 1] == bucket(
                    tail.subrange(
                        (i - 1) * gk,
                        if i * gk <= tail.len() {
                            i * gk
                        } else {
                            tail.len() as int
                        },
                    ),
                    w,
                    lvl,
                ));
                assert(tail.subrange(
                    (i - 1) * gk,
                    if i * gk <= tail.len() {
                        i * gk
                    } else {
                        tail.len() as int
                    },
                ) =~= l0.subrange(
                    i * gk,
                    if (i + 1) * gk <= l0.len() {
                        (i + 1) * gk
                    } else {
                        l0.len() as int
                    },
                ));
                assert((i - 1) * gk < tail.len());
                assert(i * gk < l0.len());
            }
        }
        assert forall|i: int| 0 <= i < bs.len() implies #[trigger] (i * gk) < l0.len() by {
            assert(bs[i] == bs[i]);
        }
    }
}

/// Every other part of the index is untouched by the rebuild.
pub open spec fn same_but_levels(o: Index, nw: Index) -> bool {
    &&& nw.primary_key == o.primary_key
    &&& nw.fields_ids_map == o.fields_ids_map
    &&& nw.field_distribution == o.field_distribution
    &&& nw.documents_ids == o.documents_ids
    &&& nw.external_documents_ids == o.external_documents_ids
    &&& nw.words_fst == o.words_fst
    &&& nw.word_docids == o.word_docids
    &&& nw.word_prefix_docids == o.word_prefix_docids
    &&& nw.words_prefixes_fst == o.words_prefixes_fst
    &&& nw.docid_word_positions == o.docid_word_positions
    &&& nw.word_pair_proximity_docids == o.word_pair_proximity_docids
    &&& nw.word_prefix_pair_proximity_docids == o.word_prefix_pair_proximity_docids
    &&& nw.word_prefix_level_position_docids == o.word_prefix_level_position_docids
    &&& nw.field_id_word_count_docids == o.field_id_word_count_docids
    &&& nw.facet_id_f64_docids == o.facet_id_f64_docids
    &&& nw.facet_id_string_docids == o.facet_id_string_docids
    &&& nw.faceted_fields_ids == o.faceted_fields_ids
    &&& nw.number_faceted_documents_ids == o.number_faceted_documents_ids
    &&& nw.string_faceted_documents_ids == o.string_faceted_documents_ids
    &&& nw.field_id_docid_facet_f64s == o.field_id_docid_facet_f64s
    &&& nw.field_id_docid_facet_strings == o.field_id_docid_facet_strings
    &&& nw.documents == o.documents
}

} // verus!
