//! Keyword extraction: a TF-IDF ranker over precomputed corpus IDF weights
//! and a TextRank ranker over a word co-occurrence graph.
//!
//! Both consume the tagged-word sequence, filtered by a POS whitelist
//! (empty = no filtering) and by word length (single characters are
//! dropped).  Weights are fixed-point integers, ranked descending; ties
//! keep first-occurrence order.

use vstd::prelude::*;

use crate::arith::{sadd, sadd_exec, smul, smul_exec, sdiv_exec, SCORE_MAX};
use crate::dict::{Dict, WordEntry};
use crate::tagger::{tag, tag_pairs, TaggedWord};

verus! {

/// Whether a tagged word passes the filter: at least two characters, and a
/// whitelisted tag (an empty whitelist admits every tag).
pub open spec fn passes(p: (Seq<char>, Seq<char>), wl: Seq<Seq<char>>) -> bool {
    p.0.len() >= 2 && (wl.len() == 0 || wl.contains(p.1))
}

/// The filtered tagged-word sequence, first `k` entries.
pub open spec fn filtered_rec(
    ps: Seq<(Seq<char>, Seq<char>)>,
    wl: Seq<Seq<char>>,
    k: int,
) -> Seq<Seq<char>>
    decreases k,
{
    if k <= 0 {
        Seq::empty()
    } else {
        let r = filtered_rec(ps, wl, k - 1);
        if passes(ps[k - 1], wl) {
            r.push(ps[k - 1].0)
        } else {
            r
        }
    }
}

/// The document's filtered word sequence.
pub open spec fn doc_words(d: Seq<WordEntry>, s: Seq<char>, wl: Seq<Seq<char>>) -> Seq<Seq<char>> {
    let ps = tag_pairs(d, s, true);
    filtered_rec(ps, wl, ps.len() as int)
}

/// First index of `w` in a count list, or -1.
pub open spec fn cidx(cs: Seq<(Seq<char>, u64)>, w: Seq<char>) -> int
    decreases cs.len(),
{
    if cs.len() == 0 {
        -1
    } else if cs.first().0 == w {
        0
    } else {
        let r = cidx(cs.drop_first(), w);
        if r < 0 {
            -1
        } else {
            r + 1
        }
    }
}

proof fn lemma_cidx(cs: Seq<(Seq<char>, u64)>, w: Seq<char>)
    ensures
        cidx(cs, w) == -1 ==> forall|k: int| 0 <= k < cs.len() ==> (#[trigger] cs[k]).0 != w,
        cidx(cs, w) != -1 ==> 0 <= cidx(cs, w) < cs.len() && cs[cidx(cs, w)].0 == w,
    decreases cs.len(),
{
    if cs.len() > 0 && cs.first().0 != w {
        lemma_cidx(cs.drop_first(), w);
        if cidx(cs, w) == -1 {
            assert forall|k: int| 0 <= k < cs.len() implies (#[trigger] cs[k]).0 != w by {
                if k > 0 {
                    assert(cs.drop_first()[k - 1] == cs[k]);
                }
            }
        } else {
            assert(cs.drop_first()[cidx(cs.drop_first(), w)] == cs[cidx(cs, w)]);
        }
    }
}

proof fn lemma_cidx_first(cs: Seq<(Seq<char>, u64)>, w: Seq<char>, i: int)
    requires
        0 <= i < cs.len(),
        cs[i].0 == w,
        forall|k: int| 0 <= k < i ==> (#[trigger] cs[k]).0 != w,
    ensures
        cidx(cs, w) == i,
    decreases cs.len(),
{
    if i > 0 {
        assert forall|k: int| 0 <= k < i - 1 implies (#[trigger] cs.drop_first()[k]).0 != w by {
            assert(cs.drop_first()[k] == cs[k + 1]);
        }
        lemma_cidx_first(cs.drop_first(), w, i - 1);
    }
}

/// Record one occurrence of `w`.
pub open spec fn bump(cs: Seq<(Seq<char>, u64)>, w: Seq<char>) -> Seq<(Seq<char>, u64)> {
    let i = cidx(cs, w);
    if i >= 0 {
        cs.update(i, (w, (cs[i].1 + 1) as u64))
    } else {
        cs.push((w, 1u64))
    }
}

/// Occurrence counts of the first `k` words, in first-seen order.
pub open spec fn counts_rec(ws: Seq<Seq<char>>, k: int) -> Seq<(Seq<char>, u64)>
    decreases k,
{
    if k <= 0 {
        Seq::empty()
    } else {
        bump(counts_rec(ws, k - 1), ws[k - 1])
    }
}

/// Counts stay bounded by the number of words seen.
proof fn lemma_counts_bound(ws: Seq<Seq<char>>, k: int)
    requires
        0 <= k,
    ensures
        forall|q: int|
            0 <= q < counts_rec(ws, k).len() ==> (#[trigger] counts_rec(ws, k)[q]).1 <= k,
    decreases k,
{
    if k > 0 {
        lemma_counts_bound(ws, k - 1);
        lemma_cidx(counts_rec(ws, k - 1), ws[k - 1]);
    }
}

/// Whitelist membership, decided.
fn wl_contains(wl: &Vec<Vec<char>>, tag: &[char]) -> (r: bool)
    ensures
        r == wl@.map_values(|t: Vec<char>| t@).contains(tag@),
{
    let ghost wlv = wl@.map_values(|t: Vec<char>| t@);
    let n = wl.len();
    let mut i: usize = 0;
    while i < n
        invariant
            n == wl@.len(),
            wlv == wl@.map_values(|t: Vec<char>| t@),
            0 <= i <= n,
            forall|k: int| 0 <= k < i ==> #[trigger] wlv[k] != tag@,
        decreases n - i,
    {
        assert(wlv[i as int] == wl@[i as int]@);
        if crate::text::chars_eq(wl[i].as_slice(), tag) {
            assert(wlv.contains(tag@));
            return true;
        }
        i += 1;
    }
    proof {
        if wlv.contains(tag@) {
            let k = choose|k: int| 0 <= k < wlv.len() && wlv[k] == tag@;
            assert(false);
        }
    }
    false
}

/// The filtered word sequence of a sentence, executed.
pub fn doc_words_exec(dict: &Dict, s: &[char], wl: &Vec<Vec<char>>) -> (r: Vec<Vec<char>>)
    ensures
        r@.map_values(|w: Vec<char>| w@) == doc_words(
            dict@,
            s@,
            wl@.map_values(|t: Vec<char>| t@),
        ),
{
    let ghost d = dict@;
    let ghost sv = s@;
    let ghost wlv = wl@.map_values(|t: Vec<char>| t@);
    let pairs = tag(dict, s, true);
    let ghost ps = tag_pairs(d, sv, true);
    let n = pairs.len();
    let mut out: Vec<Vec<char>> = Vec::new();
    let mut i: usize = 0;
    while i < n
        invariant
            d == dict@,
            sv == s@,
            wlv == wl@.map_values(|t: Vec<char>| t@),
            ps == tag_pairs(d, sv, true),
            n == pairs@.len() == ps.len(),
            pairs@.map_values(|tw: TaggedWord| (tw.word@, tw.tag@)) == ps,
            0 <= i <= n,
            out@.map_values(|w: Vec<char>| w@) == filtered_rec(ps, wlv, i as int),
        decreases n - i,
    {
        assert(ps[i as int] == (pairs@[i as int].word@, pairs@[i as int].tag@));
        let keep = pairs[i].word.len() >= 2 && (wl.len() == 0 || wl_contains(
            wl,
            pairs[i].tag.as_slice(),
        ));
        proof {
            assert(keep == passes(ps[i as int], wlv));
        }
        if keep {
            let w = crate::dict::clone_word(&pairs[i].word);
            let ghost prev = out@;
            out.push(w);
            proof {
                assert(out@.map_values(|x: Vec<char>| x@) =~= prev.map_values(
                    |x: Vec<char>| x@,
                ).push(ps[i as int].0));
            }
        }
        i += 1;
    }
    out
}

/// Occurrence counts, executed.
pub fn counts_exec(ws: &Vec<Vec<char>>) -> (r: Vec<(Vec<char>, u64)>)
    ensures
        r@.map_values(|c: (Vec<char>, u64)| (c.0@, c.1)) == counts_rec(
            ws@.map_values(|w: Vec<char>| w@),
            ws@.len() as int,
        ),
{
    let ghost wsv = ws@.map_values(|w: Vec<char>| w@);
    let n = ws.len();
    let mut out: Vec<(Vec<char>, u64)> = Vec::new();
    let mut i: usize = 0;
    while i < n
        invariant
            wsv == ws@.map_values(|w: Vec<char>| w@),
            n == ws@.len(),
            0 <= i <= n,
            out@.map_values(|c: (Vec<char>, u64)| (c.0@, c.1)) == counts_rec(wsv, i as int),
            forall|q: int| 0 <= q < out@.len() ==> (#[trigger] out@[q]).1 <= i,
        decreases n - i,
    {
        let ghost cs = counts_rec(wsv, i as int);
        assert(wsv[i as int] == ws@[i as int]@);
        let m = out.len();
        let mut j: usize = 0;
        let mut found = false;
        while j < m && !found
            invariant
                n == ws@.len(),
                0 <= i < n,
                wsv == ws@.map_values(|w: Vec<char>| w@),
                cs == out@.map_values(|c: (Vec<char>, u64)| (c.0@, c.1)),
                m == out@.len() == cs.len(),
                0 <= j <= m,
                !found ==> forall|k: int| 0 <= k < j ==> (#[trigger] cs[k]).0 != wsv[i as int],
                found ==> j < m && cs[j as int].0 == wsv[i as int] && (forall|k: int|
                    0 <= k < j ==> (#[trigger] cs[k]).0 != wsv[i as int]),
            decreases m - j + (if found {
                0int
            } else {
                1int
            }),
        {
            assert(cs[j as int] == (out@[j as int].0@, out@[j as int].1));
            if crate::text::chars_eq(out[j].0.as_slice(), ws[i].as_slice()) {
                found = true;
            } else {
                j += 1;
            }
        }
        if found {
            proof {
                lemma_cidx_first(cs, wsv[i as int], j as int);
            }
            let cnt = out[j].1;
            let wcopy = crate::dict::clone_word(&out[j].0);
            let ghost prev = out@;
            out.remove(j);
            out.insert(j, (wcopy, cnt + 1));
            proof {
                assert(out@ =~= prev.update(j as int, (out@[j as int].0, (cnt + 1) as u64)));
                assert(out@.map_values(|c: (Vec<char>, u64)| (c.0@, c.1)) =~= counts_rec(
                    wsv,
                    i + 1,
                ));
            }
        } else {
            proof {
                lemma_cidx(cs, wsv[i as int]);
                if cidx(cs, wsv[i as int]) >= 0 {
                    assert(false);
                }
            }
            let wcopy = crate::dict::clone_word(&ws[i]);
            let ghost prev = out@;
            out.push((wcopy, 1));
            proof {
                assert(out@.map_values(|c: (Vec<char>, u64)| (c.0@, c.1)) =~= counts_rec(
                    wsv,
                    i + 1,
                ));
            }
        }
        i += 1;
    }
    out
}

/// A keyword: a word with its non-negative rank weight.
pub struct Keyword {
    pub word: Vec<char>,
    pub weight: u64,
}

/// Weights are non-increasing.
pub open spec fn sorted_desc(ks: Seq<(Seq<char>, u64)>) -> bool {
    forall|i: int, j: int| 0 <= i <= j < ks.len() ==> (#[trigger] ks[i]).1 >= (#[trigger] ks[j]).1
}

/// Stable descending insertion: `x` goes after every weight >= its own.
pub open spec fn insert_desc(x: (Seq<char>, u64), ss: Seq<(Seq<char>, u64)>) -> Seq<
    (Seq<char>, u64),
>
    decreases ss.len(),
{
    if ss.len() == 0 {
        seq![x]
    } else if ss.first().1 >= x.1 {
        seq![ss.first()] + insert_desc(x, ss.drop_first())
    } else {
        seq![x] + ss
    }
}

/// Stable insertion sort by weight, descending, over the first `k` items.
pub open spec fn isort_rec(ss: Seq<(Seq<char>, u64)>, k: int) -> Seq<(Seq<char>, u64)>
    decreases k,
{
    if k <= 0 {
        Seq::empty()
    } else {
        insert_desc(ss[k - 1], isort_rec(ss, k - 1))
    }
}

pub open spec fn isort(ss: Seq<(Seq<char>, u64)>) -> Seq<(Seq<char>, u64)> {
    isort_rec(ss, ss.len() as int)
}

proof fn lemma_insert_sorted(x: (Seq<char>, u64), ss: Seq<(Seq<char>, u64)>)
    requires
        sorted_desc(ss),
    ensures
        sorted_desc(insert_desc(x, ss)),
        insert_desc(x, ss).len() == ss.len() + 1,
    decreases ss.len(),
{
    let r = insert_desc(x, ss);
    if ss.len() == 0 {
    } else if ss.first().1 >= x.1 {
        assert forall|i: int, j: int|
            0 <= i <= j < ss.drop_first().len() implies (#[trigger] ss.drop_first()[i]).1
            >= (#[trigger] ss.drop_first()[j]).1 by {
            assert(ss.drop_first()[i] == ss[i + 1]);
            assert(ss.drop_first()[j] == ss[j + 1]);
        }
        lemma_insert_sorted(x, ss.drop_first());
        let rr = insert_desc(x, ss.drop_first());
        assert forall|i: int, j: int| 0 <= i <= j < r.len() implies (#[trigger] r[i]).1
            >= (#[trigger] r[j]).1 by {
            if i == 0 {
                if j > 0 {
                    assert(r[j] == rr[j - 1]);
                    lemma_insert_elems(x, ss.drop_first(), j - 1);
                    if rr[j - 1] != x {
                        assert(ss.drop_first().contains(rr[j - 1]));
                        let w = choose|w: int|
                            0 <= w < ss.drop_first().len() && ss.drop_first()[w] == rr[j - 1];
                        assert(ss[w + 1] == rr[j - 1]);
                        assert(ss[0].1 >= ss[w + 1].1);
                    }
                }
            } else {
                assert(r[i] == rr[i - 1]);
                assert(r[j] == rr[j - 1]);
            }
        }
    } else {
        assert forall|i: int, j: int| 0 <= i <= j < r.len() implies (#[trigger] r[i]).1
            >= (#[trigger] r[j]).1 by {
            if i > 0 {
                assert(r[i] == ss[i - 1]);
                assert(r[j] == ss[j - 1]);
            } else if j > 0 {
                assert(r[j] == ss[j - 1]);
                assert(ss[0].1 < x.1);
            }
        }
    }
}

/// Every element of an insertion result is the new item or an old element
/// with weight bounded by the neighbourhood it lands in.
proof fn lemma_insert_elems(x: (Seq<char>, u64), ss: Seq<(Seq<char>, u64)>, q: int)
    requires
        0 <= q < insert_desc(x, ss).len(),
    ensures
        insert_desc(x, ss)[q] == x || ss.contains(insert_desc(x, ss)[q]),
        insert_desc(x, ss)[q].1 <= x.1 || ss.contains(insert_desc(x, ss)[q]),
    decreases ss.len(),
{
    let r = insert_desc(x, ss);
    if ss.len() == 0 {
    } else if ss.first().1 >= x.1 {
        if q == 0 {
            assert(ss.contains(ss.first())) by {
                assert(ss[0] == ss.first());
            }
        } else {
            lemma_insert_elems(x, ss.drop_first(), q - 1);
            assert(r[q] == insert_desc(x, ss.drop_first())[q - 1]);
            if ss.drop_first().contains(r[q]) {
                let w = choose|w: int|
                    0 <= w < ss.drop_first().len() && ss.drop_first()[w] == r[q];
                assert(ss[w + 1] == r[q]);
                assert(ss.contains(r[q]));
            }
        }
    } else {
        if q > 0 {
            assert(r[q] == ss[q - 1]);
            assert(ss.contains(ss[q - 1]));
        }
    }
}

proof fn lemma_isort_sorted(ss: Seq<(Seq<char>, u64)>, k: int)
    requires
        0 <= k <= ss.len(),
    ensures
        sorted_desc(isort_rec(ss, k)),
        isort_rec(ss, k).len() == k,
    decreases k,
{
    if k > 0 {
        lemma_isort_sorted(ss, k - 1);
        lemma_insert_sorted(ss[k - 1], isort_rec(ss, k - 1));
    }
}

/// Where the new item lands: before the first strictly smaller weight.
proof fn lemma_insert_at(x: (Seq<char>, u64), ss: Seq<(Seq<char>, u64)>, p: int)
    requires
        0 <= p <= ss.len(),
        forall|k: int| 0 <= k < p ==> (#[trigger] ss[k]).1 >= x.1,
        p < ss.len() ==> ss[p].1 < x.1,
    ensures
        insert_desc(x, ss) == ss.take(p) + seq![x] + ss.skip(p),
    decreases ss.len(),
{
    if ss.len() == 0 {
        assert(insert_desc(x, ss) =~= ss.take(0) + seq![x] + ss.skip(0));
    } else if ss.first().1 >= x.1 {
        assert(p > 0);
        assert forall|k: int| 0 <= k < p - 1 implies (#[trigger] ss.drop_first()[k]).1 >= x.1 by {
            assert(ss.drop_first()[k] == ss[k + 1]);
        }
        if p - 1 < ss.drop_first().len() {
            assert(ss.drop_first()[p - 1] == ss[p as int]);
        }
        lemma_insert_at(x, ss.drop_first(), p - 1);
        assert(insert_desc(x, ss) =~= ss.take(p) + seq![x] + ss.skip(p));
    } else {
        assert(p == 0);
        assert(insert_desc(x, ss) =~= ss.take(0) + seq![x] + ss.skip(0));
    }
}

/// Insertion sort by weight, descending and stable, executed.
pub fn sort_desc(mut v: Vec<Keyword>) -> (r: Vec<Keyword>)
    ensures
        r@.map_values(|kw: Keyword| (kw.word@, kw.weight)) == isort(
            v@.map_values(|kw: Keyword| (kw.word@, kw.weight)),
        ),
        sorted_desc(r@.map_values(|kw: Keyword| (kw.word@, kw.weight))),
{
    let ghost ssv = v@.map_values(|kw: Keyword| (kw.word@, kw.weight));
    let n = v.len();
    let mut out: Vec<Keyword> = Vec::new();
    let mut i: usize = 0;
    while i < n
        invariant
            ssv == v@.map_values(|kw: Keyword| (kw.word@, kw.weight)),
            n == v@.len(),
            0 <= i <= n,
            out@.map_values(|kw: Keyword| (kw.word@, kw.weight)) == isort_rec(ssv, i as int),
            out@.len() == i,
            sorted_desc(out@.map_values(|kw: Keyword| (kw.word@, kw.weight))),
        decreases n - i,
    {
        let ghost sorted = out@.map_values(|kw: Keyword| (kw.word@, kw.weight));
        let x = Keyword {
            word: crate::dict::clone_word(&v[i].word),
            weight: v[i].weight,
        };
        let ghost xv = (x.word@, x.weight);
        proof {
            assert(xv == ssv[i as int]);
        }
        let m = out.len();
        let mut p: usize = 0;
        while p < m && out[p].weight >= x.weight
            invariant
                m == out@.len(),
                sorted == out@.map_values(|kw: Keyword| (kw.word@, kw.weight)),
                xv.1 == x.weight,
                0 <= p <= m,
                forall|k: int| 0 <= k < p ==> (#[trigger] sorted[k]).1 >= xv.1,
            decreases m - p,
        {
            assert(sorted[p as int].1 == out@[p as int].weight);
            p += 1;
        }
        proof {
            if p < m {
                assert(sorted[p as int].1 == out@[p as int].weight);
            }
            lemma_insert_at(xv, sorted, p as int);
            lemma_insert_sorted(xv, sorted);
        }
        out.insert(p, x);
        proof {
            assert(out@.map_values(|kw: Keyword| (kw.word@, kw.weight)) =~= sorted.take(p as int)
                + seq![xv] + sorted.skip(p as int));
        }
        i += 1;
    }
    out
}

/// Keep the first `top_k` keywords.
pub fn take_top(mut v: Vec<Keyword>, top_k: usize) -> (r: Vec<Keyword>)
    ensures
        r@ == v@.take(vstd::math::min(top_k as int, v@.len() as int)),
{
    let ghost pv = v@;
    if v.len() > top_k {
        v.truncate(top_k);
        proof {
            assert(v@ =~= pv.take(top_k as int));
        }
    } else {
        proof {
            assert(v@ =~= pv.take(pv.len() as int));
        }
    }
    v
}

/// Index of the first comma, or the length.
pub open spec fn find_comma(s: Seq<char>) -> int
    decreases s.len(),
{
    if s.len() == 0 {
        0
    } else if s.first() == ',' {
        0
    } else {
        1 + find_comma(s.drop_first())
    }
}

proof fn lemma_find_comma(s: Seq<char>)
    ensures
        0 <= find_comma(s) <= s.len(),
    decreases s.len(),
{
    if s.len() > 0 && s.first() != ',' {
        lemma_find_comma(s.drop_first());
    }
}

proof fn lemma_find_comma_at(s: Seq<char>, k: int)
    requires
        0 <= k <= s.len(),
        forall|m: int| 0 <= m < k ==> s[m] != ',',
        k < s.len() ==> s[k] == ',',
    ensures
        find_comma(s) == k,
    decreases s.len(),
{
    if s.len() > 0 && k > 0 {
        assert forall|m: int| 0 <= m < k - 1 implies s.drop_first()[m] != ',' by {
            assert(s.drop_first()[m] == s[m + 1]);
        }
        if k - 1 < s.drop_first().len() {
            assert(s.drop_first()[k - 1] == s[k]);
        }
        lemma_find_comma_at(s.drop_first(), k - 1);
    }
}

/// The comma-separated pieces of a POS whitelist, empties kept.
pub open spec fn raw_pos(s: Seq<char>) -> Seq<Seq<char>>
    decreases s.len(),
    via raw_pos_decreases
{
    let p = find_comma(s);
    if p >= s.len() {
        seq![s]
    } else {
        seq![s.take(p)] + raw_pos(s.skip(p + 1))
    }
}

#[via_fn]
proof fn raw_pos_decreases(s: Seq<char>) {
    lemma_find_comma(s);
}

/// A POS whitelist parsed from a comma-separated list, empties dropped.
pub open spec fn pos_list_of(s: Seq<char>) -> Seq<Seq<char>> {
    raw_pos(s).filter(|f: Seq<char>| f.len() > 0)
}

/// Split a comma-separated POS whitelist, dropping empty pieces.
pub fn parse_pos_list(s: &[char]) -> (r: Vec<Vec<char>>)
    ensures
        r@.map_values(|v: Vec<char>| v@) == pos_list_of(s@),
{
    let n = s.len();
    let mut out: Vec<Vec<char>> = Vec::new();
    let mut start: usize = 0;
    let mut i: usize = 0;
    proof {
        assert(s@.skip(0) =~= s@);
        assert(out@.map_values(|v: Vec<char>| v@) + pos_list_of(s@) =~= pos_list_of(s@));
    }
    while i < n
        invariant
            n == s@.len(),
            0 <= start <= i <= n,
            forall|k: int| start <= k < i ==> s@[k] != ',',
            pos_list_of(s@) =~= out@.map_values(|v: Vec<char>| v@) + pos_list_of(
                s@.skip(start as int),
            ),
        decreases n - i,
    {
        if *vstd::slice::slice_index_get(s, i) == ',' {
            proof {
                let suf = s@.skip(start as int);
                assert forall|m: int| 0 <= m < i - start implies suf[m] != ',' by {
                    assert(suf[m] == s@[start + m]);
                }
                assert(suf[i - start] == s@[i as int]);
                lemma_find_comma_at(suf, i - start);
                let fld = s@.subrange(start as int, i as int);
                assert(suf.take(i - start) =~= fld);
                assert(suf.skip(i - start + 1) =~= s@.skip(i + 1));
                assert(raw_pos(suf) == seq![fld] + raw_pos(s@.skip(i + 1)));
                assert((seq![fld] + raw_pos(s@.skip(i + 1))).drop_first() =~= raw_pos(
                    s@.skip(i + 1),
                ));
                crate::dictfile::lemma_filter_first(seq![fld] + raw_pos(s@.skip(i + 1)));
            }
            if i > start {
                let fld = crate::text::word_of(s, start, i);
                let ghost prev = out@;
                out.push(fld);
                proof {
                    assert(out@.map_values(|v: Vec<char>| v@) =~= prev.map_values(
                        |v: Vec<char>| v@,
                    ).push(s@.subrange(start as int, i as int)));
                }
            }
            start = i + 1;
        }
        i += 1;
    }
    proof {
        let suf = s@.skip(start as int);
        assert forall|m: int| 0 <= m < suf.len() implies suf[m] != ',' by {
            assert(suf[m] == s@[start + m]);
        }
        lemma_find_comma_at(suf, suf.len() as int);
        assert(raw_pos(suf) == seq![suf]);
        crate::dictfile::lemma_filter_first(seq![suf]);
        assert(seq![suf].drop_first() =~= Seq::<Seq<char>>::empty());
        assert(pos_list_of(suf) == if suf.len() > 0 {
            seq![suf]
        } else {
            Seq::<Seq<char>>::empty()
        });
        assert(suf =~= s@.subrange(start as int, n as int));
    }
    if start < n {
        let fld = crate::text::word_of(s, start, n);
        out.push(fld);
        proof {
            assert(out@.map_values(|v: Vec<char>| v@) =~= pos_list_of(s@));
        }
    } else {
        proof {
            assert(out@.map_values(|v: Vec<char>| v@) =~= pos_list_of(s@));
        }
    }
    out
}

/// The built-in corpus IDF table (fixed point, scale 1000); words absent
/// from the table fall back to the table's mean value.
pub open spec fn idf_of(w: Seq<char>) -> u64 {
    if w == seq!['\u{5317}', '\u{4eac}'] {
        7000u64
    } else if w == seq!['\u{4e2d}', '\u{56fd}'] {
        2000u64
    } else if w == seq!['\u{5927}', '\u{5b66}'] {
        6000u64
    } else {
        5000u64
    }
}

fn mk2(a: char, b: char) -> (v: Vec<char>)
    ensures
        v@ == seq![a, b],
{
    let mut v = Vec::new();
    v.push(a);
    v.push(b);
    proof {
        assert(v@ =~= seq![a, b]);
    }
    v
}

fn idf_exec(w: &[char]) -> (r: u64)
    ensures
        r == idf_of(w@),
{
    if crate::text::chars_eq(w, mk2('\u{5317}', '\u{4eac}').as_slice()) {
        7000
    } else if crate::text::chars_eq(w, mk2('\u{4e2d}', '\u{56fd}').as_slice()) {
        2000
    } else if crate::text::chars_eq(w, mk2('\u{5927}', '\u{5b66}').as_slice()) {
        6000
    } else {
        5000
    }
}

/// TF-IDF weight: term count times IDF over the total word count.
pub open spec fn tfidf_weight(c: u64, idf: u64, total: int) -> u64 {
    ((c * idf) / total) as u64
}

/// The ranked TF-IDF keyword list.
pub open spec fn tfidf_spec(
    d: Seq<WordEntry>,
    s: Seq<char>,
    top_k: int,
    wl: Seq<Seq<char>>,
) -> Seq<(Seq<char>, u64)> {
    let ws = doc_words(d, s, wl);
    let cs = counts_rec(ws, ws.len() as int);
    let kws = cs.map_values(
        |c: (Seq<char>, u64)| (c.0, tfidf_weight(c.1, idf_of(c.0), ws.len() as int)),
    );
    let sorted = isort(kws);
    sorted.take(vstd::math::min(top_k, sorted.len() as int))
}

/// TF-IDF extraction: distinct filtered words weighted by term frequency
/// times corpus IDF, ranked descending, top `top_k`.
pub fn extract_tags_by_tfidf(
    dict: &Dict,
    s: &[char],
    top_k: usize,
    wl: &Vec<Vec<char>>,
) -> (r: Vec<Keyword>)
    ensures
        r@.map_values(|kw: Keyword| (kw.word@, kw.weight)) == tfidf_spec(
            dict@,
            s@,
            top_k as int,
            wl@.map_values(|t: Vec<char>| t@),
        ),
        sorted_desc(r@.map_values(|kw: Keyword| (kw.word@, kw.weight))),
        r@.len() <= top_k,
{
    let ghost d = dict@;
    let ghost sv = s@;
    let ghost wlv = wl@.map_values(|t: Vec<char>| t@);
    let ws = doc_words_exec(dict, s, wl);
    let ghost wsv = ws@.map_values(|w: Vec<char>| w@);
    let cs = counts_exec(&ws);
    let ghost csv = counts_rec(wsv, wsv.len() as int);
    let total = ws.len();
    let n = cs.len();
    let mut kws: Vec<Keyword> = Vec::new();
    let mut i: usize = 0;
    while i < n
        invariant
            csv == cs@.map_values(|c: (Vec<char>, u64)| (c.0@, c.1)),
            csv == counts_rec(wsv, wsv.len() as int),
            wsv == ws@.map_values(|w: Vec<char>| w@),
            wsv.len() == ws@.len(),
            total == ws@.len(),
            n == cs@.len() == csv.len(),
            0 <= i <= n,
            kws@.len() == i,
            forall|q: int|
                0 <= q < i ==> (#[trigger] kws@[q]).word@ == csv[q].0 && kws@[q].weight
                    == tfidf_weight(csv[q].1, idf_of(csv[q].0), total as int),
        decreases n - i,
    {
        proof {
            if total == 0 {
                assert(counts_rec(wsv, 0) == Seq::<(Seq<char>, u64)>::empty());
                assert(false);
            }
            assert(csv[i as int] == (cs@[i as int].0@, cs@[i as int].1));
        }
        let idf = idf_exec(cs[i].0.as_slice());
        let c = cs[i].1;
        proof {
            lemma_counts_bound(wsv, wsv.len() as int);
            assert(c <= total);
            assert(idf <= 7000);
            assert((c as int * idf as int) / (total as int) <= idf) by (nonlinear_arith)
                requires
                    0 <= c <= total,
                    0 < total,
                    0 <= idf,
            ;
            assert(c as int * idf as int <= 0xffff_ffff_ffff_ffffint * 7000) by (nonlinear_arith)
                requires
                    0 <= c as int <= 0xffff_ffff_ffff_ffffint,
                    0 <= idf as int <= 7000,
            ;
        }
        let q: u128 = (c as u128 * idf as u128) / (total as u128);
        let w = crate::dict::clone_word(&cs[i].0);
        kws.push(Keyword { word: w, weight: q as u64 });
        i += 1;
    }
    proof {
        assert(kws@.map_values(|kw: Keyword| (kw.word@, kw.weight)) =~= csv.map_values(
            |c: (Seq<char>, u64)| (c.0, tfidf_weight(c.1, idf_of(c.0), total as int)),
        ));
    }
    let sorted = sort_desc(kws);
    proof {
        let ghost ssv = sorted@.map_values(|kw: Keyword| (kw.word@, kw.weight));
        assert forall|a: int, b2: int| 0 <= a <= b2 < vstd::math::min(
            top_k as int,
            ssv.len() as int,
        ) implies (#[trigger] ssv.take(vstd::math::min(top_k as int, ssv.len() as int))[a]).1
            >= (#[trigger] ssv.take(vstd::math::min(top_k as int, ssv.len() as int))[b2]).1 by {
            assert(ssv.take(vstd::math::min(top_k as int, ssv.len() as int))[a] == ssv[a]);
            assert(ssv.take(vstd::math::min(top_k as int, ssv.len() as int))[b2] == ssv[b2]);
        }
    }
    let r = take_top(sorted, top_k);
    proof {
        assert(r@.map_values(|kw: Keyword| (kw.word@, kw.weight)) =~= tfidf_spec(
            d,
            sv,
            top_k as int,
            wlv,
        ));
    }
    r
}

/// Fixed-point scale of TextRank scores.
pub const RANK_SCALE: i128 = 1_000_000;

/// Base term of the rank update: `(1 - d) * RANK_SCALE` with damping 0.85.
pub const RANK_BASE: i128 = 150_000;

/// Convergence threshold.
pub const RANK_EPS: i128 = 100;

/// Maximum iteration count.
pub const RANK_ITERS: u32 = 10;

/// Whether positions `p` and `p + o` are a window co-occurrence of the
/// distinct words `x` and `y` (window span 5, unordered, no self edges).
pub open spec fn win_pair(
    fw: Seq<Seq<char>>,
    x: Seq<char>,
    y: Seq<char>,
    p: int,
    o: int,
) -> bool {
    &&& 0 <= p
    &&& p + o < fw.len()
    &&& 1 <= o <= 4
    &&& x != y
    &&& ((fw[p] == x && fw[p + o] == y) || (fw[p] == y && fw[p + o] == x))
}

/// Co-occurrences at position `p`, offsets `o .. 5`.
pub open spec fn pc_o(fw: Seq<Seq<char>>, x: Seq<char>, y: Seq<char>, p: int, o: int) -> int
    decreases 5 - o,
{
    if o >= 5 {
        0
    } else {
        (if win_pair(fw, x, y, p, o) {
            1int
        } else {
            0int
        }) + pc_o(fw, x, y, p, o + 1)
    }
}

/// Co-occurrences from position `p` on.
pub open spec fn pc_p(fw: Seq<Seq<char>>, x: Seq<char>, y: Seq<char>, p: int) -> int
    decreases fw.len() - p,
{
    if p < 0 || p >= fw.len() {
        0
    } else {
        pc_o(fw, x, y, p, 1) + pc_p(fw, x, y, p + 1)
    }
}

/// The undirected edge weight between two distinct words.
pub open spec fn edge_w(fw: Seq<Seq<char>>, x: Seq<char>, y: Seq<char>) -> int {
    pc_p(fw, x, y, 0)
}

proof fn lemma_pc_o_bound(fw: Seq<Seq<char>>, x: Seq<char>, y: Seq<char>, p: int, o: int)
    requires
        0 <= o <= 5,
    ensures
        0 <= pc_o(fw, x, y, p, o) <= 5 - o,
    decreases 5 - o,
{
    if o < 5 {
        lemma_pc_o_bound(fw, x, y, p, o + 1);
    }
}

proof fn lemma_pc_p_bound(fw: Seq<Seq<char>>, x: Seq<char>, y: Seq<char>, p: int)
    requires
        0 <= p <= fw.len(),
    ensures
        0 <= pc_p(fw, x, y, p) <= 4 * (fw.len() - p),
        pc_p(fw, x, y, p) <= 4 * fw.len(),
    decreases fw.len() - p,
{
    if p < fw.len() {
        lemma_pc_p_bound(fw, x, y, p + 1);
        lemma_pc_o_bound(fw, x, y, p, 1);
    }
}

/// Count the co-occurrences of two distinct words.
fn edge_w_exec(fw: &Vec<Vec<char>>, x: &[char], y: &[char]) -> (r: i128)
    ensures
        r == edge_w(fw@.map_values(|w: Vec<char>| w@), x@, y@),
        0 <= r <= SCORE_MAX,
{
    let ghost fwv = fw@.map_values(|w: Vec<char>| w@);
    let n = fw.len();
    let mut acc: i128 = 0;
    let mut p: usize = 0;
    proof {
        lemma_pc_p_bound(fwv, x@, y@, 0);
    }
    while p < n
        invariant
            fwv == fw@.map_values(|w: Vec<char>| w@),
            n == fw@.len() == fwv.len(),
            0 <= p <= n,
            acc + pc_p(fwv, x@, y@, p as int) == pc_p(fwv, x@, y@, 0),
            0 <= acc <= 4 * n,
        decreases n - p,
    {
        proof {
            lemma_pc_p_bound(fwv, x@, y@, 0);
            lemma_pc_p_bound(fwv, x@, y@, p as int);
            lemma_pc_p_bound(fwv, x@, y@, p + 1);
            lemma_pc_o_bound(fwv, x@, y@, p as int, 1);
            assert(pc_p(fwv, x@, y@, p as int) == pc_o(fwv, x@, y@, p as int, 1) + pc_p(
                fwv,
                x@,
                y@,
                p + 1,
            ));
        }
        let mut o: usize = 1;
        while o < 5
            invariant
                fwv == fw@.map_values(|w: Vec<char>| w@),
                n == fw@.len() == fwv.len(),
                0 <= p < n,
                1 <= o <= 5,
                acc + pc_o(fwv, x@, y@, p as int, o as int) + pc_p(fwv, x@, y@, p + 1) == pc_p(
                    fwv,
                    x@,
                    y@,
                    0,
                ),
                0 <= acc <= 4 * n,
                acc + pc_o(fwv, x@, y@, p as int, o as int) + pc_p(fwv, x@, y@, p + 1) <= 4 * n,
            decreases 5 - o,
        {
            proof {
                lemma_pc_o_bound(fwv, x@, y@, p as int, o as int);
                lemma_pc_o_bound(fwv, x@, y@, p as int, o + 1);
                lemma_pc_p_bound(fwv, x@, y@, p + 1);
            }
            let hit: bool = if o < n - p {
                let same = crate::text::chars_eq(x, y);
                if same {
                    false
                } else {
                    let a = crate::text::chars_eq(fw[p].as_slice(), x);
                    let b = crate::text::chars_eq(fw[p].as_slice(), y);
                    let c = crate::text::chars_eq(fw[p + o].as_slice(), x);
                    let d = crate::text::chars_eq(fw[p + o].as_slice(), y);
                    proof {
                        assert(fwv[p as int] == fw@[p as int]@);
                        assert(fwv[p + o] == fw@[(p + o) as int]@);
                    }
                    (a && d) || (b && c)
                }
            } else {
                false
            };
            proof {
                assert(hit == win_pair(fwv, x@, y@, p as int, o as int));
            }
            if hit {
                acc = acc + 1;
            }
            o += 1;
        }
        p += 1;
    }
    proof {
        assert(pc_p(fwv, x@, y@, n as int) == 0);
    }
    acc
}

/// Row sums of the co-occurrence matrix, first `k` columns (saturating).
pub open spec fn rowsum(mt: Seq<Seq<int>>, j: int, k: int) -> int
    decreases k,
{
    if k <= 0 {
        0
    } else {
        sadd(rowsum(mt, j, k - 1), mt[j][k - 1])
    }
}

/// One inner sum of the rank update, first `k` neighbours (saturating).
pub open spec fn rank_inner(
    mt: Seq<Seq<int>>,
    outs: Seq<int>,
    r: Seq<int>,
    i: int,
    k: int,
) -> int
    decreases k,
{
    if k <= 0 {
        0
    } else {
        let t = if outs[k - 1] > 0 {
            smul(mt[i][k - 1], r[k - 1]) / outs[k - 1]
        } else {
            0
        };
        sadd(rank_inner(mt, outs, r, i, k - 1), t)
    }
}

/// One rank-propagation step.
pub open spec fn rank_step(mt: Seq<Seq<int>>, outs: Seq<int>, r: Seq<int>) -> Seq<int> {
    Seq::new(
        r.len(),
        |i: int| sadd(RANK_BASE as int, smul(85, rank_inner(mt, outs, r, i, r.len() as int)) / 100),
    )
}

/// Largest absolute change between two rank vectors, first `k` entries.
pub open spec fn rank_delta(r1: Seq<int>, r2: Seq<int>, k: int) -> int
    decreases k,
{
    if k <= 0 {
        0
    } else {
        let d = if r1[k - 1] >= r2[k - 1] {
            r1[k - 1] - r2[k - 1]
        } else {
            r2[k - 1] - r1[k - 1]
        };
        let p = rank_delta(r1, r2, k - 1);
        if d > p {
            d
        } else {
            p
        }
    }
}

/// Iterate the rank update until convergence or exhaustion.
pub open spec fn rank_iter(mt: Seq<Seq<int>>, outs: Seq<int>, r: Seq<int>, k: int) -> Seq<int>
    decreases k,
{
    if k <= 0 {
        r
    } else {
        let nx = rank_step(mt, outs, r);
        if rank_delta(r, nx, r.len() as int) < RANK_EPS as int {
            nx
        } else {
            rank_iter(mt, outs, nx, k - 1)
        }
    }
}

/// The co-occurrence matrix over the distinct filtered words.
pub open spec fn mat_of(fw: Seq<Seq<char>>, dw: Seq<Seq<char>>) -> Seq<Seq<int>> {
    Seq::new(dw.len(), |i: int| Seq::new(dw.len(), |j: int| edge_w(fw, dw[i], dw[j])))
}

/// The out-weight sums of the matrix.
pub open spec fn outs_of(mt: Seq<Seq<int>>, n: int) -> Seq<int> {
    Seq::new(n as nat, |j: int| rowsum(mt, j, n))
}

/// The final TextRank scores of the distinct filtered words.
pub open spec fn final_ranks(fw: Seq<Seq<char>>, dw: Seq<Seq<char>>) -> Seq<int> {
    let mt = mat_of(fw, dw);
    let outs = outs_of(mt, dw.len() as int);
    rank_iter(mt, outs, Seq::new(dw.len(), |i: int| RANK_SCALE as int), RANK_ITERS as int)
}

/// Clamp a non-negative rank into a weight.
pub open spec fn rank_weight(r: int) -> u64 {
    if r > u64::MAX {
        u64::MAX
    } else if r < 0 {
        0u64
    } else {
        r as u64
    }
}

/// The ranked TextRank keyword list.
pub open spec fn textrank_spec(
    d: Seq<WordEntry>,
    s: Seq<char>,
    top_k: int,
    wl: Seq<Seq<char>>,
) -> Seq<(Seq<char>, u64)> {
    let fw = doc_words(d, s, wl);
    let dw = counts_rec(fw, fw.len() as int).map_values(|c: (Seq<char>, u64)| c.0);
    let ranks = final_ranks(fw, dw);
    let kws = Seq::new(dw.len(), |i: int| (dw[i], rank_weight(ranks[i])));
    let sorted = isort(kws);
    sorted.take(vstd::math::min(top_k, sorted.len() as int))
}

/// TextRank extraction: a damped rank propagation over the word
/// co-occurrence graph, ranked descending, top `top_k`.
pub fn extract_tags_by_textrank(
    dict: &Dict,
    s: &[char],
    top_k: usize,
    wl: &Vec<Vec<char>>,
) -> (r: Vec<Keyword>)
    ensures
        r@.map_values(|kw: Keyword| (kw.word@, kw.weight)) == textrank_spec(
            dict@,
            s@,
            top_k as int,
            wl@.map_values(|t: Vec<char>| t@),
        ),
        sorted_desc(r@.map_values(|kw: Keyword| (kw.word@, kw.weight))),
        r@.len() <= top_k,
{
    let ghost d = dict@;
    let ghost sv = s@;
    let ghost wlv = wl@.map_values(|t: Vec<char>| t@);
    let fw = doc_words_exec(dict, s, wl);
    let ghost fwv = fw@.map_values(|w: Vec<char>| w@);
    let cs = counts_exec(&fw);
    let n = cs.len();
    let ghost dwv = counts_rec(fwv, fwv.len() as int).map_values(|c: (Seq<char>, u64)| c.0);
    let mut dw: Vec<Vec<char>> = Vec::new();
    let mut i0: usize = 0;
    while i0 < n
        invariant
            cs@.map_values(|c: (Vec<char>, u64)| (c.0@, c.1)) == counts_rec(
                fwv,
                fwv.len() as int,
            ),
            dwv == counts_rec(fwv, fwv.len() as int).map_values(|c: (Seq<char>, u64)| c.0),
            n == cs@.len() == dwv.len(),
            0 <= i0 <= n,
            dw@.len() == i0,
            forall|q: int| 0 <= q < i0 ==> (#[trigger] dw@[q])@ == dwv[q],
        decreases n - i0,
    {
        proof {
            assert(counts_rec(fwv, fwv.len() as int)[i0 as int] == (
                cs@[i0 as int].0@,
                cs@[i0 as int].1,
            ));
        }
        dw.push(crate::dict::clone_word(&cs[i0].0));
        i0 += 1;
    }
    let ghost mt = mat_of(fwv, dwv);
    let mut mv: Vec<Vec<i128>> = Vec::new();
    let mut i: usize = 0;
    while i < n
        invariant
            fwv == fw@.map_values(|w: Vec<char>| w@),
            n == dw@.len() == dwv.len(),
            forall|q: int| 0 <= q < n ==> (#[trigger] dw@[q])@ == dwv[q],
            mt == mat_of(fwv, dwv),
            0 <= i <= n,
            mv@.len() == i,
            forall|q: int, z: int|
                0 <= q < i && 0 <= z < n ==> (#[trigger] mv@[q]@[z]) == mt[q][z] && 0 <= mv@[q]@[z]
                    <= SCORE_MAX,
            forall|q: int| 0 <= q < i ==> (#[trigger] mv@[q])@.len() == n,
        decreases n - i,
    {
        let mut row: Vec<i128> = Vec::new();
        let mut j: usize = 0;
        while j < n
            invariant
                fwv == fw@.map_values(|w: Vec<char>| w@),
                n == dw@.len() == dwv.len(),
                forall|q: int| 0 <= q < n ==> (#[trigger] dw@[q])@ == dwv[q],
                mt == mat_of(fwv, dwv),
                0 <= i < n,
                0 <= j <= n,
                row@.len() == j,
                forall|z: int|
                    0 <= z < j ==> (#[trigger] row@[z]) == mt[i as int][z] && 0 <= row@[z]
                        <= SCORE_MAX,
            decreases n - j,
        {
            let e = edge_w_exec(&fw, dw[i].as_slice(), dw[j].as_slice());
            row.push(e);
            j += 1;
        }
        mv.push(row);
        i += 1;
    }
    let ghost outs = outs_of(mt, n as int);
    let mut ov: Vec<i128> = Vec::new();
    let mut j2: usize = 0;
    while j2 < n
        invariant
            n == mv@.len(),
            mt == mat_of(fwv, dwv),
            n == dwv.len(),
            forall|q: int, z: int|
                0 <= q < n && 0 <= z < n ==> (#[trigger] mv@[q]@[z]) == mt[q][z] && 0 <= mv@[q]@[z]
                    <= SCORE_MAX,
            forall|q: int| 0 <= q < n ==> (#[trigger] mv@[q])@.len() == n,
            outs == outs_of(mt, n as int),
            0 <= j2 <= n,
            ov@.len() == j2,
            forall|z: int|
                0 <= z < j2 ==> (#[trigger] ov@[z]) == outs[z] && 0 <= ov@[z] <= SCORE_MAX,
        decreases n - j2,
    {
        let mut acc: i128 = 0;
        let mut k: usize = 0;
        while k < n
            invariant
                n == mv@.len(),
                forall|q: int, z: int|
                    0 <= q < n && 0 <= z < n ==> (#[trigger] mv@[q]@[z]) == mt[q][z] && 0
                        <= mv@[q]@[z] <= SCORE_MAX,
                forall|q: int| 0 <= q < n ==> (#[trigger] mv@[q])@.len() == n,
                0 <= j2 < n,
                0 <= k <= n,
                acc == rowsum(mt, j2 as int, k as int),
                0 <= acc <= SCORE_MAX,
            decreases n - k,
        {
            acc = sadd_exec(acc, mv[j2][k]);
            k += 1;
        }
        ov.push(acc);
        proof {
            assert(outs[j2 as int] == rowsum(mt, j2 as int, n as int));
        }
        j2 += 1;
    }
    let mut cur: Vec<i128> = Vec::new();
    let mut z0: usize = 0;
    while z0 < n
        invariant
            0 <= z0 <= n,
            cur@.len() == z0,
            forall|z: int| 0 <= z < z0 ==> (#[trigger] cur@[z]) == RANK_SCALE,
        decreases n - z0,
    {
        cur.push(RANK_SCALE);
        z0 += 1;
    }
    let ghost init = Seq::new(dwv.len(), |i: int| RANK_SCALE as int);
    proof {
        assert(cur@.map_values(|v: i128| v as int) =~= init);
    }
    let ghost fin = rank_iter(mt, outs, init, RANK_ITERS as int);
    let mut it: u32 = 0;
    let mut done = false;
    while it < RANK_ITERS && !done
        invariant
            n == mv@.len() == dwv.len(),
            forall|q: int, z: int|
                0 <= q < n && 0 <= z < n ==> (#[trigger] mv@[q]@[z]) == mt[q][z] && 0 <= mv@[q]@[z]
                    <= SCORE_MAX,
            forall|q: int| 0 <= q < n ==> (#[trigger] mv@[q])@.len() == n,
            ov@.len() == n,
            forall|z: int|
                0 <= z < n ==> (#[trigger] ov@[z]) == outs[z] && 0 <= ov@[z] <= SCORE_MAX,
            fin == rank_iter(mt, outs, init, RANK_ITERS as int),
            0 <= it <= RANK_ITERS,
            cur@.len() == n,
            forall|z: int| 0 <= z < n ==> 0 <= (#[trigger] cur@[z]) <= SCORE_MAX,
            !done ==> fin == rank_iter(
                mt,
                outs,
                cur@.map_values(|v: i128| v as int),
                (RANK_ITERS - it) as int,
            ),
            done ==> fin == cur@.map_values(|v: i128| v as int),
        decreases RANK_ITERS - it + (if done {
            0int
        } else {
            1int
        }),
    {
        let ghost rv = cur@.map_values(|v: i128| v as int);
        let mut nx: Vec<i128> = Vec::new();
        let mut i2: usize = 0;
        while i2 < n
            invariant
                n == mv@.len() == dwv.len(),
                forall|q: int, z: int|
                    0 <= q < n && 0 <= z < n ==> (#[trigger] mv@[q]@[z]) == mt[q][z] && 0
                        <= mv@[q]@[z] <= SCORE_MAX,
                forall|q: int| 0 <= q < n ==> (#[trigger] mv@[q])@.len() == n,
                ov@.len() == n,
                forall|z: int|
                    0 <= z < n ==> (#[trigger] ov@[z]) == outs[z] && 0 <= ov@[z] <= SCORE_MAX,
                cur@.len() == n,
                forall|z: int| 0 <= z < n ==> 0 <= (#[trigger] cur@[z]) <= SCORE_MAX,
                rv == cur@.map_values(|v: i128| v as int),
                0 <= i2 <= n,
                nx@.len() == i2,
                forall|z: int|
                    0 <= z < i2 ==> (#[trigger] nx@[z]) == rank_step(mt, outs, rv)[z] && 0
                        <= nx@[z] <= SCORE_MAX,
            decreases n - i2,
        {
            let mut acc: i128 = 0;
            let mut k2: usize = 0;
            while k2 < n
                invariant
                    n == mv@.len() == dwv.len(),
                    forall|q: int, z: int|
                        0 <= q < n && 0 <= z < n ==> (#[trigger] mv@[q]@[z]) == mt[q][z] && 0
                            <= mv@[q]@[z] <= SCORE_MAX,
                    forall|q: int| 0 <= q < n ==> (#[trigger] mv@[q])@.len() == n,
                    ov@.len() == n,
                    forall|z: int|
                        0 <= z < n ==> (#[trigger] ov@[z]) == outs[z] && 0 <= ov@[z]
                            <= SCORE_MAX,
                    cur@.len() == n,
                    forall|z: int| 0 <= z < n ==> 0 <= (#[trigger] cur@[z]) <= SCORE_MAX,
                    rv == cur@.map_values(|v: i128| v as int),
                    0 <= i2 < n,
                    0 <= k2 <= n,
                    acc == rank_inner(mt, outs, rv, i2 as int, k2 as int),
                    0 <= acc <= SCORE_MAX,
                decreases n - k2,
            {
                let oj = ov[k2];
                let t: i128 = if oj > 0 {
                    let pr = smul_exec(mv[i2][k2], cur[k2]);
                    sdiv_exec(pr, oj)
                } else {
                    0
                };
                proof {
                    assert(rv[k2 as int] == cur@[k2 as int] as int);
                }
                acc = sadd_exec(acc, t);
                k2 += 1;
            }
            let scaled = smul_exec(85, acc);
            let dv = sdiv_exec(scaled, 100);
            let v = sadd_exec(RANK_BASE, dv);
            nx.push(v);
            proof {
                assert(rank_step(mt, outs, rv)[i2 as int] == sadd(
                    RANK_BASE as int,
                    smul(85, rank_inner(mt, outs, rv, i2 as int, n as int)) / 100,
                ));
            }
            i2 += 1;
        }
        let ghost nxv = nx@.map_values(|v: i128| v as int);
        proof {
            assert(nxv =~= rank_step(mt, outs, rv));
        }
        let mut delta: i128 = 0;
        let mut z: usize = 0;
        while z < n
            invariant
                cur@.len() == n,
                nx@.len() == n,
                rv == cur@.map_values(|v: i128| v as int),
                nxv == nx@.map_values(|v: i128| v as int),
                forall|q: int| 0 <= q < n ==> 0 <= (#[trigger] cur@[q]) <= SCORE_MAX,
                forall|q: int| 0 <= q < n ==> 0 <= (#[trigger] nx@[q]) <= SCORE_MAX,
                0 <= z <= n,
                delta == rank_delta(rv, nxv, z as int),
                0 <= delta <= SCORE_MAX,
            decreases n - z,
        {
            let a = cur[z];
            let b = nx[z];
            let dd: i128 = if a >= b {
                a - b
            } else {
                b - a
            };
            if dd > delta {
                delta = dd;
            }
            z += 1;
        }
        cur = nx;
        if delta < RANK_EPS {
            done = true;
            proof {
                assert(rank_iter(mt, outs, rv, (RANK_ITERS - it) as int) == nxv);
            }
        } else {
            proof {
                assert(rank_iter(mt, outs, rv, (RANK_ITERS - it) as int) == rank_iter(
                    mt,
                    outs,
                    nxv,
                    (RANK_ITERS - it - 1) as int,
                ));
            }
        }
        it += 1;
    }
    proof {
        if !done {
            assert(rank_iter(mt, outs, cur@.map_values(|v: i128| v as int), 0) == cur@.map_values(
                |v: i128| v as int,
            ));
        }
        assert(fin == cur@.map_values(|v: i128| v as int));
    }
    let mut kws: Vec<Keyword> = Vec::new();
    let mut q: usize = 0;
    while q < n
        invariant
            n == dw@.len() == dwv.len(),
            forall|z: int| 0 <= z < n ==> (#[trigger] dw@[z])@ == dwv[z],
            cur@.len() == n,
            fin == cur@.map_values(|v: i128| v as int),
            forall|z: int| 0 <= z < n ==> 0 <= (#[trigger] cur@[z]) <= SCORE_MAX,
            0 <= q <= n,
            kws@.len() == q,
            forall|z: int|
                0 <= z < q ==> (#[trigger] kws@[z]).word@ == dwv[z] && kws@[z].weight
                    == rank_weight(fin[z]),
        decreases n - q,
    {
        let r0 = cur[q];
        let w64: u64 = if r0 > 0xffff_ffff_ffff_ffffi128 {
            0xffff_ffff_ffff_ffffu64
        } else {
            r0 as u64
        };
        kws.push(Keyword { word: crate::dict::clone_word(&dw[q]), weight: w64 });
        q += 1;
    }
    proof {
        assert(kws@.map_values(|kw: Keyword| (kw.word@, kw.weight)) =~= Seq::new(
            dwv.len(),
            |i: int| (dwv[i], rank_weight(final_ranks(fwv, dwv)[i])),
        ));
    }
    let sorted = sort_desc(kws);
    proof {
        let ghost ssv = sorted@.map_values(|kw: Keyword| (kw.word@, kw.weight));
        assert forall|a: int, b2: int| 0 <= a <= b2 < vstd::math::min(
            top_k as int,
            ssv.len() as int,
        ) implies (#[trigger] ssv.take(vstd::math::min(top_k as int, ssv.len() as int))[a]).1
            >= (#[trigger] ssv.take(vstd::math::min(top_k as int, ssv.len() as int))[b2]).1 by {
            assert(ssv.take(vstd::math::min(top_k as int, ssv.len() as int))[a] == ssv[a]);
            assert(ssv.take(vstd::math::min(top_k as int, ssv.len() as int))[b2] == ssv[b2]);
        }
    }
    let r = take_top(sorted, top_k);
    proof {
        assert(r@.map_values(|kw: Keyword| (kw.word@, kw.weight)) =~= textrank_spec(
            d,
            sv,
            top_k as int,
            wlv,
        ));
    }
    r
}

} // verus!
