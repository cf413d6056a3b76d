//! The segmenter: precise mode (path selector plus optional HMM recovery),
//! exhaustive mode, and search mode.

use vstd::prelude::*;

use crate::dag::{build_dag, dag_of, ends_from, lemma_ends_from};
use crate::dict::{contains_word, total_of, Dict, WordEntry};
use crate::hmm::{hmm_cut, hmm_spans};
use crate::route::{chosen, lfp, log2_fp, route_dp, route_extract, route_from};
use crate::text::{is_chain, is_han, is_partition, lemma_chain_append, lemma_chain_bounds,
    spans_in_bounds, words_of};

verus! {

/// Flush a pending singleton run: a one-character run stays a word, a
/// longer run is re-segmented by the HMM recognizer.
pub open spec fn flush_run(s: Seq<char>, rs: int, re: int) -> Seq<(usize, usize)> {
    if re - rs == 1 {
        seq![((rs as usize), (re as usize))]
    } else {
        hmm_spans(s, rs, re)
    }
}

/// The HMM merge pass: adjacent single-character ideograph spans are
/// collected into runs and re-segmented; other spans pass through.
pub open spec fn merge_rec(
    s: Seq<char>,
    ivs: Seq<(usize, usize)>,
    k: int,
    pend: Option<(usize, usize)>,
) -> Seq<(usize, usize)>
    decreases ivs.len() - k,
{
    if k < 0 || k >= ivs.len() {
        match pend {
            None => Seq::empty(),
            Some(p) => flush_run(s, p.0 as int, p.1 as int),
        }
    } else {
        let iv = ivs[k];
        if iv.1 == iv.0 + 1 && iv.0 < s.len() && is_han(s[iv.0 as int]) {
            let np = match pend {
                None => iv,
                Some(p) => (p.0, iv.1),
            };
            merge_rec(s, ivs, k + 1, Some(np))
        } else {
            (match pend {
                None => Seq::<(usize, usize)>::empty(),
                Some(p) => flush_run(s, p.0 as int, p.1 as int),
            }) + seq![iv] + merge_rec(s, ivs, k + 1, None)
        }
    }
}

/// The spans `cut` selects.
pub open spec fn cut_spans(d: Seq<WordEntry>, s: Seq<char>, hmm: bool) -> Seq<(usize, usize)> {
    let r = route_from(d, s, dag_of(d, s), 0, s.len());
    if hmm {
        merge_rec(s, r, 0, None)
    } else {
        r
    }
}

/// The words `cut` yields.
pub open spec fn cut_words(d: Seq<WordEntry>, s: Seq<char>, hmm: bool) -> Seq<Seq<char>> {
    words_of(s, cut_spans(d, s, hmm))
}

/// A flushed run tiles exactly the run interval.
#[verifier::rlimit(50)]
proof fn lemma_flush_chain(s: Seq<char>, rs: int, re: int)
    requires
        0 <= rs < re <= s.len(),
        s.len() <= usize::MAX,
    ensures
        is_chain(flush_run(s, rs, re), rs, re),
{
    if re - rs == 1 {
        let r = flush_run(s, rs, re);
        assert(r.drop_first() =~= Seq::<(usize, usize)>::empty());
        assert(is_chain(Seq::<(usize, usize)>::empty(), re, re));
        assert(is_chain(r, rs, re));
    } else {
        let run = s.subrange(rs, re);
        reveal(crate::hmm::hmm_spans);
        crate::hmm::lemma_hmm_states_len(run);
        crate::hmm::lemma_split_chain(crate::hmm::hmm_states(run), rs, 0, 0);
    }
}

/// Consecutive spans of a chain are adjacent.
proof fn lemma_chain_adjacent(ivs: Seq<(usize, usize)>, a: int, b: int)
    requires
        is_chain(ivs, a, b),
    ensures
        forall|q: int| 0 <= q < ivs.len() - 1 ==> (#[trigger] ivs[q]).1 == ivs[q + 1].0,
    decreases ivs.len(),
{
    if ivs.len() > 0 {
        lemma_chain_adjacent(ivs.drop_first(), ivs.first().1 as int, b);
        if ivs.len() > 1 {
            assert(is_chain(ivs.drop_first(), ivs.first().1 as int, b));
            assert(ivs.drop_first().first().0 == ivs.first().1);
        }
        assert forall|q: int| 0 <= q < ivs.len() - 1 implies (#[trigger] ivs[q]).1 == ivs[q
            + 1].0 by {
            if q > 0 {
                assert(ivs.drop_first()[q - 1] == ivs[q]);
                assert(ivs.drop_first()[q] == ivs[q + 1]);
            } else {
                assert(ivs.drop_first()[0] == ivs[1]);
            }
        }
    }
}

/// The merge pass preserves the tiling of the sentence.
pub proof fn lemma_merge_chain(
    s: Seq<char>,
    ivs: Seq<(usize, usize)>,
    k: int,
    pend: Option<(usize, usize)>,
    start: int,
    cur: int,
    b: int,
)
    requires
        0 <= k <= ivs.len(),
        is_chain(ivs.skip(k), cur, b),
        0 <= start <= cur <= b <= s.len(),
        s.len() <= usize::MAX,
        match pend {
            None => start == cur,
            Some(p) => p.0 == start && p.0 < p.1 && p.1 == cur,
        },
    ensures
        is_chain(merge_rec(s, ivs, k, pend), start, b),
    decreases ivs.len() - k,
{
    if k >= ivs.len() {
        match pend {
            None => {},
            Some(p) => {
                lemma_flush_chain(s, p.0 as int, p.1 as int);
            },
        }
    } else {
        let iv = ivs[k];
        assert(ivs.skip(k).first() == iv);
        assert(ivs.skip(k).drop_first() =~= ivs.skip(k + 1));
        lemma_chain_bounds(ivs.skip(k + 1), iv.1 as int, b);
        if iv.1 == iv.0 + 1 && iv.0 < s.len() && is_han(s[iv.0 as int]) {
            let np = match pend {
                None => iv,
                Some(p) => (p.0, iv.1),
            };
            lemma_merge_chain(s, ivs, k + 1, Some(np), np.0 as int, iv.1 as int, b);
        } else {
            let fl = match pend {
                None => Seq::<(usize, usize)>::empty(),
                Some(p) => flush_run(s, p.0 as int, p.1 as int),
            };
            match pend {
                None => {},
                Some(p) => {
                    lemma_flush_chain(s, p.0 as int, p.1 as int);
                },
            }
            lemma_merge_chain(s, ivs, k + 1, None, iv.1 as int, iv.1 as int, b);
            assert(seq![iv].drop_first() =~= Seq::<(usize, usize)>::empty());
            assert(ivs.skip(k).len() > 0);
            assert(ivs.skip(k).first().0 == cur);
            assert(iv.0 == cur);
            assert(is_chain(Seq::<(usize, usize)>::empty(), iv.1 as int, iv.1 as int));
            assert(is_chain(seq![iv], cur, iv.1 as int));
            lemma_chain_append(seq![iv], merge_rec(s, ivs, k + 1, None), cur, iv.1 as int, b);
            lemma_chain_append(fl, seq![iv] + merge_rec(s, ivs, k + 1, None), start, cur, b);
            assert(fl + (seq![iv] + merge_rec(s, ivs, k + 1, None)) =~= fl + seq![iv] + merge_rec(
                s,
                ivs,
                k + 1,
                None,
            ));
        }
    }
}

/// Append a copied span list.
fn push_all(out: &mut Vec<(usize, usize)>, xs: &Vec<(usize, usize)>)
    ensures
        final(out)@ == old(out)@ + xs@,
{
    let n = xs.len();
    let mut i: usize = 0;
    proof {
        assert(out@ =~= old(out)@ + xs@.take(0));
    }
    while i < n
        invariant
            n == xs@.len(),
            0 <= i <= n,
            out@ == old(out)@ + xs@.take(i as int),
        decreases n - i,
    {
        let ghost prev = out@;
        out.push(xs[i]);
        proof {
            assert(prev.push(xs@[i as int]) =~= old(out)@ + xs@.take(i + 1));
        }
        i += 1;
    }
    proof {
        assert(xs@.take(n as int) =~= xs@);
    }
}

/// The merge pass, executed.
fn merge_exec(s: &[char], ivs: &Vec<(usize, usize)>) -> (r: Vec<(usize, usize)>)
    requires
        is_chain(ivs@, 0, s@.len() as int),
    ensures
        r@ == merge_rec(s@, ivs@, 0, None),
{
    let n = ivs.len();
    let mut out: Vec<(usize, usize)> = Vec::new();
    let mut pend: Option<(usize, usize)> = None;
    let mut k: usize = 0;
    proof {
        lemma_chain_bounds(ivs@, 0, s@.len() as int);
        lemma_chain_adjacent(ivs@, 0, s@.len() as int);
        assert(merge_rec(s@, ivs@, 0, None) =~= out@ + merge_rec(s@, ivs@, 0, None));
    }
    while k < n
        invariant
            n == ivs@.len(),
            0 <= k <= n,
            forall|q: int| 0 <= q < n ==> 0 <= (#[trigger] ivs@[q]).0 < ivs@[q].1 <= s@.len(),
            forall|q: int| 0 <= q < n - 1 ==> (#[trigger] ivs@[q]).1 == ivs@[q + 1].0,
            match pend {
                None => true,
                Some(p) => 0 <= p.0 < p.1 <= s@.len() && k >= 1 && k <= n && p.1 == ivs@[k
                    - 1].1,
            },
            merge_rec(s@, ivs@, 0, None) == out@ + merge_rec(s@, ivs@, k as int, pend),
        decreases n - k,
    {
        let iv = ivs[k];
        let single = iv.1 == iv.0 + 1 && crate::text::is_han_exec(
            *vstd::slice::slice_index_get(s, iv.0),
        );
        if single {
            pend = match pend {
                None => Some(iv),
                Some(p) => Some((p.0, iv.1)),
            };
        } else {
            match pend {
                None => {},
                Some(p) => {
                    if p.1 - p.0 == 1 {
                        out.push(p);
                    } else {
                        let spans = hmm_cut(s, p.0, p.1);
                        push_all(&mut out, &spans);
                    }
                },
            }
            out.push(iv);
            pend = None;
            proof {
                assert(merge_rec(s@, ivs@, 0, None) =~= out@ + merge_rec(
                    s@,
                    ivs@,
                    k + 1,
                    None,
                ));
            }
        }
        k += 1;
    }
    match pend {
        None => {},
        Some(p) => {
            if p.1 - p.0 == 1 {
                out.push(p);
            } else {
                let spans = hmm_cut(s, p.0, p.1);
                push_all(&mut out, &spans);
            }
        },
    }
    proof {
        assert(out@ =~= merge_rec(s@, ivs@, 0, None));
    }
    out
}

/// The spans of precise-mode segmentation; a partition of the sentence.
pub fn cut_spans_exec(dict: &Dict, s: &[char], use_hmm: bool) -> (r: Vec<(usize, usize)>)
    ensures
        r@ == cut_spans(dict@, s@, use_hmm),
        is_partition(r@, s@.len() as int),
{
    let _slen = s.len();
    proof {
        assert(s@.len() == _slen <= usize::MAX);
    }
    let t = dict.total();
    let tt: u128 = if t == 0 {
        1
    } else {
        t
    };
    let lt = log2_fp(tt);
    let dagv = build_dag(dict, s);
    let chv = route_dp(dict, s, &dagv, lt);
    let route = route_extract(dict, s, &chv);
    if use_hmm {
        let r = merge_exec(s, &route);
        proof {
            assert(route@.skip(0) =~= route@);
            lemma_merge_chain(s@, route@, 0, None, 0, 0, s@.len() as int);
        }
        r
    } else {
        route
    }
}

/// Precise-mode segmentation: the maximum-probability path through the DAG,
/// with dictionary-unresolved ideograph runs optionally re-segmented by the
/// HMM recognizer.  The words concatenate back to the sentence.
pub fn cut(dict: &Dict, s: &[char], use_hmm: bool) -> (r: Vec<Vec<char>>)
    ensures
        r@.map_values(|w: Vec<char>| w@) == cut_words(dict@, s@, use_hmm),
        crate::text::concat_all(r@.map_values(|w: Vec<char>| w@)) == s@,
{
    let spans = cut_spans_exec(dict, s, use_hmm);
    proof {
        lemma_partition_bounds(spans@, s@.len() as int);
    }
    let r = words_exec(s, &spans);
    proof {
        crate::text::lemma_partition_concat(s@, spans@);
    }
    r
}

/// Copy out the words selected by a span list.
pub fn words_exec(s: &[char], spans: &Vec<(usize, usize)>) -> (r: Vec<Vec<char>>)
    requires
        spans_in_bounds(spans@, s@.len() as int),
    ensures
        r@.map_values(|w: Vec<char>| w@) == words_of(s@, spans@),
{
    let n = spans.len();
    let mut r: Vec<Vec<char>> = Vec::new();
    let mut i: usize = 0;
    while i < n
        invariant
            n == spans@.len(),
            0 <= i <= n,
            forall|q: int| 0 <= q < n ==> (#[trigger] spans@[q]).0 < spans@[q].1 <= s@.len(),
            r@.len() == i,
            forall|q: int|
                0 <= q < i ==> (#[trigger] r@[q])@ == s@.subrange(
                    spans@[q].0 as int,
                    spans@[q].1 as int,
                ),
        decreases n - i,
    {
        let (a, b) = spans[i];
        let w = crate::text::word_of(s, a, b);
        r.push(w);
        i += 1;
    }
    proof {
        assert(r@.map_values(|w: Vec<char>| w@) =~= words_of(s@, spans@));
    }
    r
}

/// The multi-character DAG edges out of position `k`, from candidate `m` on.
pub open spec fn multi_from(ends: Seq<usize>, k: int, m: int) -> Seq<(usize, usize)>
    decreases ends.len() - m,
{
    if m < 0 || m >= ends.len() {
        Seq::empty()
    } else if ends[m] > k + 1 {
        seq![((k as usize), ends[m])] + multi_from(ends, k, m + 1)
    } else {
        multi_from(ends, k, m + 1)
    }
}

/// Exhaustive-mode spans from position `k` on.  A position whose only edge
/// is the single-character fallback yields that character unless a longer
/// word already covers it (`oldx` is the first uncovered position); a
/// position with longer edges yields every multi-character edge.
pub open spec fn cutall_rec(d: Seq<WordEntry>, s: Seq<char>, k: int, oldx: int) -> Seq<
    (usize, usize),
>
    decreases s.len() - k,
{
    if k < 0 || k >= s.len() {
        Seq::empty()
    } else {
        let ends = ends_from(d, s, k, k + 1);
        if ends.len() == 1 {
            if k >= oldx {
                seq![((k as usize), ((k + 1) as usize))] + cutall_rec(d, s, k + 1, k + 1)
            } else {
                cutall_rec(d, s, k + 1, oldx)
            }
        } else {
            multi_from(ends, k, 0) + cutall_rec(d, s, k + 1, ends.last() as int)
        }
    }
}

/// The spans of exhaustive-mode segmentation.
pub open spec fn cutall_spans(d: Seq<WordEntry>, s: Seq<char>) -> Seq<(usize, usize)> {
    cutall_rec(d, s, 0, 0)
}

/// The spans of exhaustive-mode segmentation, executed.
pub fn cutall_spans_exec(dict: &Dict, s: &[char]) -> (r: Vec<(usize, usize)>)
    ensures
        r@ == cutall_spans(dict@, s@),
        spans_in_bounds(r@, s@.len() as int),
{
    let ghost d = dict@;
    let ghost sv = s@;
    let n = s.len();
    let dagv = build_dag(dict, s);
    let mut out: Vec<(usize, usize)> = Vec::new();
    let mut oldx: usize = 0;
    let mut k: usize = 0;
    proof {
        assert(cutall_rec(d, sv, 0, 0) =~= out@ + cutall_rec(d, sv, 0, 0));
        assert(dagv@.len() == dagv@.map_values(|v: Vec<usize>| v@).len());
    }
    while k < n
        invariant
            n == sv.len(),
            sv == s@,
            d == dict@,
            dagv@.map_values(|v: Vec<usize>| v@) == dag_of(d, sv),
            dagv@.len() == n,
            0 <= k <= n,
            cutall_rec(d, sv, 0, 0) == out@ + cutall_rec(d, sv, k as int, oldx as int),
            spans_in_bounds(out@, n as int),
        decreases n - k,
    {
        proof {
            assert(dagv@[k as int]@ == dag_of(d, sv)[k as int]);
            lemma_ends_from(d, sv, k as int, k + 1);
            assert(crate::dag::dag_edge(d, sv, k as int, k + 1));
            assert(ends_from(d, sv, k as int, k + 1).contains((k + 1) as usize));
        }
        let ends = &dagv[k];
        let ghost ev = ends_from(d, sv, k as int, k + 1);
        let m = ends.len();
        assert(m >= 1);
        if m == 1 {
            if k >= oldx {
                let ghost prev = out@;
                out.push((k, k + 1));
                proof {
                    assert(prev + (seq![((k as usize), ((k + 1) as usize))] + cutall_rec(
                        d,
                        sv,
                        k + 1,
                        k + 1,
                    )) =~= out@ + cutall_rec(d, sv, k + 1, k + 1));
                }
                oldx = k + 1;
            }
        } else {
            let mut mi: usize = 0;
            proof {
                assert(out@ + (multi_from(ev, k as int, 0) + cutall_rec(
                    d,
                    sv,
                    k + 1,
                    ev.last() as int,
                )) =~= (out@ + multi_from(ev, k as int, 0)) + cutall_rec(
                    d,
                    sv,
                    k + 1,
                    ev.last() as int,
                ));
            }
            let ghost base = out@;
            while mi < m
                invariant
                    n == sv.len(),
                    sv == s@,
                    d == dict@,
                    0 <= k < n,
                    m == ends@.len(),
                    ends@ == ev,
                    ev == ends_from(d, sv, k as int, k + 1),
                    0 <= mi <= m,
                    base + multi_from(ev, k as int, 0) == out@ + multi_from(
                        ev,
                        k as int,
                        mi as int,
                    ),
                    spans_in_bounds(out@, n as int),
                decreases m - mi,
            {
                let j = ends[mi];
                proof {
                    lemma_ends_from(d, sv, k as int, k + 1);
                    assert(ev[mi as int] == j);
                    assert(k + 1 <= j <= n);
                }
                let ghost prev = out@;
                if j > k + 1 {
                    out.push((k, j));
                    proof {
                        assert(prev + (seq![((k as usize), j)] + multi_from(ev, k as int, mi + 1))
                            =~= out@ + multi_from(ev, k as int, mi + 1));
                    }
                }
                mi += 1;
            }
            proof {
                assert(multi_from(ev, k as int, m as int) =~= Seq::<(usize, usize)>::empty());
                assert(out@ + Seq::<(usize, usize)>::empty() =~= out@);
                lemma_ends_from(d, sv, k as int, k + 1);
                assert(ev[m - 1] == ev.last());
                assert(k + 1 <= ev.last() <= n);
            }
            oldx = ends[m - 1];
        }
        k += 1;
    }
    proof {
        assert(cutall_rec(d, sv, n as int, oldx as int) =~= Seq::<(usize, usize)>::empty());
        assert(out@ + Seq::<(usize, usize)>::empty() =~= out@);
    }
    out
}

/// Exhaustive-mode segmentation: every DAG edge becomes a token; positions
/// covered only by the fallback yield their character once.
pub fn cut_all(dict: &Dict, s: &[char]) -> (r: Vec<Vec<char>>)
    ensures
        r@.map_values(|w: Vec<char>| w@) == words_of(s@, cutall_spans(dict@, s@)),
{
    let spans = cutall_spans_exec(dict, s);
    words_exec(s, &spans)
}

/// Dictionary sub-words of width `w` inside `[a, b)`, from offset `off` on.
pub open spec fn subs_from(
    d: Seq<WordEntry>,
    s: Seq<char>,
    a: int,
    b: int,
    w: int,
    off: int,
) -> Seq<(usize, usize)>
    decreases b - a - off,
{
    if off < 0 || a + off + w > b || w <= 0 {
        Seq::empty()
    } else {
        (if contains_word(d, s.subrange(a + off, a + off + w)) {
            seq![(((a + off) as usize), ((a + off + w) as usize))]
        } else {
            Seq::empty()
        }) + subs_from(d, s, a, b, w, off + 1)
    }
}

/// Search-mode augmentation: before each selected word, every dictionary
/// sub-word of width 2 (when the word has more than 2 characters) and of
/// width 3 (when more than 3).
pub open spec fn search_rec(d: Seq<WordEntry>, s: Seq<char>, ivs: Seq<(usize, usize)>, k: int) -> Seq<
    (usize, usize),
>
    decreases ivs.len() - k,
{
    if k < 0 || k >= ivs.len() {
        Seq::empty()
    } else {
        let iv = ivs[k];
        let a = iv.0 as int;
        let b = iv.1 as int;
        (if b - a > 2 {
            subs_from(d, s, a, b, 2, 0)
        } else {
            Seq::empty()
        }) + (if b - a > 3 {
            subs_from(d, s, a, b, 3, 0)
        } else {
            Seq::empty()
        }) + seq![iv] + search_rec(d, s, ivs, k + 1)
    }
}

/// The spans of search-mode segmentation.
pub open spec fn search_spans(d: Seq<WordEntry>, s: Seq<char>, hmm: bool) -> Seq<(usize, usize)> {
    search_rec(d, s, cut_spans(d, s, hmm), 0)
}

/// Dictionary sub-words of one width, executed.
fn subs_exec(dict: &Dict, s: &[char], a: usize, b: usize, w: usize, out: &mut Vec<(usize, usize)>)
    requires
        a < b <= s@.len(),
        1 <= w,
    ensures
        final(out)@ == old(out)@ + subs_from(dict@, s@, a as int, b as int, w as int, 0),
        final(out)@.len() >= old(out)@.len(),
        forall|q: int|
            old(out)@.len() <= q < final(out)@.len() ==> a <= (#[trigger] final(out)@[q]).0
                < final(out)@[q].1 <= b,
{
    let ghost d = dict@;
    let ghost sv = s@;
    let mut off: usize = 0;
    proof {
        assert(subs_from(d, sv, a as int, b as int, w as int, 0) =~= Seq::<(usize, usize)>::empty()
            + subs_from(d, sv, a as int, b as int, w as int, 0));
    }
    while w <= (b - a) - off
        invariant
            d == dict@,
            sv == s@,
            a < b <= sv.len(),
            1 <= w,
            0 <= off,
            off <= b - a,
            out@.len() >= old(out)@.len(),
            old(out)@ + subs_from(d, sv, a as int, b as int, w as int, 0) == out@ + subs_from(
                d,
                sv,
                a as int,
                b as int,
                w as int,
                off as int,
            ),
            forall|q: int|
                old(out)@.len() <= q < out@.len() ==> a <= (#[trigger] out@[q]).0 < out@[q].1
                    <= b,
        decreases b - a - off,
    {
        let hit = dict.contains(vstd::slice::slice_subrange(s, a + off, a + off + w));
        let ghost prev = out@;
        if hit {
            out.push((a + off, a + off + w));
            proof {
                assert(prev + (seq![(((a + off) as usize), ((a + off + w) as usize))] + subs_from(
                    d,
                    sv,
                    a as int,
                    b as int,
                    w as int,
                    off + 1,
                )) =~= out@ + subs_from(d, sv, a as int, b as int, w as int, off + 1));
            }
        } else {
            proof {
                assert(prev + subs_from(d, sv, a as int, b as int, w as int, off + 1) =~= out@
                    + subs_from(d, sv, a as int, b as int, w as int, off + 1));
            }
        }
        off += 1;
    }
    proof {
        assert(subs_from(d, sv, a as int, b as int, w as int, off as int) =~= Seq::<
            (usize, usize),
        >::empty());
        assert(out@ + Seq::<(usize, usize)>::empty() =~= out@);
    }
}

/// The spans of search-mode segmentation, executed.
pub fn search_spans_exec(dict: &Dict, s: &[char], use_hmm: bool) -> (r: Vec<(usize, usize)>)
    ensures
        r@ == search_spans(dict@, s@, use_hmm),
        spans_in_bounds(r@, s@.len() as int),
{
    let ghost d = dict@;
    let ghost sv = s@;
    let base = cut_spans_exec(dict, s, use_hmm);
    proof {
        lemma_partition_bounds(base@, sv.len() as int);
    }
    let n = base.len();
    let mut out: Vec<(usize, usize)> = Vec::new();
    let mut k: usize = 0;
    proof {
        assert(search_rec(d, sv, base@, 0) =~= out@ + search_rec(d, sv, base@, 0));
    }
    while k < n
        invariant
            d == dict@,
            sv == s@,
            n == base@.len(),
            spans_in_bounds(base@, sv.len() as int),
            0 <= k <= n,
            search_rec(d, sv, base@, 0) == out@ + search_rec(d, sv, base@, k as int),
            spans_in_bounds(out@, sv.len() as int),
        decreases n - k,
    {
        let (a, b) = base[k];
        let ghost start = out@;
        let ghost iv = base@[k as int];
        let ghost s2 = if b - a > 2 {
            subs_from(d, sv, a as int, b as int, 2, 0)
        } else {
            Seq::<(usize, usize)>::empty()
        };
        let ghost s3 = if b - a > 3 {
            subs_from(d, sv, a as int, b as int, 3, 0)
        } else {
            Seq::<(usize, usize)>::empty()
        };
        if b - a > 2 {
            subs_exec(dict, s, a, b, 2, &mut out);
        }
        proof {
            assert(out@ =~= start + s2);
        }
        if b - a > 3 {
            subs_exec(dict, s, a, b, 3, &mut out);
        }
        proof {
            assert(out@ =~= start + s2 + s3);
        }
        out.push((a, b));
        proof {
            assert(search_rec(d, sv, base@, k as int) == s2 + s3 + seq![iv] + search_rec(
                d,
                sv,
                base@,
                k + 1,
            ));
            assert(out@ =~= start + s2 + s3 + seq![iv]);
            assert(start + (s2 + s3 + seq![iv] + search_rec(d, sv, base@, k + 1)) =~= out@
                + search_rec(d, sv, base@, k + 1));
        }
        k += 1;
    }
    proof {
        assert(search_rec(d, sv, base@, n as int) =~= Seq::<(usize, usize)>::empty());
        assert(out@ + Seq::<(usize, usize)>::empty() =~= out@);
    }
    out
}

/// Sum of edge scores over the first `k` spans.
pub open spec fn path_score_rec(
    d: Seq<WordEntry>,
    s: Seq<char>,
    ivs: Seq<(usize, usize)>,
    k: int,
) -> int
    decreases k,
{
    if k <= 0 {
        0
    } else {
        crate::arith::sadd(
            path_score_rec(d, s, ivs, k - 1),
            crate::route::edge_score(d, s, ivs[k - 1].0 as int, ivs[k - 1].1 as int),
        )
    }
}

/// Suggested frequency for a word: 0 when the word is already segmented as
/// one unit (or no 32-bit frequency can make it so); otherwise the smallest
/// power of two whose log-score strictly beats the selected split.
pub open spec fn suggest_spec(d: Seq<WordEntry>, w: Seq<char>) -> u32 {
    let segs = cut_spans(d, w, false);
    if segs.len() <= 1 {
        0u32
    } else {
        let r = path_score_rec(d, w, segs, segs.len() as int);
        let t = if total_of(d) == 0 {
            1
        } else {
            total_of(d)
        };
        let g = crate::arith::sadd(r, lfp(t));
        if g < 0 {
            1u32
        } else {
            let e = g / 64 + 1;
            if e >= 32 {
                0u32
            } else {
                crate::route::pow2(e) as u32
            }
        }
    }
}

/// Estimate a frequency that makes `w` segment as one unit.
pub fn suggest_freq(dict: &Dict, w: &[char]) -> (r: u32)
    ensures
        r == suggest_spec(dict@, w@),
{
    let ghost d = dict@;
    let segs = cut_spans_exec(dict, w, false);
    let m = segs.len();
    if m <= 1 {
        return 0;
    }
    proof {
        lemma_partition_bounds(segs@, w@.len() as int);
    }
    let t = dict.total();
    let tt: u128 = if t == 0 {
        1
    } else {
        t
    };
    let lt = log2_fp(tt);
    let mut acc: i128 = 0;
    let mut k: usize = 0;
    while k < m
        invariant
            d == dict@,
            m == segs@.len(),
            segs@ == cut_spans(d, w@, false),
            spans_in_bounds(segs@, w@.len() as int),
            lt == lfp(
                if total_of(d) == 0 {
                    1int
                } else {
                    total_of(d)
                },
            ),
            0 <= lt <= 64 * 114,
            0 <= k <= m,
            acc == path_score_rec(d, w@, segs@, k as int),
            -crate::arith::SCORE_MAX <= acc <= crate::arith::SCORE_MAX,
        decreases m - k,
    {
        let (a, b) = segs[k];
        let es = crate::route::edge_score_exec(dict, w, a, b, lt);
        acc = crate::arith::sadd_exec(acc, es);
        k += 1;
    }
    let g = crate::arith::sadd_exec(acc, lt);
    if g < 0 {
        1
    } else {
        let e = g / 64 + 1;
        if e >= 32 {
            0
        } else {
            let ei: u32 = (e as u32);
            let mut f: u32 = 1;
            let mut it: u32 = 0;
            proof {
                assert(crate::route::pow2(31) == 0x8000_0000) by {
                    reveal_with_fuel(crate::route::pow2, 32);
                }
            }
            while it < ei
                invariant
                    ei == e,
                    1 <= e < 32,
                    0 <= it <= ei,
                    f == crate::route::pow2(it as int),
                    crate::route::pow2(31) == 0x8000_0000,
                decreases ei - it,
            {
                proof {
                    crate::route::lemma_pow2_mono(it as int, 30);
                    assert(crate::route::pow2(30) * 2 == crate::route::pow2(31));
                }
                f = f * 2;
                it += 1;
            }
            f
        }
    }
}

/// The two tokenize modes.
pub enum TokenizeMode {
    Default,
    Search,
}

/// A token: a word with its character offsets.
pub struct Token {
    pub word: Vec<char>,
    pub start: usize,
    pub end: usize,
}

/// The spans tokenize reports for a mode.
pub open spec fn tokenize_spans(
    d: Seq<WordEntry>,
    s: Seq<char>,
    mode: TokenizeMode,
    hmm: bool,
) -> Seq<(usize, usize)> {
    match mode {
        TokenizeMode::Default => cut_spans(d, s, hmm),
        TokenizeMode::Search => search_spans(d, s, hmm),
    }
}

/// Tokenize: the chosen mode's words together with their offsets.  Every
/// offset pair satisfies `0 <= start < end <= n`; in the default mode the
/// tokens are contiguous and non-overlapping, covering the sentence.
pub fn tokenize(dict: &Dict, s: &[char], mode: TokenizeMode, use_hmm: bool) -> (r: Vec<Token>)
    ensures
        r@.len() == tokenize_spans(dict@, s@, mode, use_hmm).len(),
        forall|q: int|
            0 <= q < r@.len() ==> {
                let iv = tokenize_spans(dict@, s@, mode, use_hmm)[q];
                (#[trigger] r@[q]).start == iv.0 && r@[q].end == iv.1 && r@[q].word@
                    == s@.subrange(iv.0 as int, iv.1 as int)
            },
        forall|q: int|
            0 <= q < r@.len() ==> 0 <= (#[trigger] r@[q]).start < r@[q].end <= s@.len(),
        mode is Default ==> is_partition(tokenize_spans(dict@, s@, mode, use_hmm), s@.len() as int),
{
    let spans = match mode {
        TokenizeMode::Default => {
            let sp = cut_spans_exec(dict, s, use_hmm);
            proof {
                lemma_partition_bounds(sp@, s@.len() as int);
            }
            sp
        },
        TokenizeMode::Search => search_spans_exec(dict, s, use_hmm),
    };
    let n = spans.len();
    let mut r: Vec<Token> = Vec::new();
    let mut i: usize = 0;
    while i < n
        invariant
            n == spans@.len(),
            spans_in_bounds(spans@, s@.len() as int),
            0 <= i <= n,
            r@.len() == i,
            forall|q: int|
                0 <= q < i ==> (#[trigger] r@[q]).start == spans@[q].0 && r@[q].end == spans@[q].1
                    && r@[q].word@ == s@.subrange(spans@[q].0 as int, spans@[q].1 as int),
        decreases n - i,
    {
        let (a, b) = spans[i];
        let w = crate::text::word_of(s, a, b);
        r.push(Token { word: w, start: a, end: b });
        i += 1;
    }
    r
}

/// A partition's spans stay in bounds.
pub broadcast proof fn lemma_partition_bounds(ivs: Seq<(usize, usize)>, n: int)
    requires
        #[trigger] is_partition(ivs, n),
        0 <= n,
    ensures
        spans_in_bounds(ivs, n),
{
    lemma_chain_bounds(ivs, 0, n);
}

} // verus!
