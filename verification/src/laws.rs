//! Engine-wide laws, stated and proved over the specification functions
//! that the public contracts use.

use vstd::prelude::*;

use crate::dag::{dag_edge, dag_of, ends_from, lemma_ends_from};
use crate::dict::{default_dict_view, WordEntry};
use crate::route::{chosen, lemma_chosen_in_range, route_from};
use crate::segment::{cut_spans, cut_words};
use crate::text::{concat_all, is_partition, lemma_partition_concat};

verus! {

/// Resetting is idempotent: an engine whose dictionary was reset to the
/// built-in default segments every sentence exactly as a freshly created
/// engine does.  (`Engine::new` and `Engine::reset` both establish the
/// view `default_dict_view()`, and every segmentation result is a function
/// of that view and the inputs alone.)
pub proof fn lemma_reset_idempotent(
    d1: Seq<WordEntry>,
    d2: Seq<WordEntry>,
    s: Seq<char>,
    hmm: bool,
)
    requires
        d1 == default_dict_view(),
        d2 == default_dict_view(),
    ensures
        cut_words(d1, s, hmm) == cut_words(d2, s, hmm),
        crate::tagger::tag_pairs(d1, s, hmm) == crate::tagger::tag_pairs(d2, s, hmm),
{
}

/// Reconstruction: the words of a precise-mode segmentation tile the
/// sentence and concatenate back to it exactly, with or without the HMM.
pub proof fn lemma_cut_reconstructs(d: Seq<WordEntry>, s: Seq<char>, hmm: bool)
    requires
        s.len() <= usize::MAX,
    ensures
        is_partition(cut_spans(d, s, hmm), s.len() as int),
        concat_all(cut_words(d, s, hmm)) == s,
{
    let r = route_from(d, s, dag_of(d, s), 0, s.len());
    crate::route::lemma_route_chain(d, s, 0, s.len());
    if hmm {
        assert(r.skip(0) =~= r);
        crate::segment::lemma_merge_chain(s, r, 0, None, 0, 0, s.len() as int);
    }
    lemma_partition_concat(s, cut_spans(d, s, hmm));
}

/// Every span the path selector emits is a DAG edge.
proof fn lemma_route_edges(d: Seq<WordEntry>, s: Seq<char>, i: int, fuel: nat)
    requires
        s.len() <= usize::MAX,
        0 <= i,
    ensures
        forall|k: int|
            0 <= k < route_from(d, s, dag_of(d, s), i, fuel).len() ==> dag_edge(
                d,
                s,
                (#[trigger] route_from(d, s, dag_of(d, s), i, fuel)[k]).0 as int,
                route_from(d, s, dag_of(d, s), i, fuel)[k].1 as int,
            ),
    decreases fuel,
{
    let dag = dag_of(d, s);
    let r = route_from(d, s, dag, i, fuel);
    if i < s.len() && fuel > 0 {
        lemma_chosen_in_range(d, s, i);
        let j = chosen(d, s, dag, i);
        lemma_ends_from(d, s, i, i + 1);
        let ends = ends_from(d, s, i, i + 1);
        let w = choose|w: int| 0 <= w < ends.len() && ends[w] == j;
        assert(dag_edge(d, s, i, j as int));
        lemma_route_edges(d, s, j as int, (fuel - 1) as nat);
        assert forall|k: int| 0 <= k < r.len() implies dag_edge(
            d,
            s,
            (#[trigger] r[k]).0 as int,
            r[k].1 as int,
        ) by {
            if k > 0 {
                assert(r[k] == route_from(d, s, dag, j as int, (fuel - 1) as nat)[k - 1]);
            }
        }
    }
}

/// Superset: every token of a precise-mode segmentation without the HMM is
/// an edge of the same DAG that exhaustive-mode segmentation enumerates.
pub proof fn lemma_cut_tokens_are_dag_edges(d: Seq<WordEntry>, s: Seq<char>)
    requires
        s.len() <= usize::MAX,
    ensures
        forall|k: int|
            0 <= k < cut_spans(d, s, false).len() ==> dag_edge(
                d,
                s,
                (#[trigger] cut_spans(d, s, false)[k]).0 as int,
                cut_spans(d, s, false)[k].1 as int,
            ),
{
    lemma_route_edges(d, s, 0, s.len());
}

proof fn lemma_multi_edges(d: Seq<WordEntry>, s: Seq<char>, k: int, m: int)
    requires
        s.len() <= usize::MAX,
        0 <= k < s.len(),
        0 <= m,
    ensures
        forall|q: int|
            0 <= q < crate::segment::multi_from(ends_from(d, s, k, k + 1), k, m).len()
                ==> dag_edge(
                d,
                s,
                (#[trigger] crate::segment::multi_from(ends_from(d, s, k, k + 1), k, m)[q]).0
                    as int,
                crate::segment::multi_from(ends_from(d, s, k, k + 1), k, m)[q].1 as int,
            ),
    decreases ends_from(d, s, k, k + 1).len() - m,
{
    let ends = ends_from(d, s, k, k + 1);
    let r = crate::segment::multi_from(ends, k, m);
    if m < ends.len() {
        lemma_multi_edges(d, s, k, m + 1);
        lemma_ends_from(d, s, k, k + 1);
        let rest = crate::segment::multi_from(ends, k, m + 1);
        if ends[m] > k + 1 {
            assert forall|q: int| 0 <= q < r.len() implies dag_edge(
                d,
                s,
                (#[trigger] r[q]).0 as int,
                r[q].1 as int,
            ) by {
                if q > 0 {
                    assert(r[q] == rest[q - 1]);
                }
            }
        }
    }
}

/// Exhaustive mode, too, emits only DAG edges: the same DAG underlies both
/// precise and exhaustive segmentation.
pub proof fn lemma_cutall_tokens_are_dag_edges(d: Seq<WordEntry>, s: Seq<char>, k: int, oldx: int)
    requires
        s.len() <= usize::MAX,
        0 <= k,
    ensures
        forall|q: int|
            0 <= q < crate::segment::cutall_rec(d, s, k, oldx).len() ==> dag_edge(
                d,
                s,
                (#[trigger] crate::segment::cutall_rec(d, s, k, oldx)[q]).0 as int,
                crate::segment::cutall_rec(d, s, k, oldx)[q].1 as int,
            ),
    decreases s.len() - k,
{
    let r = crate::segment::cutall_rec(d, s, k, oldx);
    if 0 <= k < s.len() {
        let ends = ends_from(d, s, k, k + 1);
        if ends.len() == 1 {
            if k >= oldx {
                lemma_cutall_tokens_are_dag_edges(d, s, k + 1, k + 1);
                let rest = crate::segment::cutall_rec(d, s, k + 1, k + 1);
                assert(dag_edge(d, s, k, k + 1));
                assert forall|q: int| 0 <= q < r.len() implies dag_edge(
                    d,
                    s,
                    (#[trigger] r[q]).0 as int,
                    r[q].1 as int,
                ) by {
                    if q > 0 {
                        assert(r[q] == rest[q - 1]);
                    }
                }
            } else {
                lemma_cutall_tokens_are_dag_edges(d, s, k + 1, oldx);
                assert(r == crate::segment::cutall_rec(d, s, k + 1, oldx));
                assert(forall|q: int|
                    0 <= q < r.len() ==> dag_edge(
                        d,
                        s,
                        (#[trigger] r[q]).0 as int,
                        r[q].1 as int,
                    ));
            }
        } else {
            lemma_multi_edges(d, s, k, 0);
            lemma_cutall_tokens_are_dag_edges(d, s, k + 1, ends.last() as int);
            let mm = crate::segment::multi_from(ends, k, 0);
            let rest = crate::segment::cutall_rec(d, s, k + 1, ends.last() as int);
            assert forall|q: int| 0 <= q < r.len() implies dag_edge(
                d,
                s,
                (#[trigger] r[q]).0 as int,
                r[q].1 as int,
            ) by {
                if q < mm.len() {
                    assert(r[q] == mm[q]);
                } else {
                    assert(r[q] == rest[q - mm.len()]);
                }
            }
        }
    }
}

} // verus!
