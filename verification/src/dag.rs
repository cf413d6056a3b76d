//! The segmentation DAG.
//!
//! For a sentence of `n` characters, position `i` has an edge to every `j`
//! with `i < j <= n` such that `[i, j)` is a dictionary word; `j = i + 1` is
//! always an edge (single-character fallback).  Lookahead is bounded by the
//! longest dictionary word.

use vstd::prelude::*;

use crate::dict::{Dict, WordEntry, contains_word, max_len_of};

verus! {

/// An edge of the DAG: a recognized span or the single-character fallback.
pub open spec fn dag_edge(d: Seq<WordEntry>, s: Seq<char>, i: int, j: int) -> bool {
    0 <= i < j <= s.len() && (j == i + 1 || contains_word(d, s.subrange(i, j)))
}

/// The ordered end positions reachable from `i`, scanning from `j0` upward.
pub open spec fn ends_from(d: Seq<WordEntry>, s: Seq<char>, i: int, j0: int) -> Seq<usize>
    decreases s.len() + 1 - j0,
{
    if j0 > s.len() {
        Seq::empty()
    } else {
        let rest = ends_from(d, s, i, j0 + 1);
        if dag_edge(d, s, i, j0) {
            seq![j0 as usize] + rest
        } else {
            rest
        }
    }
}

/// The whole DAG: for each start position its ordered end positions.
pub open spec fn dag_of(d: Seq<WordEntry>, s: Seq<char>) -> Seq<Seq<usize>> {
    Seq::new(s.len(), |i: int| ends_from(d, s, i, i + 1))
}

pub proof fn lemma_ends_from(d: Seq<WordEntry>, s: Seq<char>, i: int, j0: int)
    requires
        0 <= j0,
        s.len() <= usize::MAX,
    ensures
        forall|k: int|
            0 <= k < ends_from(d, s, i, j0).len() ==> j0 <= (#[trigger] ends_from(d, s, i, j0)[k])
                <= s.len() && dag_edge(d, s, i, ends_from(d, s, i, j0)[k] as int),
        forall|j: int|
            j0 <= j <= s.len() && dag_edge(d, s, i, j) ==> ends_from(d, s, i, j0).contains(
                j as usize,
            ),
        forall|k1: int, k2: int|
            0 <= k1 < k2 < ends_from(d, s, i, j0).len() ==> ends_from(d, s, i, j0)[k1] < ends_from(
                d,
                s,
                i,
                j0,
            )[k2],
    decreases s.len() + 1 - j0,
{
    if j0 <= s.len() {
        lemma_ends_from(d, s, i, j0 + 1);
        let r = ends_from(d, s, i, j0);
        let rest = ends_from(d, s, i, j0 + 1);
        if dag_edge(d, s, i, j0) {
            assert forall|k: int| 0 <= k < r.len() implies j0 <= (#[trigger] r[k]) <= s.len()
                && dag_edge(d, s, i, r[k] as int) by {
                if k > 0 {
                    assert(r[k] == rest[k - 1]);
                }
            }
            assert forall|j: int| j0 <= j <= s.len() && dag_edge(d, s, i, j) implies r.contains(
                j as usize,
            ) by {
                if j > j0 {
                    assert(rest.contains(j as usize));
                    let w = choose|k: int| 0 <= k < rest.len() && rest[k] == j as usize;
                    assert(r[w + 1] == j as usize);
                } else {
                    assert(r[0] == j0 as usize);
                }
            }
            assert forall|k1: int, k2: int| 0 <= k1 < k2 < r.len() implies r[k1] < r[k2] by {
                if k1 > 0 {
                    assert(r[k1] == rest[k1 - 1] && r[k2] == rest[k2 - 1]);
                } else {
                    assert(r[k2] == rest[k2 - 1]);
                }
            }
        } else {
            assert forall|j: int| j0 <= j <= s.len() && dag_edge(d, s, i, j) implies r.contains(
                j as usize,
            ) by {
                if j > j0 {
                    assert(rest.contains(j as usize));
                    let w = choose|k: int| 0 <= k < rest.len() && rest[k] == j as usize;
                    assert(r[w] == j as usize);
                }
            }
        }
    }
}

/// Beyond the longest dictionary word there are no edges.
pub proof fn lemma_ends_from_empty(d: Seq<WordEntry>, s: Seq<char>, i: int, j0: int)
    requires
        j0 >= i + 2,
        j0 > i + max_len_of(d),
    ensures
        ends_from(d, s, i, j0) == Seq::<usize>::empty(),
    decreases s.len() + 1 - j0,
{
    if j0 <= s.len() {
        lemma_ends_from_empty(d, s, i, j0 + 1);
        if dag_edge(d, s, i, j0) {
            assert(contains_word(d, s.subrange(i, j0)));
            crate::dict::lemma_word_len_bound(d, s.subrange(i, j0));
            assert(false);
        }
    }
}

/// Build the DAG for a sentence.
pub fn build_dag(dict: &Dict, s: &[char]) -> (r: Vec<Vec<usize>>)
    ensures
        r@.map_values(|v: Vec<usize>| v@) == dag_of(dict@, s@),
        r@.len() == s@.len(),
{
    let n = s.len();
    let maxlen = dict.max_word_len();
    let maxl = if maxlen == 0 {
        1
    } else {
        maxlen
    };
    let mut out: Vec<Vec<usize>> = Vec::new();
    let mut i: usize = 0;
    while i < n
        invariant
            n == s@.len(),
            0 <= i <= n,
            maxl == if max_len_of(dict@) == 0 {
                1int
            } else {
                max_len_of(dict@)
            },
            out@.len() == i,
            out@.map_values(|v: Vec<usize>| v@) =~= Seq::new(
                i as nat,
                |k: int| ends_from(dict@, s@, k, k + 1),
            ),
        decreases n - i,
    {
        let jcap: usize = if maxl > n - i {
            n
        } else {
            i + maxl
        };
        let mut cur: Vec<usize> = Vec::new();
        let cnt: usize = jcap - i;
        let mut off: usize = 0;
        proof {
            assert(ends_from(dict@, s@, i as int, i + 1) =~= cur@ + ends_from(
                dict@,
                s@,
                i as int,
                i + 1,
            ));
        }
        while off < cnt
            invariant
                n == s@.len(),
                0 <= i < n,
                0 <= off <= cnt,
                cnt == jcap - i,
                i < jcap <= n,
                jcap == if maxl > n - i {
                    n as int
                } else {
                    i + maxl
                },
                maxl == if max_len_of(dict@) == 0 {
                    1int
                } else {
                    max_len_of(dict@)
                },
                ends_from(dict@, s@, i as int, i + 1) == cur@ + ends_from(
                    dict@,
                    s@,
                    i as int,
                    i + 1 + off,
                ),
            decreases cnt - off,
        {
            let j: usize = i + 1 + off;
            let edge = if j == i + 1 {
                true
            } else {
                dict.contains(vstd::slice::slice_subrange(s, i, j))
            };
            proof {
                assert(dag_edge(dict@, s@, i as int, j as int) == edge);
            }
            let ghost prev = cur@;
            if edge {
                cur.push(j);
            }
            proof {
                if edge {
                    assert(prev + (seq![j] + ends_from(dict@, s@, i as int, j + 1)) =~= cur@
                        + ends_from(dict@, s@, i as int, j + 1));
                } else {
                    assert(prev + ends_from(dict@, s@, i as int, j + 1) =~= cur@ + ends_from(
                        dict@,
                        s@,
                        i as int,
                        j + 1,
                    ));
                }
            }
            off += 1;
        }
        proof {
            if jcap < n {
                crate::dict::lemma_max_len_nonneg(dict@, dict@.len() as int);
                lemma_ends_from_empty(dict@, s@, i as int, jcap + 1);
            }
            assert(ends_from(dict@, s@, i as int, jcap + 1) =~= Seq::<usize>::empty());
            assert(ends_from(dict@, s@, i as int, i + 1) =~= cur@);
        }
        let ghost prevout = out@;
        out.push(cur);
        proof {
            assert(out@.map_values(|v: Vec<usize>| v@) =~= prevout.map_values(
                |v: Vec<usize>| v@,
            ).push(cur@));
        }
        i += 1;
    }
    proof {
        assert(out@.map_values(|v: Vec<usize>| v@) =~= dag_of(dict@, s@));
    }
    out
}

} // verus!
