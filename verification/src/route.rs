//! The path selector: a dynamic program over fixed-point log-frequencies.
//!
//! An edge `[i, j)` scores `lfp(freq or 1) - lfp(total or 1)` where `lfp` is
//! a base-2 fixed-point logarithm with 6 fractional bits.  `best_seq` gives
//! the best suffix scores, `chosen` the arg-max end position at each start
//! (ties broken toward the lowest end position), and `route_from` the
//! selected span chain.

use vstd::prelude::*;

use crate::arith::{sadd, sadd_exec, SCORE_MAX};
use crate::dag::{dag_of, ends_from, lemma_ends_from};
use crate::dict::{freq_of, total_of, Dict, WordEntry};

verus! {

pub open spec fn pow2(k: int) -> int
    decreases k,
{
    if k <= 0 {
        1
    } else {
        2 * pow2(k - 1)
    }
}

/// Floor of the base-2 logarithm.
pub open spec fn ilog2(n: int) -> int
    decreases n,
{
    if n <= 1 {
        0
    } else {
        1 + ilog2(n / 2)
    }
}

/// Fixed-point base-2 logarithm with 6 fractional bits (defined for n >= 1).
pub open spec fn lfp(n: int) -> int {
    64 * ilog2(n) + (n * 64 / pow2(ilog2(n))) - 64
}

proof fn lemma_pow2_pos(k: int)
    ensures
        pow2(k) > 0,
    decreases k,
{
    if k > 0 {
        lemma_pow2_pos(k - 1);
    }
}

pub proof fn lemma_pow2_mono(a: int, b: int)
    requires
        a <= b,
    ensures
        pow2(a) <= pow2(b),
    decreases b - a,
{
    if a < b {
        lemma_pow2_mono(a, b - 1);
        lemma_pow2_pos(b - 1);
    }
}

proof fn lemma_pow2_add(a: int, b: int)
    requires
        0 <= a,
        0 <= b,
    ensures
        pow2(a + b) == pow2(a) * pow2(b),
    decreases b,
{
    if b == 0 {
        assert(pow2(a + 0) == pow2(a) * 1);
    } else {
        lemma_pow2_add(a, b - 1);
        assert(pow2(a + b) == 2 * pow2(a + b - 1));
        assert(2 * (pow2(a) * pow2(b - 1)) == pow2(a) * (2 * pow2(b - 1))) by (nonlinear_arith);
    }
}

/// `pow2(e) <= n < pow2(e + 1)` pins `ilog2(n)` to `e`.
proof fn lemma_ilog2_range(n: int, e: int)
    requires
        0 <= e,
        pow2(e) <= n < pow2(e + 1),
    ensures
        ilog2(n) == e,
    decreases e,
{
    if e == 0 {
        assert(n == 1);
    } else {
        lemma_pow2_pos(e - 1);
        assert(n >= 2);
        assert(pow2(e - 1) <= n / 2 < pow2(e)) by {
            assert(pow2(e) == 2 * pow2(e - 1));
            assert(pow2(e + 1) == 2 * pow2(e));
        }
        lemma_ilog2_range(n / 2, e - 1);
    }
}

/// Fixed-point log of a positive value up to 2^112.
pub fn log2_fp(x: u128) -> (r: i128)
    requires
        1 <= x < 0x1_0000_0000_0000_0000_0000_0000_0000u128,
    ensures
        r == lfp(x as int),
        0 <= r <= 64 * 114,
{
    let mut e: u32 = 0;
    let mut p: u128 = 1;
    while x / p >= 2
        invariant
            1 <= x < 0x1_0000_0000_0000_0000_0000_0000_0000u128,
            p == pow2(e as int),
            1 <= p <= x,
            e <= 113,
        decreases x - p,
    {
        proof {
            let xi = x as int;
            let pi = p as int;
            assert(xi >= 2 * pi) by {
                vstd::arithmetic::div_mod::lemma_fundamental_div_mod(xi, pi);
                assert(xi / pi * pi >= 2 * pi) by (nonlinear_arith)
                    requires
                        xi / pi >= 2,
                        pi > 0,
                ;
            }
            assert(pow2(e + 1) == 2 * pow2(e as int));
            if e >= 113 {
                lemma_pow2_113();
                lemma_pow2_mono(113, e as int);
                assert(false);
            }
        }
        p = p * 2;
        e = e + 1;
    }
    proof {
        let xi = x as int;
        let pi = p as int;
        assert(xi < 2 * pi) by {
            vstd::arithmetic::div_mod::lemma_fundamental_div_mod(xi, pi);
            assert(xi / pi * pi + pi <= 2 * pi) by (nonlinear_arith)
                requires
                    xi / pi < 2,
                    pi > 0,
            ;
        }
        assert(pow2(e + 1) == 2 * pow2(e as int));
        lemma_ilog2_range(xi, e as int);
    }
    let frac = (x * 64) / p;
    proof {
        let xi = x as int;
        let pi = p as int;
        assert(64 * pi <= xi * 64 < 128 * pi) by (nonlinear_arith)
            requires
                pi <= xi < 2 * pi,
                pi > 0,
        ;
        assert(64 <= xi * 64 / pi < 128) by (nonlinear_arith)
            requires
                64 * pi <= xi * 64 < 128 * pi,
                pi > 0,
        ;
        assert(frac == xi * 64 / pi);
    }
    64 * (e as i128) + (frac as i128) - 64
}

proof fn lemma_pow2_113()
    ensures
        pow2(113) == 0x2_0000_0000_0000_0000_0000_0000_0000,
{
    assert(pow2(28) == 0x1000_0000 && pow2(29) == 0x2000_0000) by {
        reveal_with_fuel(pow2, 30);
    }
    lemma_pow2_add(28, 28);
    assert(pow2(56) == 0x100_0000_0000_0000);
    lemma_pow2_add(56, 28);
    assert(pow2(84) == 0x10_0000_0000_0000_0000_0000);
    lemma_pow2_add(84, 29);
}

/// Score of the word at `[i, j)`: log of its frequency (or 1) minus log of
/// the aggregate frequency (or 1).
pub open spec fn edge_score(d: Seq<WordEntry>, s: Seq<char>, i: int, j: int) -> int {
    let f = freq_of(d, s.subrange(i, j));
    let fr = if f == 0 {
        1
    } else {
        f as int
    };
    let t = total_of(d);
    let tt = if t == 0 {
        1
    } else {
        t
    };
    lfp(fr) - lfp(tt)
}

/// The candidate list at position `i`: each end paired with its edge score
/// plus the best suffix score from there.
pub open spec fn cands(
    d: Seq<WordEntry>,
    s: Seq<char>,
    i: int,
    ends: Seq<usize>,
    rest: Seq<int>,
) -> Seq<(usize, int)> {
    ends.map_values(
        |j: usize|
            (
                j,
                sadd(
                    edge_score(d, s, i, j as int),
                    if i < j <= s.len() {
                        rest[j - i - 1]
                    } else {
                        0
                    },
                ),
            ),
    )
}

/// Left fold over the first `k` candidates keeping the strictly best score;
/// ties keep the earlier (lowest) end position.
pub open spec fn pick_pre(cs: Seq<(usize, int)>, k: int) -> (usize, int)
    decreases k,
{
    if k <= 0 {
        (0usize, 0int)
    } else if k == 1 {
        cs[0]
    } else {
        let p = pick_pre(cs, k - 1);
        if cs[k - 1].1 > p.1 {
            cs[k - 1]
        } else {
            p
        }
    }
}

pub open spec fn pick(cs: Seq<(usize, int)>) -> (usize, int) {
    pick_pre(cs, cs.len() as int)
}

/// The pick is one of the candidates.
pub proof fn lemma_pick_in(cs: Seq<(usize, int)>, k: int)
    requires
        1 <= k <= cs.len(),
    ensures
        exists|m: int| 0 <= m < k && cs[m] == pick_pre(cs, k),
    decreases k,
{
    if k == 1 {
        assert(cs[0] == pick_pre(cs, 1));
    } else {
        lemma_pick_in(cs, k - 1);
    }
}

/// Best suffix scores for positions `i ..= s.len()`, best-first.
pub open spec fn best_seq(d: Seq<WordEntry>, s: Seq<char>, dag: Seq<Seq<usize>>, i: int) -> Seq<
    int,
>
    decreases s.len() - i,
{
    if i >= s.len() {
        seq![0int]
    } else {
        let rest = best_seq(d, s, dag, i + 1);
        seq![pick(cands(d, s, i, dag[i], rest)).1] + rest
    }
}

/// Best score from position `i` to the end.
pub open spec fn best_at(d: Seq<WordEntry>, s: Seq<char>, dag: Seq<Seq<usize>>, i: int) -> int {
    best_seq(d, s, dag, i)[0]
}

/// The selected end position at `i`.
pub open spec fn chosen(d: Seq<WordEntry>, s: Seq<char>, dag: Seq<Seq<usize>>, i: int) -> usize {
    pick(cands(d, s, i, dag[i], best_seq(d, s, dag, i + 1))).0
}

pub proof fn lemma_best_seq_index(
    d: Seq<WordEntry>,
    s: Seq<char>,
    dag: Seq<Seq<usize>>,
    i: int,
    k: int,
)
    requires
        0 <= i,
        0 <= k,
        i + k <= s.len(),
    ensures
        best_seq(d, s, dag, i).len() == s.len() - i + 1,
        best_seq(d, s, dag, i)[k] == best_at(d, s, dag, i + k),
    decreases s.len() - i,
{
    if i < s.len() {
        lemma_best_seq_index(d, s, dag, i + 1, if k > 0 {
            k - 1
        } else {
            0
        });
    }
}

/// Every selected end lies strictly beyond its start, within the sentence.
pub proof fn lemma_chosen_in_range(d: Seq<WordEntry>, s: Seq<char>, i: int)
    requires
        0 <= i < s.len(),
        s.len() <= usize::MAX,
    ensures
        i < chosen(d, s, dag_of(d, s), i) <= s.len(),
        ends_from(d, s, i, i + 1).contains(chosen(d, s, dag_of(d, s), i)),
{
    let dag = dag_of(d, s);
    let ends = ends_from(d, s, i, i + 1);
    lemma_ends_from(d, s, i, i + 1);
    assert(crate::dag::dag_edge(d, s, i, i + 1));
    assert(ends.contains((i + 1) as usize));
    assert(ends.len() >= 1);
    let cs = cands(d, s, i, ends, best_seq(d, s, dag, i + 1));
    lemma_pick_in(cs, cs.len() as int);
    let m = choose|m: int| 0 <= m < cs.len() && cs[m] == pick(cs);
    assert(cs[m].0 == ends[m]);
    assert(i + 1 <= ends[m] <= s.len());
}

/// The span chain selected from position `i`, with enough fuel to reach the
/// end of the sentence.
pub open spec fn route_from(
    d: Seq<WordEntry>,
    s: Seq<char>,
    dag: Seq<Seq<usize>>,
    i: int,
    fuel: nat,
) -> Seq<(usize, usize)>
    decreases fuel,
{
    if i >= s.len() || fuel == 0 {
        Seq::empty()
    } else {
        let j = chosen(d, s, dag, i);
        seq![((i as usize), j)] + route_from(d, s, dag, j as int, (fuel - 1) as nat)
    }
}

/// With ample fuel the chain does not depend on the exact fuel.
pub proof fn lemma_route_fuel(
    d: Seq<WordEntry>,
    s: Seq<char>,
    i: int,
    f1: nat,
    f2: nat,
)
    requires
        s.len() <= usize::MAX,
        0 <= i,
        f1 >= s.len() - i,
        f2 >= s.len() - i,
    ensures
        route_from(d, s, dag_of(d, s), i, f1) == route_from(d, s, dag_of(d, s), i, f2),
    decreases f1,
{
    let dag = dag_of(d, s);
    if i < s.len() {
        lemma_chosen_in_range(d, s, i);
        let j = chosen(d, s, dag, i);
        lemma_route_fuel(d, s, j as int, (f1 - 1) as nat, (f2 - 1) as nat);
    }
}

/// Overwrite one element of a vector.
fn vec_set<T>(v: &mut Vec<T>, i: usize, x: T)
    requires
        i < old(v)@.len(),
    ensures
        final(v)@ == old(v)@.update(i as int, x),
{
    v.remove(i);
    v.insert(i, x);
    proof {
        assert(v@ =~= old(v)@.update(i as int, x));
    }
}

/// Edge score, exact in fixed point.
pub fn edge_score_exec(dict: &Dict, s: &[char], i: usize, j: usize, lt: i128) -> (r: i128)
    requires
        i < j <= s@.len(),
        lt == lfp(
            if total_of(dict@) == 0 {
                1int
            } else {
                total_of(dict@)
            },
        ),
        0 <= lt <= 64 * 114,
    ensures
        r == edge_score(dict@, s@, i as int, j as int),
        -(64 * 114) <= r <= 64 * 114,
{
    let f = dict.freq(vstd::slice::slice_subrange(s, i, j));
    let x: u128 = if f == 0 {
        1
    } else {
        f as u128
    };
    let lf = log2_fp(x);
    lf - lt
}

/// Compute the arg-max end position for every start position.
pub fn route_dp(dict: &Dict, s: &[char], dagv: &Vec<Vec<usize>>, lt: i128) -> (r: Vec<usize>)
    requires
        dagv@.map_values(|v: Vec<usize>| v@) == dag_of(dict@, s@),
        lt == lfp(
            if total_of(dict@) == 0 {
                1int
            } else {
                total_of(dict@)
            },
        ),
        0 <= lt <= 64 * 114,
    ensures
        r@.len() == s@.len(),
        forall|i: int|
            0 <= i < s@.len() ==> (#[trigger] r@[i]) == chosen(dict@, s@, dag_of(dict@, s@), i)
                && i < r@[i] <= s@.len(),
{
    let ghost d = dict@;
    let ghost sv = s@;
    let ghost dag = dag_of(d, sv);
    let n = s.len();
    let mut best: Vec<i128> = Vec::new();
    let mut ch: Vec<usize> = Vec::new();
    best.push(0);
    let mut t: usize = 0;
    while t < n
        invariant
            t <= n,
            best@.len() == t + 1,
            forall|k: int| 0 <= k <= t ==> best@[k] == 0,
        decreases n - t,
    {
        best.push(0);
        t += 1;
    }
    let mut t2: usize = 0;
    while t2 < n
        invariant
            t2 <= n,
            ch@.len() == t2,
        decreases n - t2,
    {
        ch.push(0);
        t2 += 1;
    }
    proof {
        assert(best_seq(d, sv, dag, n as int) == seq![0int]);
        assert(dagv@.len() == dagv@.map_values(|v: Vec<usize>| v@).len());
        assert(dag.len() == n);
    }
    let mut ii: usize = n;
    while ii > 0
        invariant
            n == sv.len(),
            sv == s@,
            d == dict@,
            dag == dag_of(d, sv),
            dagv@.map_values(|v: Vec<usize>| v@) == dag,
            dagv@.len() == n,
            lt == lfp(
                if total_of(d) == 0 {
                    1int
                } else {
                    total_of(d)
                },
            ),
            0 <= lt <= 64 * 114,
            0 <= ii <= n,
            best@.len() == n + 1,
            ch@.len() == n,
            forall|k: int|
                ii <= k <= n ==> (#[trigger] best@[k]) == best_at(d, sv, dag, k) && -SCORE_MAX
                    <= best@[k] <= SCORE_MAX,
            forall|k: int|
                ii <= k < n ==> (#[trigger] ch@[k]) == chosen(d, sv, dag, k) && k < ch@[k] <= n,
        decreases ii,
    {
        let i = ii - 1;
        proof {
            assert(dagv@[i as int]@ == dag[i as int]);
            lemma_ends_from(d, sv, i as int, i + 1);
            assert(crate::dag::dag_edge(d, sv, i as int, i + 1));
            assert(ends_from(d, sv, i as int, i + 1).contains((i + 1) as usize));
        }
        let ends: &Vec<usize> = &dagv[i];
        let m = ends.len();
        assert(m >= 1);
        let ghost rest = best_seq(d, sv, dag, i + 1);
        let ghost cs = cands(d, sv, i as int, dag[i as int], rest);
        let j0 = ends[0];
        proof {
            assert(ends@[0] == dag[i as int][0]);
            assert(i < j0 <= n);
            lemma_best_seq_index(d, sv, dag, i + 1, j0 - i - 1);
            assert(rest[j0 - i - 1] == best_at(d, sv, dag, j0 as int));
        }
        let e0 = edge_score_exec(dict, s, i, j0, lt);
        let sc0 = sadd_exec(e0, best[j0]);
        proof {
            assert(cs[0] == (j0, sadd(edge_score(d, sv, i as int, j0 as int), rest[j0 - i - 1])));
            assert(cs[0] == (j0, sc0 as int));
            assert(pick_pre(cs, 1) == cs[0]);
        }
        let mut bj = j0;
        let mut bs = sc0;
        let mut k: usize = 1;
        while k < m
            invariant
                n == sv.len(),
                sv == s@,
                d == dict@,
                dag == dag_of(d, sv),
                lt == lfp(
                    if total_of(d) == 0 {
                        1int
                    } else {
                        total_of(d)
                    },
                ),
                0 <= lt <= 64 * 114,
                0 <= i < n,
                ii == i + 1,
                best@.len() == n + 1,
                forall|q: int|
                    ii <= q <= n ==> (#[trigger] best@[q]) == best_at(d, sv, dag, q) && -SCORE_MAX
                        <= best@[q] <= SCORE_MAX,
                m == ends@.len(),
                ends@ == dag[i as int],
                ends@ == ends_from(d, sv, i as int, i + 1),
                rest == best_seq(d, sv, dag, i + 1),
                cs == cands(d, sv, i as int, dag[i as int], rest),
                1 <= k <= m,
                (bj, bs as int) == pick_pre(cs, k as int),
                -SCORE_MAX <= bs <= SCORE_MAX,
            decreases m - k,
        {
            let j = ends[k];
            proof {
                lemma_ends_from(d, sv, i as int, i + 1);
                assert(ends@[k as int] == ends_from(d, sv, i as int, i + 1)[k as int]);
                assert(i + 1 <= j <= n);
                lemma_best_seq_index(d, sv, dag, i + 1, j - i - 1);
                assert(rest[j - i - 1] == best_at(d, sv, dag, j as int));
            }
            let e = edge_score_exec(dict, s, i, j, lt);
            let sc = sadd_exec(e, best[j]);
            proof {
                assert(cs[k as int] == (
                    j,
                    sadd(edge_score(d, sv, i as int, j as int), rest[j - i - 1]),
                ));
                assert(cs[k as int] == (j, sc as int));
            }
            if sc > bs {
                bj = j;
                bs = sc;
            }
            k += 1;
        }
        proof {
            assert((bj, bs as int) == pick(cs));
            assert(best_seq(d, sv, dag, i as int) == seq![pick(cs).1] + rest);
            assert(best_at(d, sv, dag, i as int) == bs as int);
            assert(chosen(d, sv, dag, i as int) == bj);
            lemma_chosen_in_range(d, sv, i as int);
        }
        vec_set(&mut best, i, bs);
        vec_set(&mut ch, i, bj);
        ii = i;
    }
    ch
}

/// Walk the arg-max table from position 0 and collect the span chain.
pub fn route_extract(dict: &Dict, s: &[char], chv: &Vec<usize>) -> (r: Vec<(usize, usize)>)
    requires
        chv@.len() == s@.len(),
        forall|i: int|
            0 <= i < s@.len() ==> (#[trigger] chv@[i]) == chosen(dict@, s@, dag_of(dict@, s@), i)
                && i < chv@[i] <= s@.len(),
    ensures
        r@ == route_from(dict@, s@, dag_of(dict@, s@), 0, s@.len() as nat),
        crate::text::is_partition(r@, s@.len() as int),
{
    let ghost d = dict@;
    let ghost sv = s@;
    let ghost dag = dag_of(d, sv);
    let n = s.len();
    let mut out: Vec<(usize, usize)> = Vec::new();
    let mut i: usize = 0;
    proof {
        assert(route_from(d, sv, dag, 0, n as nat) =~= out@ + route_from(d, sv, dag, 0, n as nat));
    }
    while i < n
        invariant
            n == sv.len(),
            sv == s@,
            d == dict@,
            dag == dag_of(d, sv),
            chv@.len() == n,
            forall|q: int|
                0 <= q < n ==> (#[trigger] chv@[q]) == chosen(d, sv, dag, q) && q < chv@[q] <= n,
            0 <= i <= n,
            route_from(d, sv, dag, 0, n as nat) == out@ + route_from(
                d,
                sv,
                dag,
                i as int,
                (n - i) as nat,
            ),
        decreases n - i,
    {
        let j = chv[i];
        let ghost prev = out@;
        out.push((i, j));
        proof {
            assert(route_from(d, sv, dag, i as int, (n - i) as nat) == seq![(i, j)] + route_from(
                d,
                sv,
                dag,
                j as int,
                (n - i - 1) as nat,
            ));
            lemma_route_fuel(d, sv, j as int, (n - i - 1) as nat, (n - j) as nat);
            assert(prev + (seq![(i, j)] + route_from(d, sv, dag, j as int, (n - j) as nat)) =~= out@
                + route_from(d, sv, dag, j as int, (n - j) as nat));
        }
        i = j;
    }
    proof {
        assert(route_from(d, sv, dag, n as int, 0) =~= Seq::<(usize, usize)>::empty());
        assert(out@ + Seq::<(usize, usize)>::empty() =~= out@);
        lemma_route_chain(d, sv, 0, n as nat);
    }
    out
}

/// The selected spans tile `[i, s.len())`.
pub proof fn lemma_route_chain(d: Seq<WordEntry>, s: Seq<char>, i: int, fuel: nat)
    requires
        s.len() <= usize::MAX,
        0 <= i <= s.len(),
        fuel >= s.len() - i,
    ensures
        crate::text::is_chain(route_from(d, s, dag_of(d, s), i, fuel), i, s.len() as int),
    decreases fuel,
{
    let dag = dag_of(d, s);
    let r = route_from(d, s, dag, i, fuel);
    if i < s.len() {
        lemma_chosen_in_range(d, s, i);
        let j = chosen(d, s, dag, i);
        lemma_route_chain(d, s, j as int, (fuel - 1) as nat);
        assert(r.drop_first() =~= route_from(d, s, dag, j as int, (fuel - 1) as nat));
    }
}

} // verus!
