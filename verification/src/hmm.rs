//! The four-state HMM recognizer (Begin / Middle / End / Single).
//!
//! A Viterbi decoder over fixed transition and emission tables recovers
//! word boundaries in runs the dictionary could not resolve: the decoded
//! state sequence is split after every End or Single state.  Probabilities
//! are fixed-point log values (scale 1000); the tables are precomputed
//! corpus statistics, sparse over characters with a floor for unseen ones.

use vstd::prelude::*;

use crate::arith::{sadd, sadd_exec, SCORE_MAX};
use crate::text::is_chain;

verus! {

/// Initial log-probability of each state (0=B, 1=M, 2=E, 3=S).
pub open spec fn init_w(st: int) -> int {
    if st == 0 {
        -263
    } else if st == 3 {
        -732
    } else {
        -100000
    }
}

/// Transition log-probability; impossible transitions get the floor.
pub open spec fn trans_w(a: int, b: int) -> int {
    if a == 0 && b == 1 {
        -900
    } else if a == 0 && b == 2 {
        -500
    } else if a == 1 && b == 1 {
        -800
    } else if a == 1 && b == 2 {
        -300
    } else if a == 2 && b == 0 {
        -600
    } else if a == 2 && b == 3 {
        -800
    } else if a == 3 && b == 0 {
        -700
    } else if a == 3 && b == 3 {
        -650
    } else {
        -100000
    }
}

/// Emission log-probability: a sparse per-character table with a floor.
pub open spec fn emit_w(st: int, c: char) -> int {
    if c == '\u{7684}' || c == '\u{4e86}' || c == '\u{662f}' {
        if st == 3 {
            0
        } else if st == 1 {
            -3000
        } else {
            -2000
        }
    } else {
        -6000
    }
}

fn init_exec(st: usize) -> (r: i128)
    ensures
        r == init_w(st as int),
{
    if st == 0 {
        -263
    } else if st == 3 {
        -732
    } else {
        -100000
    }
}

fn trans_exec(a: usize, b: usize) -> (r: i128)
    ensures
        r == trans_w(a as int, b as int),
{
    if a == 0 && b == 1 {
        -900
    } else if a == 0 && b == 2 {
        -500
    } else if a == 1 && b == 1 {
        -800
    } else if a == 1 && b == 2 {
        -300
    } else if a == 2 && b == 0 {
        -600
    } else if a == 2 && b == 3 {
        -800
    } else if a == 3 && b == 0 {
        -700
    } else if a == 3 && b == 3 {
        -650
    } else {
        -100000
    }
}

fn emit_exec(st: usize, c: char) -> (r: i128)
    ensures
        r == emit_w(st as int, c),
{
    if c == '\u{7684}' || c == '\u{4e86}' || c == '\u{662f}' {
        if st == 3 {
            0
        } else if st == 1 {
            -3000
        } else {
            -2000
        }
    } else {
        -6000
    }
}

/// Largest of four scores.
pub open spec fn max4(a: int, b: int, c: int, d: int) -> int {
    if a >= b && a >= c && a >= d {
        a
    } else if b >= c && b >= d {
        b
    } else if c >= d {
        c
    } else {
        d
    }
}

/// Index of the largest of four scores, lowest index on ties.
pub open spec fn arg4(a: int, b: int, c: int, d: int) -> int {
    if a >= b && a >= c && a >= d {
        0
    } else if b >= c && b >= d {
        1
    } else if c >= d {
        2
    } else {
        3
    }
}

pub fn max4_exec(a: i128, b: i128, c: i128, d: i128) -> (r: (i128, usize))
    ensures
        r.0 == max4(a as int, b as int, c as int, d as int),
        r.1 == arg4(a as int, b as int, c as int, d as int),
        r.1 < 4,
{
    if a >= b && a >= c && a >= d {
        (a, 0)
    } else if b >= c && b >= d {
        (b, 1)
    } else if c >= d {
        (c, 2)
    } else {
        (d, 3)
    }
}

/// Viterbi score row at time `t` (one score per state).
pub open spec fn vit_row(run: Seq<char>, t: int) -> Seq<int>
    decreases t,
{
    if t <= 0 {
        Seq::new(4, |st: int| sadd(init_w(st), emit_w(st, run[0])))
    } else {
        let p = vit_row(run, t - 1);
        Seq::new(
            4,
            |st: int|
                sadd(
                    max4(
                        sadd(p[0], trans_w(0, st)),
                        sadd(p[1], trans_w(1, st)),
                        sadd(p[2], trans_w(2, st)),
                        sadd(p[3], trans_w(3, st)),
                    ),
                    emit_w(st, run[t]),
                ),
        )
    }
}

/// Arg-max predecessor of state `st` at time `t >= 1`.
pub open spec fn vit_bp(run: Seq<char>, t: int, st: int) -> int {
    let p = vit_row(run, t - 1);
    arg4(
        sadd(p[0], trans_w(0, st)),
        sadd(p[1], trans_w(1, st)),
        sadd(p[2], trans_w(2, st)),
        sadd(p[3], trans_w(3, st)),
    )
}

/// Best final state.
pub open spec fn vit_final(run: Seq<char>) -> int {
    let r = vit_row(run, run.len() - 1);
    arg4(r[0], r[1], r[2], r[3])
}

/// The decoded state path up to time `t`, ending in `st`.
pub open spec fn vit_path(run: Seq<char>, t: int, st: int) -> Seq<int>
    decreases t,
{
    if t <= 0 {
        seq![st]
    } else {
        vit_path(run, t - 1, vit_bp(run, t, st)) + seq![st]
    }
}

/// The decoded state sequence of a non-empty run.
#[verifier::opaque]
pub open spec fn hmm_states(run: Seq<char>) -> Seq<int> {
    vit_path(run, run.len() - 1, vit_final(run))
}

/// The decoded state sequence covers the run.
pub proof fn lemma_hmm_states_len(run: Seq<char>)
    requires
        run.len() >= 1,
    ensures
        hmm_states(run).len() == run.len(),
{
    reveal(hmm_states);
    lemma_vit_path_len(run, run.len() - 1, vit_final(run));
}

/// Split a state sequence into spans: a word ends after every End (2) or
/// Single (3) state; a trailing open word is flushed.
pub open spec fn split_states(states: Seq<int>, base: int, k: int, wstart: int) -> Seq<
    (usize, usize),
>
    decreases states.len() - k,
{
    if k < 0 || k >= states.len() {
        if wstart < states.len() {
            seq![(((base + wstart) as usize), ((base + states.len()) as usize))]
        } else {
            Seq::empty()
        }
    } else if states[k] == 2 || states[k] == 3 {
        seq![(((base + wstart) as usize), ((base + k + 1) as usize))] + split_states(
            states,
            base,
            k + 1,
            k + 1,
        )
    } else {
        split_states(states, base, k + 1, wstart)
    }
}

/// The spans the recognizer yields for `s[a .. b)`.
#[verifier::opaque]
pub open spec fn hmm_spans(s: Seq<char>, a: int, b: int) -> Seq<(usize, usize)> {
    split_states(hmm_states(s.subrange(a, b)), a, 0, 0)
}

pub proof fn lemma_split_chain(states: Seq<int>, base: int, k: int, wstart: int)
    requires
        0 <= wstart <= k,
        k <= states.len(),
        0 <= base,
        base + states.len() <= usize::MAX,
    ensures
        is_chain(split_states(states, base, k, wstart), base + wstart, base + states.len()),
    decreases states.len() - k,
{
    let r = split_states(states, base, k, wstart);
    let b = base + states.len();
    if k >= states.len() {
        if wstart < states.len() {
            assert(r.drop_first() =~= Seq::<(usize, usize)>::empty());
            assert(r.first().0 == base + wstart && r.first().1 == b);
            assert(is_chain(r.drop_first(), b, b));
            assert(is_chain(r, base + wstart, b));
        } else {
            assert(wstart == states.len());
            assert(is_chain(r, base + wstart, b));
        }
    } else if states[k] == 2 || states[k] == 3 {
        lemma_split_chain(states, base, k + 1, k + 1);
        assert(r.drop_first() =~= split_states(states, base, k + 1, k + 1));
        assert(r.first().0 == base + wstart && r.first().1 == base + k + 1);
        assert(is_chain(r, base + wstart, b));
    } else {
        lemma_split_chain(states, base, k + 1, wstart);
        assert(is_chain(r, base + wstart, b));
    }
}

pub proof fn lemma_vit_path_len(run: Seq<char>, t: int, st: int)
    requires
        t >= 0,
    ensures
        vit_path(run, t, st).len() == t + 1,
    decreases t,
{
    if t > 0 {
        lemma_vit_path_len(run, t - 1, vit_bp(run, t, st));
    }
}

/// The recognizer: Viterbi decoding over `s[a .. b)`, then word boundaries
/// after every End or Single state.
#[verifier::rlimit(60)]
pub fn hmm_cut(s: &[char], a: usize, b: usize) -> (r: Vec<(usize, usize)>)
    requires
        a < b <= s@.len(),
    ensures
        r@ == hmm_spans(s@, a as int, b as int),
        is_chain(r@, a as int, b as int),
{
    let run = vstd::slice::slice_subrange(s, a, b);
    let ghost rv = run@;
    let l = run.len();
    let mut rows: Vec<Vec<i128>> = Vec::new();
    let mut bps: Vec<Vec<usize>> = Vec::new();
    let mut row0: Vec<i128> = Vec::new();
    let c0 = *vstd::slice::slice_index_get(run, 0);
    let mut st: usize = 0;
    while st < 4
        invariant
            rv == run@,
            rv.len() >= 1,
            c0 == rv[0],
            st <= 4,
            row0@.len() == st,
            forall|q: int|
                0 <= q < st ==> (#[trigger] row0@[q]) == vit_row(rv, 0)[q] && -SCORE_MAX
                    <= row0@[q] <= SCORE_MAX,
        decreases 4 - st,
    {
        let v = sadd_exec(init_exec(st), emit_exec(st, c0));
        row0.push(v);
        st += 1;
    }
    rows.push(row0);
    let mut t: usize = 1;
    while t < l
        invariant
            rv == run@,
            run@.len() == l,
            l == b - a,
            1 <= t <= l,
            rows@.len() == t,
            bps@.len() == t - 1,
            forall|q: int, w: int|
                0 <= q < t && 0 <= w < 4 ==> (#[trigger] rows@[q]@[w]) == vit_row(rv, q)[w]
                    && -SCORE_MAX <= rows@[q]@[w] <= SCORE_MAX,
            forall|q: int| 0 <= q < t ==> (#[trigger] rows@[q])@.len() == 4,
            forall|q: int, w: int|
                1 <= q < t && 0 <= w < 4 ==> (#[trigger] bps@[q - 1]@[w]) == vit_bp(rv, q, w)
                    && 0 <= bps@[q - 1]@[w] < 4,
            forall|q: int| 0 <= q < t - 1 ==> (#[trigger] bps@[q])@.len() == 4,
        decreases l - t,
    {
        let ct = *vstd::slice::slice_index_get(run, t);
        let mut row: Vec<i128> = Vec::new();
        let mut bprow: Vec<usize> = Vec::new();
        let mut w: usize = 0;
        while w < 4
            invariant
                rv == run@,
                run@.len() == l,
                1 <= t < l,
                ct == rv[t as int],
                rows@.len() == t,
                forall|q: int, z: int|
                    0 <= q < t && 0 <= z < 4 ==> (#[trigger] rows@[q]@[z]) == vit_row(rv, q)[z]
                        && -SCORE_MAX <= rows@[q]@[z] <= SCORE_MAX,
                forall|q: int| 0 <= q < t ==> (#[trigger] rows@[q])@.len() == 4,
                w <= 4,
                row@.len() == w,
                bprow@.len() == w,
                forall|z: int|
                    0 <= z < w ==> (#[trigger] row@[z]) == vit_row(rv, t as int)[z] && -SCORE_MAX
                        <= row@[z] <= SCORE_MAX,
                forall|z: int|
                    0 <= z < w ==> (#[trigger] bprow@[z]) == vit_bp(rv, t as int, z) && 0
                        <= bprow@[z] < 4,
            decreases 4 - w,
        {
            let prev = &rows[t - 1];
            let q0 = sadd_exec(prev[0], trans_exec(0, w));
            let q1 = sadd_exec(prev[1], trans_exec(1, w));
            let q2 = sadd_exec(prev[2], trans_exec(2, w));
            let q3 = sadd_exec(prev[3], trans_exec(3, w));
            let (m, g) = max4_exec(q0, q1, q2, q3);
            let v = sadd_exec(m, emit_exec(w, ct));
            row.push(v);
            bprow.push(g);
            w += 1;
        }
        rows.push(row);
        bps.push(bprow);
        t += 1;
    }
    let last = &rows[l - 1];
    let (_, fst) = max4_exec(last[0], last[1], last[2], last[3]);
    proof {
        assert(vit_final(rv) == fst);
    }
    let states = backtrack(&bps, Ghost(rv), l - 1, fst);
    proof {
        reveal(hmm_states);
        assert(states@.map_values(|u: usize| u as int) == hmm_states(rv));
        lemma_vit_path_len(rv, l - 1, vit_final(rv));
    }
    let ghost stv = hmm_states(rv);
    let sl = states.len();
    assert(sl == l);
    let mut out: Vec<(usize, usize)> = Vec::new();
    let mut k: usize = 0;
    let mut wstart: usize = 0;
    proof {
        assert(split_states(stv, a as int, 0, 0) =~= out@ + split_states(stv, a as int, 0, 0));
    }
    while k < sl
        invariant
            stv.len() == sl,
            sl == l,
            l == b - a,
            a < b <= s@.len(),
            states@.map_values(|u: usize| u as int) == stv,
            0 <= wstart <= k <= sl,
            split_states(stv, a as int, 0, 0) == out@ + split_states(
                stv,
                a as int,
                k as int,
                wstart as int,
            ),
        decreases sl - k,
    {
        let stk = states[k];
        proof {
            assert(stv[k as int] == states@[k as int] as int);
        }
        let ghost prev = out@;
        if stk == 2 || stk == 3 {
            out.push((a + wstart, a + k + 1));
            proof {
                assert(prev + (seq![(((a + wstart) as usize), ((a + k + 1) as usize))]
                    + split_states(stv, a as int, k + 1, k + 1)) =~= out@ + split_states(
                    stv,
                    a as int,
                    k + 1,
                    k + 1,
                ));
            }
            wstart = k + 1;
        }
        k += 1;
    }
    if wstart < sl {
        let ghost prev = out@;
        out.push((a + wstart, a + sl));
        proof {
            assert(prev + seq![(((a + wstart) as usize), ((a + sl) as usize))] =~= out@);
        }
    }
    proof {
        reveal(hmm_spans);
        assert(out@ =~= hmm_spans(s@, a as int, b as int));
        lemma_split_chain(stv, a as int, 0, 0);
    }
    out
}

/// Walk the back pointers from `(t, st)` down to time 0.
fn backtrack(bps: &Vec<Vec<usize>>, Ghost(rv): Ghost<Seq<char>>, t: usize, st: usize) -> (r: Vec<
    usize,
>)
    requires
        t < usize::MAX,
        bps@.len() >= t,
        st < 4,
        forall|q: int, w: int|
            1 <= q <= t && 0 <= w < 4 ==> (#[trigger] bps@[q - 1]@[w]) == vit_bp(rv, q, w) && 0
                <= bps@[q - 1]@[w] < 4,
        forall|q: int| 0 <= q < t ==> (#[trigger] bps@[q])@.len() == 4,
    ensures
        r@.map_values(|u: usize| u as int) == vit_path(rv, t as int, st as int),
        r@.len() == t + 1,
    decreases t,
{
    if t == 0 {
        let mut v: Vec<usize> = Vec::new();
        v.push(st);
        proof {
            assert(v@.map_values(|u: usize| u as int) =~= seq![st as int]);
        }
        v
    } else {
        let p = bps[t - 1][st];
        let mut v = backtrack(bps, Ghost(rv), t - 1, p);
        let ghost prev = v@;
        v.push(st);
        proof {
            assert(v@.map_values(|u: usize| u as int) =~= prev.map_values(|u: usize| u as int)
                + seq![st as int]);
        }
        v
    }
}

} // verus!
