//! The part-of-speech tagger.
//!
//! Each precise-mode token is tagged from the dictionary when possible;
//! otherwise by character class (digits, Latin letters), by a POS-labelled
//! Viterbi table for ideograph runs, or by the generic unknown tag.

use vstd::prelude::*;

use crate::arith::{sadd, sadd_exec, SCORE_MAX};
use crate::dict::{tag_of, Dict, WordEntry};
use crate::dictfile::all_digits;
use crate::hmm::{arg4, max4, max4_exec};
use crate::segment::{cut_spans, cut_spans_exec, lemma_partition_bounds};
use crate::text::{is_ascii_alpha, is_han};

verus! {

/// All characters are Latin letters.
pub open spec fn all_alpha(f: Seq<char>) -> bool {
    forall|k: int| 0 <= k < f.len() ==> is_ascii_alpha(#[trigger] f[k])
}

/// All characters are CJK ideographs.
pub open spec fn all_han(f: Seq<char>) -> bool {
    forall|k: int| 0 <= k < f.len() ==> is_han(#[trigger] f[k])
}

/// Initial log-probability of each tag state (0=n, 1=v, 2=a, 3=d).
pub open spec fn pos_init(st: int) -> int {
    if st == 0 {
        -400
    } else if st == 1 {
        -600
    } else if st == 2 {
        -900
    } else {
        -1000
    }
}

/// Tag transition: staying in a tag is favoured.
pub open spec fn pos_trans(a: int, b: int) -> int {
    if a == b {
        -600
    } else {
        -900
    }
}

/// Tag emission: a sparse per-character table with a floor.
pub open spec fn pos_emit(st: int, c: char) -> int {
    if c == '\u{4eec}' {
        if st == 0 {
            -1000
        } else {
            -4000
        }
    } else {
        -3000
    }
}

fn pos_init_exec(st: usize) -> (r: i128)
    ensures
        r == pos_init(st as int),
{
    if st == 0 {
        -400
    } else if st == 1 {
        -600
    } else if st == 2 {
        -900
    } else {
        -1000
    }
}

fn pos_trans_exec(a: usize, b: usize) -> (r: i128)
    ensures
        r == pos_trans(a as int, b as int),
{
    if a == b {
        -600
    } else {
        -900
    }
}

fn pos_emit_exec(st: usize, c: char) -> (r: i128)
    ensures
        r == pos_emit(st as int, c),
{
    if c == '\u{4eec}' {
        if st == 0 {
            -1000
        } else {
            -4000
        }
    } else {
        -3000
    }
}

/// POS Viterbi score row at time `t`.
pub open spec fn pos_row(run: Seq<char>, t: int) -> Seq<int>
    decreases t,
{
    if t <= 0 {
        Seq::new(4, |st: int| sadd(pos_init(st), pos_emit(st, run[0])))
    } else {
        let p = pos_row(run, t - 1);
        Seq::new(
            4,
            |st: int|
                sadd(
                    max4(
                        sadd(p[0], pos_trans(0, st)),
                        sadd(p[1], pos_trans(1, st)),
                        sadd(p[2], pos_trans(2, st)),
                        sadd(p[3], pos_trans(3, st)),
                    ),
                    pos_emit(st, run[t]),
                ),
        )
    }
}

/// The inferred tag state of a non-empty run.
pub open spec fn pos_final(run: Seq<char>) -> int {
    let r = pos_row(run, run.len() - 1);
    arg4(r[0], r[1], r[2], r[3])
}

/// The tag character of a tag state.
pub open spec fn tag_char(st: int) -> char {
    if st == 0 {
        'n'
    } else if st == 1 {
        'v'
    } else if st == 2 {
        'a'
    } else {
        'd'
    }
}

/// The tag of one token: dictionary-supplied when available, else by
/// character class, else HMM-inferred, else the generic unknown tag.
pub open spec fn word_tag(d: Seq<WordEntry>, s: Seq<char>, a: int, b: int) -> Seq<char> {
    let wsub = s.subrange(a, b);
    match tag_of(d, wsub) {
        Some(t) => t,
        None => {
            if all_digits(wsub) {
                seq!['m']
            } else if all_alpha(wsub) {
                seq!['e', 'n', 'g']
            } else if all_han(wsub) {
                seq![tag_char(pos_final(wsub))]
            } else {
                seq!['x']
            }
        },
    }
}

/// The tagged-word sequence of a sentence.
pub open spec fn tag_pairs(d: Seq<WordEntry>, s: Seq<char>, hmm: bool) -> Seq<
    (Seq<char>, Seq<char>),
> {
    cut_spans(d, s, hmm).map_values(
        |iv: (usize, usize)| (s.subrange(iv.0 as int, iv.1 as int), word_tag(d, s, iv.0 as int, iv.1 as int)),
    )
}

/// A word with its part-of-speech tag.
pub struct TaggedWord {
    pub word: Vec<char>,
    pub tag: Vec<char>,
}

fn check_digits(s: &[char], a: usize, b: usize) -> (r: bool)
    requires
        a <= b <= s@.len(),
    ensures
        r == all_digits(s@.subrange(a as int, b as int)),
{
    let ghost wsub = s@.subrange(a as int, b as int);
    let mut i: usize = a;
    while i < b
        invariant
            a <= i <= b <= s@.len(),
            wsub == s@.subrange(a as int, b as int),
            forall|k: int| 0 <= k < i - a ==> crate::text::is_ascii_digit(#[trigger] wsub[k]),
        decreases b - i,
    {
        if !crate::text::is_ascii_digit_exec(*vstd::slice::slice_index_get(s, i)) {
            assert(wsub[i - a] == s@[i as int]);
            return false;
        }
        assert(wsub[i - a] == s@[i as int]);
        i += 1;
    }
    true
}

fn check_alpha(s: &[char], a: usize, b: usize) -> (r: bool)
    requires
        a <= b <= s@.len(),
    ensures
        r == all_alpha(s@.subrange(a as int, b as int)),
{
    let ghost wsub = s@.subrange(a as int, b as int);
    let mut i: usize = a;
    while i < b
        invariant
            a <= i <= b <= s@.len(),
            wsub == s@.subrange(a as int, b as int),
            forall|k: int| 0 <= k < i - a ==> is_ascii_alpha(#[trigger] wsub[k]),
        decreases b - i,
    {
        if !crate::text::is_ascii_alpha_exec(*vstd::slice::slice_index_get(s, i)) {
            assert(wsub[i - a] == s@[i as int]);
            return false;
        }
        assert(wsub[i - a] == s@[i as int]);
        i += 1;
    }
    true
}

fn check_han(s: &[char], a: usize, b: usize) -> (r: bool)
    requires
        a <= b <= s@.len(),
    ensures
        r == all_han(s@.subrange(a as int, b as int)),
{
    let ghost wsub = s@.subrange(a as int, b as int);
    let mut i: usize = a;
    while i < b
        invariant
            a <= i <= b <= s@.len(),
            wsub == s@.subrange(a as int, b as int),
            forall|k: int| 0 <= k < i - a ==> is_han(#[trigger] wsub[k]),
        decreases b - i,
    {
        if !crate::text::is_han_exec(*vstd::slice::slice_index_get(s, i)) {
            assert(wsub[i - a] == s@[i as int]);
            return false;
        }
        assert(wsub[i - a] == s@[i as int]);
        i += 1;
    }
    true
}

/// Infer the tag state of `s[a .. b)` by the POS Viterbi tables.
fn pos_infer(s: &[char], a: usize, b: usize) -> (st: usize)
    requires
        a < b <= s@.len(),
    ensures
        st == pos_final(s@.subrange(a as int, b as int)),
        st < 4,
{
    let run = vstd::slice::slice_subrange(s, a, b);
    let ghost rv = run@;
    let l = run.len();
    let c0 = *vstd::slice::slice_index_get(run, 0);
    let mut row: Vec<i128> = Vec::new();
    let mut st0: usize = 0;
    while st0 < 4
        invariant
            rv == run@,
            rv.len() >= 1,
            c0 == rv[0],
            st0 <= 4,
            row@.len() == st0,
            forall|q: int|
                0 <= q < st0 ==> (#[trigger] row@[q]) == pos_row(rv, 0)[q] && -SCORE_MAX
                    <= row@[q] <= SCORE_MAX,
        decreases 4 - st0,
    {
        let v = sadd_exec(pos_init_exec(st0), pos_emit_exec(st0, c0));
        row.push(v);
        st0 += 1;
    }
    let mut t: usize = 1;
    while t < l
        invariant
            rv == run@,
            run@.len() == l,
            1 <= t <= l,
            row@.len() == 4,
            forall|q: int|
                0 <= q < 4 ==> (#[trigger] row@[q]) == pos_row(rv, t - 1)[q] && -SCORE_MAX
                    <= row@[q] <= SCORE_MAX,
        decreases l - t,
    {
        let ct = *vstd::slice::slice_index_get(run, t);
        let mut nrow: Vec<i128> = Vec::new();
        let mut w: usize = 0;
        while w < 4
            invariant
                rv == run@,
                run@.len() == l,
                1 <= t < l,
                ct == rv[t as int],
                row@.len() == 4,
                forall|q: int|
                    0 <= q < 4 ==> (#[trigger] row@[q]) == pos_row(rv, t - 1)[q] && -SCORE_MAX
                        <= row@[q] <= SCORE_MAX,
                w <= 4,
                nrow@.len() == w,
                forall|z: int|
                    0 <= z < w ==> (#[trigger] nrow@[z]) == pos_row(rv, t as int)[z] && -SCORE_MAX
                        <= nrow@[z] <= SCORE_MAX,
            decreases 4 - w,
        {
            let q0 = sadd_exec(row[0], pos_trans_exec(0, w));
            let q1 = sadd_exec(row[1], pos_trans_exec(1, w));
            let q2 = sadd_exec(row[2], pos_trans_exec(2, w));
            let q3 = sadd_exec(row[3], pos_trans_exec(3, w));
            let (m, _) = max4_exec(q0, q1, q2, q3);
            let v = sadd_exec(m, pos_emit_exec(w, ct));
            nrow.push(v);
            w += 1;
        }
        row = nrow;
        t += 1;
    }
    let (_, st) = max4_exec(row[0], row[1], row[2], row[3]);
    st
}

/// Tag a sentence: precise-mode segmentation, each token tagged.  The
/// words concatenate back to the sentence exactly.
pub fn tag(dict: &Dict, s: &[char], use_hmm: bool) -> (r: Vec<TaggedWord>)
    ensures
        r@.map_values(|tw: TaggedWord| (tw.word@, tw.tag@)) == tag_pairs(dict@, s@, use_hmm),
        crate::text::concat_all(
            r@.map_values(|tw: TaggedWord| tw.word@),
        ) == s@,
{
    let ghost d = dict@;
    let ghost sv = s@;
    let spans = cut_spans_exec(dict, s, use_hmm);
    proof {
        lemma_partition_bounds(spans@, sv.len() as int);
    }
    let n = spans.len();
    let mut r: Vec<TaggedWord> = Vec::new();
    let mut i: usize = 0;
    while i < n
        invariant
            d == dict@,
            sv == s@,
            n == spans@.len(),
            spans@ == cut_spans(d, sv, use_hmm),
            crate::text::spans_in_bounds(spans@, sv.len() as int),
            0 <= i <= n,
            r@.len() == i,
            forall|q: int|
                0 <= q < i ==> (#[trigger] r@[q]).word@ == sv.subrange(
                    spans@[q].0 as int,
                    spans@[q].1 as int,
                ) && r@[q].tag@ == word_tag(d, sv, spans@[q].0 as int, spans@[q].1 as int),
        decreases n - i,
    {
        let (a, b) = spans[i];
        let word = crate::text::word_of(s, a, b);
        let tagv: Vec<char> = match dict.tag_lookup(word.as_slice()) {
            Some(t) => t,
            None => {
                if check_digits(s, a, b) {
                    mk1('m')
                } else if check_alpha(s, a, b) {
                    mk3('e', 'n', 'g')
                } else if check_han(s, a, b) {
                    let st = pos_infer(s, a, b);
                    if st == 0 {
                        mk1('n')
                    } else if st == 1 {
                        mk1('v')
                    } else if st == 2 {
                        mk1('a')
                    } else {
                        mk1('d')
                    }
                } else {
                    mk1('x')
                }
            },
        };
        r.push(TaggedWord { word, tag: tagv });
        i += 1;
    }
    proof {
        assert(r@.map_values(|tw: TaggedWord| (tw.word@, tw.tag@)) =~= tag_pairs(d, sv, use_hmm));
        assert(r@.map_values(|tw: TaggedWord| tw.word@) =~= crate::text::words_of(sv, spans@));
        crate::text::lemma_partition_concat(sv, spans@);
    }
    r
}

fn mk1(a: char) -> (v: Vec<char>)
    ensures
        v@ == seq![a],
{
    let mut v = Vec::new();
    v.push(a);
    proof {
        assert(v@ =~= seq![a]);
    }
    v
}

fn mk3(a: char, b: char, c: char) -> (v: Vec<char>)
    ensures
        v@ == seq![a, b, c],
{
    let mut v = Vec::new();
    v.push(a);
    v.push(b);
    v.push(c);
    proof {
        assert(v@ =~= seq![a, b, c]);
    }
    v
}

} // verus!
