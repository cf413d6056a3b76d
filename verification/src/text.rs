//! Characters, spans and partitions.
//!
//! A segmentation of a sentence of `n` characters is a sequence of spans
//! `(start, end)` in character positions.  `is_chain` says the spans tile an
//! interval without gaps or overlaps; `words_of` reads the corresponding
//! substrings back out.

use vstd::prelude::*;

verus! {

/// CJK unified ideograph (the character class the HMM recognizer works on).
pub open spec fn is_han(c: char) -> bool {
    0x4E00 <= c as u32 <= 0x9FFF
}

/// Decimal ASCII digit.
pub open spec fn is_ascii_digit(c: char) -> bool {
    48 <= c as u32 <= 57
}

/// Latin letter.
pub open spec fn is_ascii_alpha(c: char) -> bool {
    (65 <= c as u32 <= 90) || (97 <= c as u32 <= 122)
}

pub fn is_han_exec(c: char) -> (r: bool)
    ensures
        r == is_han(c),
{
    let u = c as u32;
    0x4E00 <= u && u <= 0x9FFF
}

pub fn is_ascii_digit_exec(c: char) -> (r: bool)
    ensures
        r == is_ascii_digit(c),
{
    let u = c as u32;
    48 <= u && u <= 57
}

pub fn is_ascii_alpha_exec(c: char) -> (r: bool)
    ensures
        r == is_ascii_alpha(c),
{
    let u = c as u32;
    (65 <= u && u <= 90) || (97 <= u && u <= 122)
}

/// Character-sequence equality, decided left to right.
pub fn chars_eq(a: &[char], b: &[char]) -> (r: bool)
    ensures
        r == (a@ == b@),
{
    if a.len() != b.len() {
        assert(a@ != b@) by {
            assert(a@.len() != b@.len());
        }
        return false;
    }
    let n = a.len();
    let mut i: usize = 0;
    while i < n
        invariant
            n == a@.len() == b@.len(),
            0 <= i <= n,
            forall|k: int| 0 <= k < i ==> a@[k] == b@[k],
        decreases n - i,
    {
        if *vstd::slice::slice_index_get(a, i) != *vstd::slice::slice_index_get(b, i) {
            assert(a@ != b@) by {
                assert(a@[i as int] != b@[i as int]);
            }
            return false;
        }
        i += 1;
    }
    assert(a@ =~= b@);
    true
}

/// Copy a span of a sentence into an owned word.
pub fn word_of(s: &[char], start: usize, end: usize) -> (r: Vec<char>)
    requires
        start <= end <= s@.len(),
    ensures
        r@ == s@.subrange(start as int, end as int),
{
    vstd::slice::slice_to_vec(vstd::slice::slice_subrange(s, start, end))
}

/// Concatenation of a sequence of words, front to back.
pub open spec fn concat_all(ws: Seq<Seq<char>>) -> Seq<char>
    decreases ws.len(),
{
    if ws.len() == 0 {
        Seq::empty()
    } else {
        ws.first() + concat_all(ws.drop_first())
    }
}

/// The spans tile the interval `[a, b)`: consecutive, non-empty, no gaps.
pub open spec fn is_chain(ivs: Seq<(usize, usize)>, a: int, b: int) -> bool
    decreases ivs.len(),
{
    if ivs.len() == 0 {
        a == b
    } else {
        &&& ivs.first().0 == a
        &&& ivs.first().0 < ivs.first().1
        &&& is_chain(ivs.drop_first(), ivs.first().1 as int, b)
    }
}

/// The spans tile the whole sentence `[0, n)`.
pub open spec fn is_partition(ivs: Seq<(usize, usize)>, n: int) -> bool {
    is_chain(ivs, 0, n)
}

/// Every span lies inside `[0, n)` and is non-empty.
pub open spec fn spans_in_bounds(ivs: Seq<(usize, usize)>, n: int) -> bool {
    forall|k: int| 0 <= k < ivs.len() ==> (#[trigger] ivs[k]).0 < ivs[k].1 <= n
}

/// The substrings selected by a sequence of spans.
pub open spec fn words_of(s: Seq<char>, ivs: Seq<(usize, usize)>) -> Seq<Seq<char>> {
    ivs.map_values(|iv: (usize, usize)| s.subrange(iv.0 as int, iv.1 as int))
}

pub proof fn lemma_chain_bounds(ivs: Seq<(usize, usize)>, a: int, b: int)
    requires
        is_chain(ivs, a, b),
        0 <= a,
    ensures
        a <= b,
        forall|k: int| 0 <= k < ivs.len() ==> a <= #[trigger] ivs[k].0 < ivs[k].1 <= b,
    decreases ivs.len(),
{
    if ivs.len() > 0 {
        lemma_chain_bounds(ivs.drop_first(), ivs.first().1 as int, b);
        assert forall|k: int| 0 <= k < ivs.len() implies a <= #[trigger] ivs[k].0 < ivs[k].1
            <= b by {
            if k > 0 {
                assert(ivs.drop_first()[k - 1] == ivs[k]);
            }
        }
    }
}

/// A chain of spans reads back exactly the interval it tiles.
pub proof fn lemma_chain_concat(s: Seq<char>, ivs: Seq<(usize, usize)>, a: int, b: int)
    requires
        is_chain(ivs, a, b),
        0 <= a,
        b <= s.len(),
    ensures
        concat_all(words_of(s, ivs)) == s.subrange(a, b),
    decreases ivs.len(),
{
    lemma_chain_bounds(ivs, a, b);
    if ivs.len() == 0 {
        assert(concat_all(words_of(s, ivs)) =~= s.subrange(a, b));
    } else {
        let c = ivs.first().1 as int;
        lemma_chain_bounds(ivs.drop_first(), c, b);
        lemma_chain_concat(s, ivs.drop_first(), c, b);
        assert(words_of(s, ivs).drop_first() =~= words_of(s, ivs.drop_first()));
        assert(words_of(s, ivs).first() == s.subrange(a, c));
        assert(s.subrange(a, c) + s.subrange(c, b) =~= s.subrange(a, b));
    }
}

/// A partition of the whole sentence reads back the sentence itself.
pub proof fn lemma_partition_concat(s: Seq<char>, ivs: Seq<(usize, usize)>)
    requires
        is_partition(ivs, s.len() as int),
    ensures
        concat_all(words_of(s, ivs)) == s,
{
    lemma_chain_concat(s, ivs, 0, s.len() as int);
    assert(s.subrange(0, s.len() as int) =~= s);
}

/// Concatenating two chains over adjacent intervals gives a chain.
pub proof fn lemma_chain_append(
    xs: Seq<(usize, usize)>,
    ys: Seq<(usize, usize)>,
    a: int,
    m: int,
    b: int,
)
    requires
        is_chain(xs, a, m),
        is_chain(ys, m, b),
    ensures
        is_chain(xs + ys, a, b),
    decreases xs.len(),
{
    if xs.len() == 0 {
        assert(xs + ys =~= ys);
    } else {
        lemma_chain_append(xs.drop_first(), ys, xs.first().1 as int, m, b);
        assert((xs + ys).drop_first() =~= xs.drop_first() + ys);
    }
}

} // verus!
