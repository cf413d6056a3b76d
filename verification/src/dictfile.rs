//! The dictionary file format: lines of `word frequency [tag]`.
//!
//! Fields are separated by blanks, tabs or carriage returns; the frequency is
//! a decimal number that must fit 32 bits; blank lines are skipped.  Parsing
//! is all-or-nothing: the first malformed line is reported by its 1-based
//! number and nothing is applied.

use vstd::prelude::*;

use crate::dict::WordEntry;

verus! {

/// A malformed entry line, reported by its 1-based line number.
#[derive(Debug)]
pub struct DictLoadError {
    pub line: usize,
}

/// Field separator inside a line.
pub open spec fn is_blank(c: char) -> bool {
    c == ' ' || c == '\t' || c == '\r'
}

pub fn is_blank_exec(c: char) -> (r: bool)
    ensures
        r == is_blank(c),
{
    c == ' ' || c == '\t' || c == '\r'
}

/// Index of the first character satisfying `nl` (newline), or the length.
pub open spec fn find_nl(s: Seq<char>) -> int
    decreases s.len(),
{
    if s.len() == 0 {
        0
    } else if s.first() == '\n' {
        0
    } else {
        1 + find_nl(s.drop_first())
    }
}

pub proof fn lemma_find_nl(s: Seq<char>)
    ensures
        0 <= find_nl(s) <= s.len(),
        forall|k: int| 0 <= k < find_nl(s) ==> s[k] != '\n',
        find_nl(s) < s.len() ==> s[find_nl(s)] == '\n',
    decreases s.len(),
{
    if s.len() > 0 && s.first() != '\n' {
        lemma_find_nl(s.drop_first());
        assert forall|k: int| 0 <= k < find_nl(s) implies s[k] != '\n' by {
            if k > 0 {
                assert(s.drop_first()[k - 1] == s[k]);
            }
        }
        if find_nl(s) < s.len() {
            assert(s.drop_first()[find_nl(s.drop_first())] == s[find_nl(s)]);
        }
    }
}

/// Conversely: a newline at `k` after a newline-free prefix pins `find_nl`.
pub proof fn lemma_find_nl_at(s: Seq<char>, k: int)
    requires
        0 <= k <= s.len(),
        forall|m: int| 0 <= m < k ==> s[m] != '\n',
        k < s.len() ==> s[k] == '\n',
    ensures
        find_nl(s) == k,
    decreases s.len(),
{
    if s.len() > 0 && k > 0 {
        assert forall|m: int| 0 <= m < k - 1 implies s.drop_first()[m] != '\n' by {
            assert(s.drop_first()[m] == s[m + 1]);
        }
        if k - 1 < s.drop_first().len() {
            assert(s.drop_first()[k - 1] == s[k]);
        }
        lemma_find_nl_at(s.drop_first(), k - 1);
    }
}

/// The lines of the input, split on `'\n'`.
pub open spec fn lines_of(s: Seq<char>) -> Seq<Seq<char>>
    decreases s.len(),
    via lines_of_decreases
{
    let p = find_nl(s);
    if p >= s.len() {
        seq![s]
    } else {
        seq![s.take(p)] + lines_of(s.skip(p + 1))
    }
}

#[via_fn]
proof fn lines_of_decreases(s: Seq<char>) {
    lemma_find_nl(s);
}

/// Index of the first blank, or the length.
pub open spec fn find_blank(s: Seq<char>) -> int
    decreases s.len(),
{
    if s.len() == 0 {
        0
    } else if is_blank(s.first()) {
        0
    } else {
        1 + find_blank(s.drop_first())
    }
}

pub proof fn lemma_find_blank(s: Seq<char>)
    ensures
        0 <= find_blank(s) <= s.len(),
        forall|k: int| 0 <= k < find_blank(s) ==> !is_blank(s[k]),
        find_blank(s) < s.len() ==> is_blank(s[find_blank(s)]),
    decreases s.len(),
{
    if s.len() > 0 && !is_blank(s.first()) {
        lemma_find_blank(s.drop_first());
        assert forall|k: int| 0 <= k < find_blank(s) implies !is_blank(s[k]) by {
            if k > 0 {
                assert(s.drop_first()[k - 1] == s[k]);
            }
        }
        if find_blank(s) < s.len() {
            assert(s.drop_first()[find_blank(s.drop_first())] == s[find_blank(s)]);
        }
    }
}

pub proof fn lemma_find_blank_at(s: Seq<char>, k: int)
    requires
        0 <= k <= s.len(),
        forall|m: int| 0 <= m < k ==> !is_blank(s[m]),
        k < s.len() ==> is_blank(s[k]),
    ensures
        find_blank(s) == k,
    decreases s.len(),
{
    if s.len() > 0 && k > 0 {
        assert forall|m: int| 0 <= m < k - 1 implies !is_blank(s.drop_first()[m]) by {
            assert(s.drop_first()[m] == s[m + 1]);
        }
        if k - 1 < s.drop_first().len() {
            assert(s.drop_first()[k - 1] == s[k]);
        }
        lemma_find_blank_at(s.drop_first(), k - 1);
    }
}

/// The raw fields of a line, split on blanks (empties kept).
pub open spec fn raw_fields(s: Seq<char>) -> Seq<Seq<char>>
    decreases s.len(),
    via raw_fields_decreases
{
    let p = find_blank(s);
    if p >= s.len() {
        seq![s]
    } else {
        seq![s.take(p)] + raw_fields(s.skip(p + 1))
    }
}

#[via_fn]
proof fn raw_fields_decreases(s: Seq<char>) {
    lemma_find_blank(s);
}

/// The fields of a line: raw fields with empties dropped.
pub open spec fn fields_of(s: Seq<char>) -> Seq<Seq<char>> {
    raw_fields(s).filter(|f: Seq<char>| f.len() > 0)
}

/// Split the input into lines.
pub fn split_lines(s: &[char]) -> (r: Vec<Vec<char>>)
    ensures
        r@.map_values(|v: Vec<char>| v@) == lines_of(s@),
{
    let n = s.len();
    let mut out: Vec<Vec<char>> = Vec::new();
    let mut start: usize = 0;
    let mut i: usize = 0;
    proof {
        assert(s@.skip(0) =~= s@);
        assert(out@.map_values(|v: Vec<char>| v@) + lines_of(s@) =~= lines_of(s@));
    }
    while i < n
        invariant
            n == s@.len(),
            0 <= start <= i <= n,
            forall|k: int| start <= k < i ==> s@[k] != '\n',
            lines_of(s@) =~= out@.map_values(|v: Vec<char>| v@) + lines_of(s@.skip(start as int)),
        decreases n - i,
    {
        if *vstd::slice::slice_index_get(s, i) == '\n' {
            let line = crate::text::word_of(s, start, i);
            proof {
                let suf = s@.skip(start as int);
                assert forall|m: int| 0 <= m < i - start implies suf[m] != '\n' by {
                    assert(suf[m] == s@[start + m]);
                }
                assert(suf[i - start] == s@[i as int]);
                lemma_find_nl_at(suf, i - start);
                assert(suf.take(i - start) =~= s@.subrange(start as int, i as int));
                assert(suf.skip(i - start + 1) =~= s@.skip(i + 1));
                assert(lines_of(suf) == seq![s@.subrange(start as int, i as int)] + lines_of(
                    s@.skip(i + 1),
                ));
            }
            let ghost prev = out@;
            out.push(line);
            proof {
                assert(out@.map_values(|v: Vec<char>| v@) =~= prev.map_values(
                    |v: Vec<char>| v@,
                ).push(s@.subrange(start as int, i as int)));
            }
            start = i + 1;
        }
        i += 1;
    }
    let line = crate::text::word_of(s, start, n);
    proof {
        let suf = s@.skip(start as int);
        assert forall|m: int| 0 <= m < suf.len() implies suf[m] != '\n' by {
            assert(suf[m] == s@[start + m]);
        }
        lemma_find_nl_at(suf, suf.len() as int);
        assert(lines_of(suf) == seq![suf]);
        assert(suf =~= s@.subrange(start as int, n as int));
    }
    out.push(line);
    proof {
        assert(out@.map_values(|v: Vec<char>| v@) =~= lines_of(s@));
    }
    out
}

/// Split a line into its non-empty fields.
pub fn split_fields(s: &[char]) -> (r: Vec<Vec<char>>)
    ensures
        r@.map_values(|v: Vec<char>| v@) == fields_of(s@),
        forall|k: int| 0 <= k < r@.len() ==> (#[trigger] r@[k])@.len() > 0,
{
    let n = s.len();
    let mut out: Vec<Vec<char>> = Vec::new();
    let mut start: usize = 0;
    let mut i: usize = 0;
    proof {
        assert(s@.skip(0) =~= s@);
        assert(out@.map_values(|v: Vec<char>| v@) + fields_of(s@) =~= fields_of(s@));
    }
    while i < n
        invariant
            n == s@.len(),
            0 <= start <= i <= n,
            forall|k: int| start <= k < i ==> !is_blank(s@[k]),
            fields_of(s@) =~= out@.map_values(|v: Vec<char>| v@) + fields_of(
                s@.skip(start as int),
            ),
            forall|k: int| 0 <= k < out@.len() ==> (#[trigger] out@[k])@.len() > 0,
        decreases n - i,
    {
        if is_blank_exec(*vstd::slice::slice_index_get(s, i)) {
            proof {
                let suf = s@.skip(start as int);
                assert forall|m: int| 0 <= m < i - start implies !is_blank(suf[m]) by {
                    assert(suf[m] == s@[start + m]);
                }
                assert(suf[i - start] == s@[i as int]);
                lemma_find_blank_at(suf, i - start);
                let fld = s@.subrange(start as int, i as int);
                assert(suf.take(i - start) =~= fld);
                assert(suf.skip(i - start + 1) =~= s@.skip(i + 1));
                assert(raw_fields(suf) == seq![fld] + raw_fields(s@.skip(i + 1)));
                assert((seq![fld] + raw_fields(s@.skip(i + 1))).drop_first() =~= raw_fields(
                    s@.skip(i + 1),
                ));
                lemma_filter_first(seq![fld] + raw_fields(s@.skip(i + 1)));
            }
            if i > start {
                let fld = crate::text::word_of(s, start, i);
                let ghost prev = out@;
                out.push(fld);
                proof {
                    assert(out@.map_values(|v: Vec<char>| v@) =~= prev.map_values(
                        |v: Vec<char>| v@,
                    ).push(s@.subrange(start as int, i as int)));
                }
            }
            start = i + 1;
        }
        i += 1;
    }
    proof {
        let suf = s@.skip(start as int);
        assert forall|m: int| 0 <= m < suf.len() implies !is_blank(suf[m]) by {
            assert(suf[m] == s@[start + m]);
        }
        lemma_find_blank_at(suf, suf.len() as int);
        assert(raw_fields(suf) == seq![suf]);
        lemma_filter_first(seq![suf]);
        assert(seq![suf].drop_first() =~= Seq::<Seq<char>>::empty());
        assert(fields_of(suf) == if suf.len() > 0 {
            seq![suf]
        } else {
            Seq::<Seq<char>>::empty()
        });
        assert(suf =~= s@.subrange(start as int, n as int));
    }
    if start < n {
        let fld = crate::text::word_of(s, start, n);
        out.push(fld);
        proof {
            assert(out@.map_values(|v: Vec<char>| v@) =~= fields_of(s@));
        }
    } else {
        proof {
            assert(out@.map_values(|v: Vec<char>| v@) =~= fields_of(s@));
        }
    }
    out
}

/// Unfolding step for `filter` from the front.
pub proof fn lemma_filter_first(fs: Seq<Seq<char>>)
    requires
        fs.len() > 0,
    ensures
        fs.filter(|f: Seq<char>| f.len() > 0) == (if fs.first().len() > 0 {
            seq![fs.first()]
        } else {
            Seq::<Seq<char>>::empty()
        }) + fs.drop_first().filter(|f: Seq<char>| f.len() > 0),
{
    let pred = |f: Seq<char>| f.len() > 0;
    assert(fs =~= seq![fs.first()] + fs.drop_first());
    Seq::filter_distributes_over_add(seq![fs.first()], fs.drop_first(), pred);
    reveal_with_fuel(Seq::filter, 2);
    assert(seq![fs.first()].drop_last() =~= Seq::<Seq<char>>::empty());
    if pred(fs.first()) {
        assert(seq![fs.first()].filter(pred) =~= seq![fs.first()]);
        assert(fs.filter(pred) =~= seq![fs.first()] + fs.drop_first().filter(pred));
    } else {
        assert(seq![fs.first()].filter(pred) =~= Seq::<Seq<char>>::empty());
        assert(fs.filter(pred) =~= Seq::<Seq<char>>::empty() + fs.drop_first().filter(pred));
    }
}

/// All characters are decimal digits.
pub open spec fn all_digits(f: Seq<char>) -> bool {
    forall|k: int| 0 <= k < f.len() ==> crate::text::is_ascii_digit(#[trigger] f[k])
}

/// Drop leading zeros.
pub open spec fn strip0(f: Seq<char>) -> Seq<char>
    decreases f.len(),
{
    if f.len() > 0 && f.first() == '0' {
        strip0(f.drop_first())
    } else {
        f
    }
}

/// Value of a digit string, most significant first.
pub open spec fn dval(f: Seq<char>) -> int
    decreases f.len(),
{
    if f.len() == 0 {
        0
    } else {
        dval(f.drop_last()) * 10 + (f.last() as u32 - 48)
    }
}

pub open spec fn pow10(k: int) -> int
    decreases k,
{
    if k <= 0 {
        1
    } else {
        10 * pow10(k - 1)
    }
}

/// The accepted frequency field: a non-empty digit string whose value fits
/// 32 bits.
pub open spec fn parse_u32_spec(f: Seq<char>) -> Option<u32> {
    if f.len() == 0 || !all_digits(f) {
        None
    } else {
        let t = strip0(f);
        if t.len() > 10 || dval(t) > 0xffff_ffff {
            None
        } else {
            Some(dval(t) as u32)
        }
    }
}

proof fn lemma_strip0_skip(f: Seq<char>, k: int)
    requires
        0 <= k <= f.len(),
        forall|m: int| 0 <= m < k ==> f[m] == '0',
        k < f.len() ==> f[k] != '0',
    ensures
        strip0(f) == f.skip(k),
    decreases f.len(),
{
    if k == 0 {
        assert(f.skip(0) =~= f);
    } else {
        assert forall|m: int| 0 <= m < k - 1 implies f.drop_first()[m] == '0' by {
            assert(f.drop_first()[m] == f[m + 1]);
        }
        if k - 1 < f.drop_first().len() {
            assert(f.drop_first()[k - 1] == f[k]);
        }
        lemma_strip0_skip(f.drop_first(), k - 1);
        assert(f.drop_first().skip(k - 1) =~= f.skip(k));
    }
}

proof fn lemma_pow10_mono(a: int, b: int)
    requires
        0 <= a <= b,
    ensures
        0 < pow10(a) <= pow10(b),
    decreases b,
{
    if a < b {
        lemma_pow10_mono(a, b - 1);
    } else {
        lemma_pow10_pos(a);
    }
}

proof fn lemma_pow10_pos(a: int)
    ensures
        pow10(a) > 0,
    decreases a,
{
    if a > 0 {
        lemma_pow10_pos(a - 1);
    }
}

proof fn lemma_pow10_ten()
    ensures
        pow10(10) == 10_000_000_000,
{
    reveal_with_fuel(pow10, 11);
}

/// Parse the frequency field.
pub fn parse_u32(f: &[char]) -> (r: Option<u32>)
    ensures
        r == parse_u32_spec(f@),
{
    let n = f.len();
    if n == 0 {
        return None;
    }
    let mut i: usize = 0;
    while i < n
        invariant
            n == f@.len(),
            0 <= i <= n,
            forall|k: int| 0 <= k < i ==> crate::text::is_ascii_digit(#[trigger] f@[k]),
        decreases n - i,
    {
        if !crate::text::is_ascii_digit_exec(*vstd::slice::slice_index_get(f, i)) {
            assert(!all_digits(f@));
            return None;
        }
        i += 1;
    }
    assert(all_digits(f@));
    let mut st: usize = 0;
    while st < n && *vstd::slice::slice_index_get(f, st) == '0'
        invariant
            n == f@.len(),
            0 <= st <= n,
            forall|m: int| 0 <= m < st ==> f@[m] == '0',
        decreases n - st,
    {
        st += 1;
    }
    proof {
        lemma_strip0_skip(f@, st as int);
    }
    let ghost t = strip0(f@);
    if n - st > 10 {
        return None;
    }
    let mut acc: u64 = 0;
    let mut k: usize = st;
    proof {
        assert(t.take(0) =~= Seq::<char>::empty());
        lemma_pow10_ten();
        lemma_pow10_mono(0, 10);
    }
    while k < n
        invariant
            n == f@.len(),
            all_digits(f@),
            st <= k <= n,
            n - st <= 10,
            t == strip0(f@),
            t == f@.skip(st as int),
            acc == dval(t.take(k - st)),
            acc < pow10(k - st),
            pow10(10) == 10_000_000_000,
        decreases n - k,
    {
        let c = *vstd::slice::slice_index_get(f, k);
        assert(crate::text::is_ascii_digit(f@[k as int]));
        let d = (c as u32 - 48) as u64;
        proof {
            lemma_pow10_mono((k - st) as int, 9);
            let pre = t.take(k - st + 1);
            assert(pre.drop_last() =~= t.take(k - st));
            assert(pre.last() == t[k - st] == f@[k as int]);
        }
        acc = acc * 10 + d;
        k += 1;
    }
    proof {
        assert(t.take(n - st) =~= t);
    }
    if acc > 0xffff_ffff {
        return None;
    }
    Some(acc as u32)
}

/// One parsed line: `None` is malformed, `Some(None)` blank,
/// `Some(Some(e))` an entry.
pub open spec fn parse_line_spec(line: Seq<char>) -> Option<Option<WordEntry>> {
    let fs = fields_of(line);
    if fs.len() == 0 {
        Some(None)
    } else if fs.len() == 1 || fs.len() > 3 {
        None
    } else {
        match parse_u32_spec(fs[1]) {
            None => None,
            Some(fr) => Some(
                Some(
                    WordEntry {
                        word: fs[0],
                        freq: fr as nat,
                        tag: if fs.len() == 3 {
                            Some(fs[2])
                        } else {
                            None
                        },
                    },
                ),
            ),
        }
    }
}

/// Parse one line into an owned entry.
pub fn parse_line(line: &[char]) -> (r: Option<Option<crate::dict::DictEntry>>)
    ensures
        match r {
            None => parse_line_spec(line@) is None,
            Some(None) => parse_line_spec(line@) == Some(Option::<WordEntry>::None),
            Some(Some(e)) => parse_line_spec(line@) == Some(Some(e@)) && e.word@.len() > 0,
        },
{
    let fs = split_fields(line);
    let ghost fspec = fields_of(line@);
    if fs.len() == 0 {
        return Some(None);
    }
    if fs.len() == 1 || fs.len() > 3 {
        return None;
    }
    assert(fs@[1]@ == fspec[1]);
    match parse_u32(fs[1].as_slice()) {
        None => None,
        Some(fr) => {
            let tag: Option<Vec<char>> = if fs.len() == 3 {
                let t = vstd::slice::slice_to_vec(fs[2].as_slice());
                assert(t@ == fspec[2]);
                Some(t)
            } else {
                None
            };
            let word = vstd::slice::slice_to_vec(fs[0].as_slice());
            assert(word@ == fspec[0]);
            let e = crate::dict::DictEntry { word, freq: fr, tag };
            Some(Some(e))
        },
    }
}

/// Parse the first `k` lines; the error is the 1-based number of the first
/// malformed line.
pub open spec fn parse_upto(ls: Seq<Seq<char>>, k: int) -> Result<Seq<WordEntry>, int>
    decreases k,
{
    if k <= 0 {
        Ok(Seq::empty())
    } else {
        match parse_upto(ls, k - 1) {
            Err(e) => Err(e),
            Ok(es) => match parse_line_spec(ls[k - 1]) {
                None => Err(k),
                Some(None) => Ok(es),
                Some(Some(e)) => Ok(es.push(e)),
            },
        }
    }
}

/// Parse a whole dictionary file.
pub open spec fn parse_dict_spec(s: Seq<char>) -> Result<Seq<WordEntry>, int> {
    parse_upto(lines_of(s), lines_of(s).len() as int)
}

proof fn lemma_parse_err(ls: Seq<Seq<char>>, k: int, m: int)
    requires
        parse_upto(ls, k) is Err,
        k <= m,
    ensures
        parse_upto(ls, m) == parse_upto(ls, k),
    decreases m - k,
{
    if k < m {
        lemma_parse_err(ls, k, m - 1);
    }
}

/// Parse a dictionary file into entries, all-or-nothing.
pub fn parse_dict(s: &[char]) -> (r: Result<Vec<crate::dict::DictEntry>, DictLoadError>)
    ensures
        match r {
            Ok(es) => parse_dict_spec(s@) == Ok::<_, int>(
                es@.map_values(|e: crate::dict::DictEntry| e@),
            ) && forall|k: int| 0 <= k < es@.len() ==> (#[trigger] es@[k]).word@.len() > 0,
            Err(e) => parse_dict_spec(s@) == Err::<Seq<WordEntry>, int>(e.line as int),
        },
{
    let lines = split_lines(s);
    let ghost ls = lines_of(s@);
    let n = lines.len();
    let mut out: Vec<crate::dict::DictEntry> = Vec::new();
    let mut i: usize = 0;
    proof {
        assert(out@.map_values(|e: crate::dict::DictEntry| e@) =~= Seq::<WordEntry>::empty());
    }
    while i < n
        invariant
            n == lines@.len() == ls.len(),
            ls == lines_of(s@),
            lines@.map_values(|v: Vec<char>| v@) == ls,
            0 <= i <= n,
            parse_upto(ls, i as int) == Ok::<_, int>(
                out@.map_values(|e: crate::dict::DictEntry| e@),
            ),
            forall|k: int| 0 <= k < out@.len() ==> (#[trigger] out@[k]).word@.len() > 0,
        decreases n - i,
    {
        assert(lines@[i as int]@ == ls[i as int]);
        match parse_line(lines[i].as_slice()) {
            None => {
                proof {
                    assert(parse_upto(ls, i + 1) == Err::<Seq<WordEntry>, int>(i + 1));
                    lemma_parse_err(ls, i + 1, ls.len() as int);
                }
                return Err(DictLoadError { line: i + 1 });
            },
            Some(None) => {},
            Some(Some(e)) => {
                let ghost prev = out@;
                out.push(e);
                proof {
                    assert(out@.map_values(|x: crate::dict::DictEntry| x@) =~= prev.map_values(
                        |x: crate::dict::DictEntry| x@,
                    ).push(e@));
                }
            },
        }
        i += 1;
    }
    Ok(out)
}

} // verus!
