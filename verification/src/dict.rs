//! The weighted dictionary: word -> (frequency, optional part-of-speech tag).
//!
//! The dictionary is modelled as a sequence of entries with pairwise distinct,
//! non-empty words.  `idx_of` gives the position of a word, `freq_of` and
//! `tag_of` read its record, `total_of` is the aggregate frequency and
//! `max_len_of` bounds the DAG lookahead.

use vstd::prelude::*;

verus! {

/// Mathematical model of one dictionary entry.
pub ghost struct WordEntry {
    pub word: Seq<char>,
    pub freq: nat,
    pub tag: Option<Seq<char>>,
}

/// One stored entry: a word, its frequency, and an optional POS tag.
pub struct DictEntry {
    pub word: Vec<char>,
    pub freq: u32,
    pub tag: Option<Vec<char>>,
}

impl View for DictEntry {
    type V = WordEntry;

    open spec fn view(&self) -> WordEntry {
        WordEntry {
            word: self.word@,
            freq: self.freq as nat,
            tag: match self.tag {
                Some(t) => Some(t@),
                None => None,
            },
        }
    }
}

/// The dictionary; entries are unique by word.
pub struct Dict {
    entries: Vec<DictEntry>,
}

impl View for Dict {
    type V = Seq<WordEntry>;

    closed spec fn view(&self) -> Seq<WordEntry> {
        self.entries@.map_values(|e: DictEntry| e@)
    }
}

/// Well-formedness: words are non-empty and pairwise distinct.
pub open spec fn dict_wf(d: Seq<WordEntry>) -> bool {
    &&& forall|k: int| 0 <= k < d.len() ==> (#[trigger] d[k]).word.len() > 0
    &&& forall|k1: int, k2: int|
        0 <= k1 < k2 < d.len() ==> (#[trigger] d[k1]).word != (#[trigger] d[k2]).word
}

/// Position of the first entry for `w`, or -1.
pub open spec fn idx_of(d: Seq<WordEntry>, w: Seq<char>) -> int
    decreases d.len(),
{
    if d.len() == 0 {
        -1
    } else if d.first().word == w {
        0
    } else {
        let r = idx_of(d.drop_first(), w);
        if r < 0 {
            -1
        } else {
            r + 1
        }
    }
}

/// Whether `w` is a dictionary word.
pub open spec fn contains_word(d: Seq<WordEntry>, w: Seq<char>) -> bool {
    idx_of(d, w) >= 0
}

/// Frequency of `w` (0 when absent).
pub open spec fn freq_of(d: Seq<WordEntry>, w: Seq<char>) -> nat {
    if contains_word(d, w) {
        d[idx_of(d, w)].freq
    } else {
        0
    }
}

/// Tag of `w` (None when absent or untagged).
pub open spec fn tag_of(d: Seq<WordEntry>, w: Seq<char>) -> Option<Seq<char>> {
    if contains_word(d, w) {
        d[idx_of(d, w)].tag
    } else {
        None
    }
}

/// Sum of the frequencies of the first `k` entries.
pub open spec fn total_prefix(d: Seq<WordEntry>, k: int) -> int
    decreases k,
{
    if k <= 0 {
        0
    } else {
        total_prefix(d, k - 1) + d[k - 1].freq
    }
}

/// Aggregate frequency of the whole dictionary.
pub open spec fn total_of(d: Seq<WordEntry>) -> int {
    total_prefix(d, d.len() as int)
}

/// Longest word among the first `k` entries.
pub open spec fn max_len_prefix(d: Seq<WordEntry>, k: int) -> int
    decreases k,
{
    if k <= 0 {
        0
    } else {
        let r = max_len_prefix(d, k - 1);
        if d[k - 1].word.len() > r {
            d[k - 1].word.len() as int
        } else {
            r
        }
    }
}

/// Length of the longest dictionary word.
pub open spec fn max_len_of(d: Seq<WordEntry>) -> int {
    max_len_prefix(d, d.len() as int)
}

pub proof fn lemma_idx_of(d: Seq<WordEntry>, w: Seq<char>)
    ensures
        idx_of(d, w) == -1 ==> forall|k: int| 0 <= k < d.len() ==> (#[trigger] d[k]).word != w,
        idx_of(d, w) != -1 ==> 0 <= idx_of(d, w) < d.len() && d[idx_of(d, w)].word == w,
        idx_of(d, w) != -1 ==> forall|k: int|
            0 <= k < idx_of(d, w) ==> (#[trigger] d[k]).word != w,
    decreases d.len(),
{
    if d.len() > 0 && d.first().word != w {
        lemma_idx_of(d.drop_first(), w);
        if idx_of(d, w) == -1 {
            assert forall|k: int| 0 <= k < d.len() implies (#[trigger] d[k]).word != w by {
                if k > 0 {
                    assert(d.drop_first()[k - 1] == d[k]);
                }
            }
        } else {
            assert forall|k: int| 0 <= k < idx_of(d, w) implies (#[trigger] d[k]).word != w by {
                if k > 0 {
                    assert(d.drop_first()[k - 1] == d[k]);
                }
            }
            assert(d.drop_first()[idx_of(d.drop_first(), w)] == d[idx_of(d, w)]);
        }
    }
}

/// If `d[i]` holds `w` and no earlier entry does, then `idx_of` is `i`.
pub proof fn lemma_idx_of_first(d: Seq<WordEntry>, w: Seq<char>, i: int)
    requires
        0 <= i < d.len(),
        d[i].word == w,
        forall|k: int| 0 <= k < i ==> (#[trigger] d[k]).word != w,
    ensures
        idx_of(d, w) == i,
    decreases d.len(),
{
    if i > 0 {
        assert(forall|k: int|
            0 <= k < d.drop_first().len() ==> #[trigger] d.drop_first()[k] == d[k + 1]);
        lemma_idx_of_first(d.drop_first(), w, i - 1);
    }
}

/// A dictionary word is no longer than the longest entry.
pub proof fn lemma_word_len_bound(d: Seq<WordEntry>, w: Seq<char>)
    requires
        contains_word(d, w),
    ensures
        w.len() <= max_len_of(d),
{
    lemma_idx_of(d, w);
    lemma_max_len_elem(d, d.len() as int, idx_of(d, w));
}

pub proof fn lemma_max_len_elem(d: Seq<WordEntry>, k: int, i: int)
    requires
        0 <= i < k <= d.len(),
    ensures
        d[i].word.len() <= max_len_prefix(d, k),
        max_len_prefix(d, k) >= 0,
    decreases k,
{
    if i < k - 1 {
        lemma_max_len_elem(d, k - 1, i);
    }
}

pub proof fn lemma_max_len_nonneg(d: Seq<WordEntry>, k: int)
    requires
        k <= d.len(),
    ensures
        max_len_prefix(d, k) >= 0,
    decreases k,
{
    if k > 0 {
        lemma_max_len_nonneg(d, k - 1);
    }
}

/// Result of inserting or overwriting one entry.  On an overwrite a `None`
/// tag keeps the stored tag.
pub open spec fn upsert_spec(
    d: Seq<WordEntry>,
    w: Seq<char>,
    f: nat,
    t: Option<Seq<char>>,
) -> Seq<WordEntry> {
    if contains_word(d, w) {
        let i = idx_of(d, w);
        d.update(
            i,
            WordEntry {
                word: w,
                freq: f,
                tag: match t {
                    Some(tt) => Some(tt),
                    None => d[i].tag,
                },
            },
        )
    } else {
        d.push(WordEntry { word: w, freq: f, tag: t })
    }
}

pub proof fn lemma_upsert_wf(d: Seq<WordEntry>, w: Seq<char>, f: nat, t: Option<Seq<char>>)
    requires
        dict_wf(d),
        w.len() > 0,
    ensures
        dict_wf(upsert_spec(d, w, f, t)),
{
    lemma_idx_of(d, w);
}

/// Result of merging a parsed entry list into a dictionary, first `k`
/// entries applied in order.
pub open spec fn apply_entries(d: Seq<WordEntry>, es: Seq<WordEntry>, k: int) -> Seq<WordEntry>
    decreases k,
{
    if k <= 0 {
        d
    } else {
        let p = apply_entries(d, es, k - 1);
        upsert_spec(p, es[k - 1].word, es[k - 1].freq, es[k - 1].tag)
    }
}

/// The built-in default entry set.
pub open spec fn default_dict_view() -> Seq<WordEntry> {
    seq![
        WordEntry { word: seq!['\u{5317}', '\u{4eac}'], freq: 5000, tag: Some(seq!['n', 's']) },
        WordEntry { word: seq!['\u{5927}', '\u{5b66}'], freq: 4000, tag: Some(seq!['n']) },
        WordEntry {
            word: seq!['\u{5317}', '\u{4eac}', '\u{5927}', '\u{5b66}'],
            freq: 8000,
            tag: Some(seq!['n', 't']),
        },
        WordEntry { word: seq!['\u{7684}'], freq: 10000, tag: Some(seq!['u', 'j']) },
        WordEntry { word: seq!['\u{662f}'], freq: 8000, tag: Some(seq!['v']) },
        WordEntry { word: seq!['\u{4e86}'], freq: 6000, tag: Some(seq!['u', 'l']) },
        WordEntry { word: seq!['\u{4e2d}', '\u{56fd}'], freq: 6000, tag: Some(seq!['n', 's']) },
        WordEntry { word: seq!['\u{4eba}', '\u{6c11}'], freq: 4000, tag: Some(seq!['n']) },
        WordEntry { word: seq!['\u{672a}', '\u{6765}'], freq: 3000, tag: Some(seq!['t']) },
    ]
}

/// The built-in default entries form a well-formed dictionary.
pub proof fn lemma_default_wf()
    ensures
        dict_wf(default_dict_view()),
{
    let d = default_dict_view();
    assert(d[0].word[0] == '\u{5317}' && d[0].word.len() == 2);
    assert(d[1].word[0] == '\u{5927}' && d[1].word.len() == 2);
    assert(d[2].word[0] == '\u{5317}' && d[2].word.len() == 4);
    assert(d[3].word[0] == '\u{7684}' && d[3].word.len() == 1);
    assert(d[4].word[0] == '\u{662f}' && d[4].word.len() == 1);
    assert(d[5].word[0] == '\u{4e86}' && d[5].word.len() == 1);
    assert(d[6].word[0] == '\u{4e2d}' && d[6].word.len() == 2);
    assert(d[7].word[0] == '\u{4eba}' && d[7].word.len() == 2);
    assert(d[8].word[0] == '\u{672a}' && d[8].word.len() == 2);
}

/// Copy a word.
pub fn clone_word(v: &Vec<char>) -> (r: Vec<char>)
    ensures
        r@ == v@,
{
    let r = vstd::slice::slice_to_vec(v.as_slice());
    assert(r@ =~= v@);
    r
}

impl Dict {
    /// Build a one-character word.
    fn w1(a: char) -> (v: Vec<char>)
        ensures
            v@ == seq![a],
    {
        let mut v = Vec::new();
        v.push(a);
        assert(v@ =~= seq![a]);
        v
    }

    /// Build a two-character word.
    fn w2(a: char, b: char) -> (v: Vec<char>)
        ensures
            v@ == seq![a, b],
    {
        let mut v = Vec::new();
        v.push(a);
        v.push(b);
        assert(v@ =~= seq![a, b]);
        v
    }

    /// Build a four-character word.
    fn w4(a: char, b: char, c: char, d: char) -> (v: Vec<char>)
        ensures
            v@ == seq![a, b, c, d],
    {
        let mut v = Vec::new();
        v.push(a);
        v.push(b);
        v.push(c);
        v.push(d);
        assert(v@ =~= seq![a, b, c, d]);
        v
    }

    /// A dictionary holding the built-in default entry set.
    pub fn new() -> (r: Dict)
        ensures
            r@ == default_dict_view(),
            dict_wf(r@),
    {
        let mut entries: Vec<DictEntry> = Vec::new();
        entries.push(
            DictEntry {
                word: Self::w2('\u{5317}', '\u{4eac}'),
                freq: 5000,
                tag: Some(Self::w2('n', 's')),
            },
        );
        entries.push(
            DictEntry { word: Self::w2('\u{5927}', '\u{5b66}'), freq: 4000, tag: Some(Self::w1('n')) },
        );
        entries.push(
            DictEntry {
                word: Self::w4('\u{5317}', '\u{4eac}', '\u{5927}', '\u{5b66}'),
                freq: 8000,
                tag: Some(Self::w2('n', 't')),
            },
        );
        entries.push(
            DictEntry { word: Self::w1('\u{7684}'), freq: 10000, tag: Some(Self::w2('u', 'j')) },
        );
        entries.push(DictEntry { word: Self::w1('\u{662f}'), freq: 8000, tag: Some(Self::w1('v')) });
        entries.push(
            DictEntry { word: Self::w1('\u{4e86}'), freq: 6000, tag: Some(Self::w2('u', 'l')) },
        );
        entries.push(
            DictEntry {
                word: Self::w2('\u{4e2d}', '\u{56fd}'),
                freq: 6000,
                tag: Some(Self::w2('n', 's')),
            },
        );
        entries.push(
            DictEntry { word: Self::w2('\u{4eba}', '\u{6c11}'), freq: 4000, tag: Some(Self::w1('n')) },
        );
        entries.push(
            DictEntry { word: Self::w2('\u{672a}', '\u{6765}'), freq: 3000, tag: Some(Self::w1('t')) },
        );
        let d = Dict { entries };
        proof {
            assert(d@ =~= default_dict_view());
            lemma_default_wf();
        }
        d
    }

    /// Merge the entries of a dictionary file; the first malformed line
    /// fails the whole load and leaves the dictionary unchanged.
    pub fn load(&mut self, data: &[char]) -> (r: Result<(), crate::dictfile::DictLoadError>)
        requires
            dict_wf(old(self)@),
        ensures
            r is Ok ==> (crate::dictfile::parse_dict_spec(data@) matches Ok(es) && final(self)@
                == apply_entries(old(self)@, es, es.len() as int)),
            r is Err ==> (crate::dictfile::parse_dict_spec(data@) matches Err(ln) && ln
                == r->Err_0.line && final(self)@ == old(self)@),
            dict_wf(final(self)@),
    {
        match crate::dictfile::parse_dict(data) {
            Err(e) => Err(e),
            Ok(es) => {
                let ghost esv = es@.map_values(|e: DictEntry| e@);
                let n = es.len();
                let mut i: usize = 0;
                while i < n
                    invariant
                        n == es@.len() == esv.len(),
                        esv == es@.map_values(|e: DictEntry| e@),
                        0 <= i <= n,
                        self@ == apply_entries(old(self)@, esv, i as int),
                        dict_wf(self@),
                        forall|k: int| 0 <= k < n ==> (#[trigger] es@[k]).word@.len() > 0,
                    decreases n - i,
                {
                    assert(es@[i as int]@ == esv[i as int]);
                    let tag: Option<&[char]> = match &es[i].tag {
                        Some(t) => Some(t.as_slice()),
                        None => None,
                    };
                    self.upsert(es[i].word.as_slice(), es[i].freq, tag);
                    i += 1;
                }
                Ok(())
            },
        }
    }

    /// Copy one stored word.
    fn clone_chars(v: &Vec<char>) -> (r: Vec<char>)
        ensures
            r@ == v@,
    {
        let r = vstd::slice::slice_to_vec(v.as_slice());
        assert(r@ =~= v@);
        r
    }

    /// An empty dictionary.
    pub fn empty() -> (r: Dict)
        ensures
            r@ == Seq::<WordEntry>::empty(),
            dict_wf(r@),
    {
        let d = Dict { entries: Vec::new() };
        assert(d@ =~= Seq::<WordEntry>::empty());
        d
    }

    /// Index of the entry for `word`, if any.
    pub fn find(&self, word: &[char]) -> (r: Option<usize>)
        ensures
            match r {
                Some(i) => idx_of(self@, word@) == i && i < self@.len(),
                None => !contains_word(self@, word@),
            },
    {
        let n = self.entries.len();
        let mut i: usize = 0;
        while i < n
            invariant
                n == self.entries@.len(),
                0 <= i <= n,
                self@.len() == n,
                forall|k: int| 0 <= k < i ==> (#[trigger] self@[k]).word != word@,
            decreases n - i,
        {
            assert(self@[i as int].word == self.entries@[i as int].word@);
            if crate::text::chars_eq(self.entries[i].word.as_slice(), word) {
                proof {
                    lemma_idx_of_first(self@, word@, i as int);
                }
                return Some(i);
            }
            i += 1;
        }
        proof {
            lemma_idx_of(self@, word@);
        }
        None
    }

    /// Whether `word` is in the dictionary.
    pub fn contains(&self, word: &[char]) -> (r: bool)
        ensures
            r == contains_word(self@, word@),
    {
        proof {
            lemma_idx_of(self@, word@);
        }
        self.find(word).is_some()
    }

    /// Frequency of `word`, 0 when absent.
    pub fn freq(&self, word: &[char]) -> (r: u32)
        ensures
            r == freq_of(self@, word@),
    {
        proof {
            lemma_idx_of(self@, word@);
        }
        match self.find(word) {
            Some(i) => self.entries[i].freq,
            None => 0,
        }
    }

    /// Tag of `word`, `None` when absent or untagged.
    pub fn tag_lookup(&self, word: &[char]) -> (r: Option<Vec<char>>)
        ensures
            match r {
                Some(t) => tag_of(self@, word@) == Some(t@),
                None => tag_of(self@, word@) is None,
            },
    {
        proof {
            lemma_idx_of(self@, word@);
        }
        match self.find(word) {
            Some(i) => match &self.entries[i].tag {
                Some(t) => Some(Self::clone_chars(t)),
                None => None,
            },
            None => None,
        }
    }

    /// Aggregate frequency; exact, since the sum of fewer than `usize::MAX`
    /// 32-bit frequencies fits a `u128`.
    pub fn total(&self) -> (r: u128)
        ensures
            r == total_of(self@),
            r < 0x1_0000_0000_0000_0000_0000_0000u128,
    {
        let n = self.entries.len();
        let mut acc: u128 = 0;
        let mut i: usize = 0;
        while i < n
            invariant
                n == self.entries@.len() == self@.len(),
                0 <= i <= n,
                acc == total_prefix(self@, i as int),
                acc <= i * 0xffff_ffffu128,
            decreases n - i,
        {
            assert(self@[i as int].freq == self.entries@[i as int].freq as nat);
            acc = acc + self.entries[i].freq as u128;
            i += 1;
        }
        proof {
            assert(n as u128 <= 0xffff_ffff_ffff_ffffu128);
            assert(acc <= 0xffff_ffff_ffff_ffffu128 * 0xffff_ffffu128);
        }
        acc
    }

    /// Length of the longest dictionary word.
    pub fn max_word_len(&self) -> (r: usize)
        ensures
            r == max_len_of(self@),
    {
        let n = self.entries.len();
        let mut acc: usize = 0;
        let mut i: usize = 0;
        while i < n
            invariant
                n == self.entries@.len() == self@.len(),
                0 <= i <= n,
                acc == max_len_prefix(self@, i as int),
            decreases n - i,
        {
            assert(self@[i as int].word.len() == self.entries@[i as int].word@.len());
            let wl = self.entries[i].word.len();
            if wl > acc {
                acc = wl;
            }
            i += 1;
        }
        acc
    }

    /// Insert or overwrite one entry; on an overwrite a `None` tag keeps the
    /// stored tag.
    pub fn upsert(&mut self, word: &[char], freq: u32, tag: Option<&[char]>)
        requires
            dict_wf(old(self)@),
            word@.len() > 0,
        ensures
            final(self)@ == upsert_spec(
                old(self)@,
                word@,
                freq as nat,
                match tag {
                    Some(t) => Some(t@),
                    None => None,
                },
            ),
            dict_wf(final(self)@),
    {
        proof {
            lemma_upsert_wf(
                old(self)@,
                word@,
                freq as nat,
                match tag {
                    Some(t) => Some(t@),
                    None => None,
                },
            );
        }
        let w = vstd::slice::slice_to_vec(word);
        match self.find(word) {
            Some(i) => {
                let newtag: Option<Vec<char>> = match tag {
                    Some(t) => Some(vstd::slice::slice_to_vec(t)),
                    None => match &self.entries[i].tag {
                        Some(t) => Some(Self::clone_chars(t)),
                        None => None,
                    },
                };
                let e = DictEntry { word: w, freq, tag: newtag };
                self.entries.remove(i);
                self.entries.insert(i, e);
                assert(self@ =~= upsert_spec(
                    old(self)@,
                    word@,
                    freq as nat,
                    match tag {
                        Some(t) => Some(t@),
                        None => None,
                    },
                ));
            },
            None => {
                let newtag: Option<Vec<char>> = match tag {
                    Some(t) => Some(vstd::slice::slice_to_vec(t)),
                    None => None,
                };
                let e = DictEntry { word: w, freq, tag: newtag };
                self.entries.push(e);
                assert(self@ =~= upsert_spec(
                    old(self)@,
                    word@,
                    freq as nat,
                    match tag {
                        Some(t) => Some(t@),
                        None => None,
                    },
                ));
            },
        }
    }
}

} // verus!
