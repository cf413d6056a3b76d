//! A Chinese-text segmentation and keyword-extraction engine.
//!
//! The engine splits a character stream into words using a weighted
//! dictionary (a DAG over character positions plus a dynamic program over
//! log-frequencies), recovers words absent from the dictionary with a
//! four-state hidden-Markov-model decoder, assigns part-of-speech tags, and
//! ranks candidate keywords with a frequency-statistics ranker and a
//! graph-based ranker.  All scores are fixed-point integers, so every
//! computation is exact and deterministic.

use vstd::prelude::*;

pub mod arith;
pub mod dag;
pub mod dict;
pub mod dictfile;
pub mod hmm;
pub mod keyword;
pub mod laws;
pub mod route;
pub mod segment;
pub mod tagger;
pub mod text;

use crate::dict::{default_dict_view, dict_wf, upsert_spec, Dict, WordEntry};
use crate::dictfile::DictLoadError;
use crate::segment::{cut_spans, cut_words, cutall_spans, search_spans, suggest_spec,
    tokenize_spans, Token, TokenizeMode};
use crate::text::{concat_all, is_partition, words_of};

verus! {

/// The frequency `add_word` settles on: the given one, or a derived one
/// (the suggestion, at least 1) when none is given.
pub open spec fn add_freq_spec(d: Seq<WordEntry>, w: Seq<char>, freq: Option<u32>) -> u32 {
    match freq {
        Some(f) => f,
        None => {
            let sg = suggest_spec(d, w);
            if sg == 0 {
                1u32
            } else {
                sg
            }
        },
    }
}

/// The engine: a well-formed dictionary driving segmentation, tagging and
/// keyword extraction.  Its view is the dictionary's entry sequence.
pub struct Engine {
    dict: Dict,
}

impl View for Engine {
    type V = Seq<WordEntry>;

    closed spec fn view(&self) -> Seq<WordEntry> {
        self.dict@
    }
}

impl Engine {
    /// The dictionary is well formed in every reachable engine.
    pub open spec fn wf(&self) -> bool {
        dict_wf(self@)
    }

    /// A fresh engine with the built-in default dictionary.
    pub fn new() -> (r: Engine)
        ensures
            r@ == default_dict_view(),
            r.wf(),
    {
        Engine { dict: Dict::new() }
    }

    /// Discard all entries and reload the built-in default set.
    pub fn reset(&mut self)
        ensures
            final(self)@ == default_dict_view(),
            final(self).wf(),
    {
        self.dict = Dict::new();
    }

    /// Merge the entries of a dictionary file (lines `word freq [tag]`).
    /// All-or-nothing: the first malformed line is reported by its 1-based
    /// number and the dictionary is left unchanged.
    pub fn load_dict(&mut self, data: &[char]) -> (r: Result<(), DictLoadError>)
        requires
            old(self).wf(),
        ensures
            r is Ok ==> (crate::dictfile::parse_dict_spec(data@) matches Ok(es) && final(self)@
                == crate::dict::apply_entries(old(self)@, es, es.len() as int)),
            r is Err ==> (crate::dictfile::parse_dict_spec(data@) matches Err(ln) && ln
                == r->Err_0.line && final(self)@ == old(self)@),
            final(self).wf(),
    {
        self.dict.load(data)
    }

    /// Insert or update one entry and return the frequency it now has.  A
    /// missing frequency is derived via the suggestion so the word becomes
    /// segmentable; a missing tag keeps the stored tag on an update.
    pub fn add_word(&mut self, word: &[char], freq: Option<u32>, tag: Option<&[char]>) -> (r: u32)
        requires
            old(self).wf(),
            word@.len() > 0,
        ensures
            r == add_freq_spec(old(self)@, word@, freq),
            final(self)@ == upsert_spec(
                old(self)@,
                word@,
                r as nat,
                match tag {
                    Some(t) => Some(t@),
                    None => None,
                },
            ),
            final(self).wf(),
    {
        let f: u32 = match freq {
            Some(f) => f,
            None => {
                let sg = crate::segment::suggest_freq(&self.dict, word);
                if sg == 0 {
                    1
                } else {
                    sg
                }
            },
        };
        self.dict.upsert(word, f, tag);
        f
    }

    /// Estimate a frequency that would make `word` segment as one unit.
    pub fn suggest_freq(&self, word: &[char]) -> (r: u32)
        ensures
            r == suggest_spec(self@, word@),
    {
        crate::segment::suggest_freq(&self.dict, word)
    }

    /// Precise-mode segmentation; the words concatenate back to the
    /// sentence exactly.
    pub fn cut(&self, sentence: &[char], hmm: bool) -> (r: Vec<Vec<char>>)
        ensures
            r@.map_values(|w: Vec<char>| w@) == cut_words(self@, sentence@, hmm),
            concat_all(r@.map_values(|w: Vec<char>| w@)) == sentence@,
    {
        crate::segment::cut(&self.dict, sentence, hmm)
    }

    /// Exhaustive-mode segmentation: every DAG edge as an (overlapping)
    /// token.
    pub fn cut_all(&self, sentence: &[char]) -> (r: Vec<Vec<char>>)
        ensures
            r@.map_values(|w: Vec<char>| w@) == words_of(sentence@, cutall_spans(self@, sentence@)),
    {
        crate::segment::cut_all(&self.dict, sentence)
    }

    /// Search-mode segmentation: precise mode plus shorter dictionary
    /// sub-words of long tokens.
    pub fn cut_for_search(&self, sentence: &[char], hmm: bool) -> (r: Vec<Vec<char>>)
        ensures
            r@.map_values(|w: Vec<char>| w@) == words_of(
                sentence@,
                search_spans(self@, sentence@, hmm),
            ),
    {
        let spans = crate::segment::search_spans_exec(&self.dict, sentence, hmm);
        crate::segment::words_exec(sentence, &spans)
    }

    /// Tokenize: words with character offsets; default-mode offsets tile
    /// the sentence with no gaps or overlaps.
    pub fn tokenize(&self, sentence: &[char], mode: TokenizeMode, hmm: bool) -> (r: Vec<Token>)
        ensures
            r@.len() == tokenize_spans(self@, sentence@, mode, hmm).len(),
            forall|q: int|
                0 <= q < r@.len() ==> {
                    let iv = tokenize_spans(self@, sentence@, mode, hmm)[q];
                    (#[trigger] r@[q]).start == iv.0 && r@[q].end == iv.1 && r@[q].word@
                        == sentence@.subrange(iv.0 as int, iv.1 as int)
                },
            forall|q: int|
                0 <= q < r@.len() ==> 0 <= (#[trigger] r@[q]).start < r@[q].end
                    <= sentence@.len(),
            mode is Default ==> is_partition(
                tokenize_spans(self@, sentence@, mode, hmm),
                sentence@.len() as int,
            ),
    {
        crate::segment::tokenize(&self.dict, sentence, mode, hmm)
    }

    /// Tag a sentence with parts of speech; the words concatenate back to
    /// the sentence exactly.
    pub fn tag(&self, sentence: &[char], hmm: bool) -> (r: Vec<crate::tagger::TaggedWord>)
        ensures
            r@.map_values(|tw: crate::tagger::TaggedWord| (tw.word@, tw.tag@))
                == crate::tagger::tag_pairs(self@, sentence@, hmm),
            concat_all(r@.map_values(|tw: crate::tagger::TaggedWord| tw.word@)) == sentence@,
    {
        crate::tagger::tag(&self.dict, sentence, hmm)
    }

    /// TF-IDF keyword extraction: ranked descending, at most `top_k`.
    pub fn extract_tags_by_tfidf(
        &self,
        sentence: &[char],
        top_k: usize,
        allowed_pos: &Vec<Vec<char>>,
    ) -> (r: Vec<crate::keyword::Keyword>)
        ensures
            r@.map_values(|kw: crate::keyword::Keyword| (kw.word@, kw.weight))
                == crate::keyword::tfidf_spec(
                self@,
                sentence@,
                top_k as int,
                allowed_pos@.map_values(|t: Vec<char>| t@),
            ),
            crate::keyword::sorted_desc(
                r@.map_values(|kw: crate::keyword::Keyword| (kw.word@, kw.weight)),
            ),
            r@.len() <= top_k,
    {
        crate::keyword::extract_tags_by_tfidf(&self.dict, sentence, top_k, allowed_pos)
    }

    /// TextRank keyword extraction: ranked descending, at most `top_k`.
    pub fn extract_tags_by_textrank(
        &self,
        sentence: &[char],
        top_k: usize,
        allowed_pos: &Vec<Vec<char>>,
    ) -> (r: Vec<crate::keyword::Keyword>)
        ensures
            r@.map_values(|kw: crate::keyword::Keyword| (kw.word@, kw.weight))
                == crate::keyword::textrank_spec(
                self@,
                sentence@,
                top_k as int,
                allowed_pos@.map_values(|t: Vec<char>| t@),
            ),
            crate::keyword::sorted_desc(
                r@.map_values(|kw: crate::keyword::Keyword| (kw.word@, kw.weight)),
            ),
            r@.len() <= top_k,
    {
        crate::keyword::extract_tags_by_textrank(&self.dict, sentence, top_k, allowed_pos)
    }
}

} // verus!
