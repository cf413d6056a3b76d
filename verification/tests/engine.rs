use cnseg::dictfile::DictLoadError;
use cnseg::segment::TokenizeMode;
use cnseg::Engine;

fn cs(s: &str) -> Vec<char> {
    s.chars().collect()
}

fn ss(v: &[Vec<char>]) -> Vec<String> {
    v.iter().map(|w| w.iter().collect()).collect()
}

#[test]
fn cut_prefers_highest_scoring_path() {
    // The dictionary {"北京": 100, "大学": 100, "北京大学": 200} must keep
    // the four-character word whole: one word beats the split.
    let mut e = Engine::new();
    e.add_word(&cs("\u{5317}\u{4eac}"), Some(100), None);
    e.add_word(&cs("\u{5927}\u{5b66}"), Some(100), None);
    e.add_word(&cs("\u{5317}\u{4eac}\u{5927}\u{5b66}"), Some(200), None);
    let r = e.cut(&cs("\u{5317}\u{4eac}\u{5927}\u{5b66}"), false);
    assert_eq!(ss(&r), vec!["\u{5317}\u{4eac}\u{5927}\u{5b66}".to_string()]);
}

#[test]
fn cut_all_enumerates_dag_edges() {
    let mut e = Engine::new();
    e.add_word(&cs("\u{5317}\u{4eac}"), Some(100), None);
    e.add_word(&cs("\u{5927}\u{5b66}"), Some(100), None);
    e.add_word(&cs("\u{5317}\u{4eac}\u{5927}\u{5b66}"), Some(200), None);
    let r = e.cut_all(&cs("\u{5317}\u{4eac}\u{5927}\u{5b66}"));
    assert_eq!(
        ss(&r),
        vec![
            "\u{5317}\u{4eac}".to_string(),
            "\u{5317}\u{4eac}\u{5927}\u{5b66}".to_string(),
            "\u{5927}\u{5b66}".to_string(),
        ]
    );
}

#[test]
fn added_word_becomes_one_token() {
    // add("量子计算", derive, none) then cutting "量子计算是未来" keeps the
    // added word as one token.
    let mut e = Engine::new();
    e.add_word(&cs("\u{91cf}\u{5b50}\u{8ba1}\u{7b97}"), None, None);
    let r = e.cut(&cs("\u{91cf}\u{5b50}\u{8ba1}\u{7b97}\u{662f}\u{672a}\u{6765}"), false);
    let words = ss(&r);
    assert!(words.contains(&"\u{91cf}\u{5b50}\u{8ba1}\u{7b97}".to_string()));
    let r2 = e.cut(&cs("\u{91cf}\u{5b50}\u{8ba1}\u{7b97}\u{662f}\u{672a}\u{6765}"), true);
    let words2 = ss(&r2);
    assert!(words2.contains(&"\u{91cf}\u{5b50}\u{8ba1}\u{7b97}".to_string()));
}

#[test]
fn hmm_merges_unknown_pair() {
    // Two unknown ideographs form one word when the HMM runs, two without.
    let e = Engine::new();
    let with_hmm = e.cut(&cs("\u{4f60}\u{597d}"), true);
    assert_eq!(ss(&with_hmm), vec!["\u{4f60}\u{597d}".to_string()]);
    let without = e.cut(&cs("\u{4f60}\u{597d}"), false);
    assert_eq!(
        ss(&without),
        vec!["\u{4f60}".to_string(), "\u{597d}".to_string()]
    );
}

#[test]
fn cut_all_keeps_uncovered_single_characters() {
    let e = Engine::new();
    // A position covered only by the fallback yields its character, but
    // not when a longer word already covers it.
    let r = e.cut_all(&cs("\u{4f60}\u{5317}\u{4eac}"));
    assert_eq!(
        ss(&r),
        vec!["\u{4f60}".to_string(), "\u{5317}\u{4eac}".to_string()]
    );
    let r2 = e.cut_all(&cs("\u{5317}\u{4eac}\u{4f60}"));
    assert_eq!(
        ss(&r2),
        vec!["\u{5317}\u{4eac}".to_string(), "\u{4f60}".to_string()]
    );
}

#[test]
fn hmm_emission_table_keeps_function_words_single() {
    // The sparse emission entry for the particle keeps it a word of its
    // own inside an unknown run.
    let e = Engine::new();
    let r = e.cut(&cs("\u{4f60}\u{7684}\u{4e66}"), true);
    assert_eq!(
        ss(&r),
        vec![
            "\u{4f60}".to_string(),
            "\u{7684}".to_string(),
            "\u{4e66}".to_string(),
        ]
    );
}

#[test]
fn reconstruction_holds_for_cut_and_tag() {
    let e = Engine::new();
    for s in [
        "",
        "abc",
        "\u{5317}\u{4eac}\u{5927}\u{5b66}\u{662f}\u{672a}\u{6765}",
        "abc\u{5317}\u{4eac}123",
        "\u{4f60}\u{597d}\u{7684}\u{4e66}",
    ] {
        let chars = cs(s);
        for hmm in [false, true] {
            let words = e.cut(&chars, hmm);
            let joined: String = ss(&words).concat();
            assert_eq!(joined, s);
            let tagged = e.tag(&chars, hmm);
            let joined2: String = tagged
                .iter()
                .map(|tw| tw.word.iter().collect::<String>())
                .collect();
            assert_eq!(joined2, s);
        }
    }
}

#[test]
fn repeated_calls_agree() {
    let e = Engine::new();
    let s = cs("\u{5317}\u{4eac}\u{5927}\u{5b66}\u{662f}\u{672a}\u{6765}");
    let a = e.cut(&s, true);
    let b = e.cut(&s, true);
    assert_eq!(ss(&a), ss(&b));
    let t1 = e.tokenize(&s, TokenizeMode::Search, true);
    let t2 = e.tokenize(&s, TokenizeMode::Search, true);
    assert_eq!(t1.len(), t2.len());
    for (x, y) in t1.iter().zip(t2.iter()) {
        assert_eq!(x.start, y.start);
        assert_eq!(x.end, y.end);
        assert_eq!(x.word, y.word);
    }
}

#[test]
fn reset_matches_fresh_engine() {
    let mut e = Engine::new();
    e.add_word(&cs("\u{91cf}\u{5b50}"), Some(123), None);
    e.load_dict(&cs("foo 10\nbar 5\n")).unwrap();
    e.reset();
    let fresh = Engine::new();
    let s = cs("\u{5317}\u{4eac}\u{5927}\u{5b66}\u{662f}\u{672a}\u{6765}foo");
    assert_eq!(ss(&e.cut(&s, true)), ss(&fresh.cut(&s, true)));
    assert_eq!(ss(&e.cut_all(&s)), ss(&fresh.cut_all(&s)));
}

#[test]
fn tokenize_offsets_are_valid_and_contiguous() {
    let e = Engine::new();
    let s = cs("\u{5317}\u{4eac}\u{5927}\u{5b66}\u{662f}\u{672a}\u{6765}");
    let toks = e.tokenize(&s, TokenizeMode::Default, false);
    let n = s.len();
    let mut pos = 0;
    for t in &toks {
        assert!(t.start < t.end && t.end <= n);
        assert_eq!(t.start, pos);
        pos = t.end;
        let expect: Vec<char> = s[t.start..t.end].to_vec();
        assert_eq!(t.word, expect);
    }
    assert_eq!(pos, n);
    assert_eq!(
        toks.iter()
            .map(|t| (t.start, t.end))
            .collect::<Vec<_>>(),
        vec![(0, 4), (4, 5), (5, 7)]
    );
}

#[test]
fn tokenize_search_adds_subwords() {
    let e = Engine::new();
    let s = cs("\u{5317}\u{4eac}\u{5927}\u{5b66}\u{662f}\u{672a}\u{6765}");
    let toks = e.tokenize(&s, TokenizeMode::Search, false);
    let spans: Vec<(usize, usize)> = toks.iter().map(|t| (t.start, t.end)).collect();
    assert_eq!(spans, vec![(0, 2), (2, 4), (0, 4), (4, 5), (5, 7)]);
    for t in &toks {
        assert!(t.start < t.end && t.end <= s.len());
    }
}

#[test]
fn cut_for_search_lists_subwords_before_word() {
    let e = Engine::new();
    let r = e.cut_for_search(&cs("\u{5317}\u{4eac}\u{5927}\u{5b66}"), false);
    assert_eq!(
        ss(&r),
        vec![
            "\u{5317}\u{4eac}".to_string(),
            "\u{5927}\u{5b66}".to_string(),
            "\u{5317}\u{4eac}\u{5927}\u{5b66}".to_string(),
        ]
    );
}

#[test]
fn suggest_freq_zero_when_already_one_unit() {
    let e = Engine::new();
    assert_eq!(e.suggest_freq(&cs("\u{5317}\u{4eac}\u{5927}\u{5b66}")), 0);
    assert_eq!(e.suggest_freq(&cs("")), 0);
}

#[test]
fn suggest_freq_beats_the_split() {
    let mut e = Engine::new();
    let w = cs("\u{4e2d}\u{56fd}\u{4eba}\u{6c11}");
    let sg = e.suggest_freq(&w);
    assert_eq!(sg, 512);
    let got = e.add_word(&w, None, None);
    assert_eq!(got, 512);
    let r = e.cut(&w, false);
    assert_eq!(ss(&r), vec!["\u{4e2d}\u{56fd}\u{4eba}\u{6c11}".to_string()]);
}

#[test]
fn load_dict_applies_entries() {
    let mut e = Engine::new();
    e.load_dict(&cs("foo 10 x\nbar 5\n\n")).unwrap();
    let r = e.cut(&cs("foo"), false);
    assert_eq!(ss(&r), vec!["foo".to_string()]);
    let tagged = e.tag(&cs("foo"), false);
    assert_eq!(tagged.len(), 1);
    assert_eq!(tagged[0].tag.iter().collect::<String>(), "x");
}

#[test]
fn load_dict_reports_first_malformed_line() {
    let mut e = Engine::new();
    let err: DictLoadError = e.load_dict(&cs("a 1\nb\nc 3\n")).unwrap_err();
    assert_eq!(err.line, 2);
    // All-or-nothing: the well-formed first line was not applied either.
    let r = e.cut(&cs("a"), false);
    assert_eq!(ss(&r), vec!["a".to_string()]);
}

#[test]
fn load_dict_rejects_bad_frequencies() {
    let mut e = Engine::new();
    assert_eq!(e.load_dict(&cs("x abc\n")).unwrap_err().line, 1);
    assert_eq!(e.load_dict(&cs("x 99999999999999999999\n")).unwrap_err().line, 1);
    assert_eq!(e.load_dict(&cs("x 1 tag extra\n")).unwrap_err().line, 1);
    assert!(e.load_dict(&cs("x 007\n")).is_ok());
}

#[test]
fn tag_uses_dictionary_and_classes() {
    let e = Engine::new();
    let tagged = e.tag(&cs("\u{5317}\u{4eac}\u{5927}\u{5b66}\u{662f}\u{672a}\u{6765}"), true);
    let pairs: Vec<(String, String)> = tagged
        .iter()
        .map(|tw| {
            (
                tw.word.iter().collect::<String>(),
                tw.tag.iter().collect::<String>(),
            )
        })
        .collect();
    assert_eq!(
        pairs,
        vec![
            ("\u{5317}\u{4eac}\u{5927}\u{5b66}".to_string(), "nt".to_string()),
            ("\u{662f}".to_string(), "v".to_string()),
            ("\u{672a}\u{6765}".to_string(), "t".to_string()),
        ]
    );
}

#[test]
fn tag_classifies_digits_latin_and_unknown() {
    let e = Engine::new();
    let tagged = e.tag(&cs("12ab"), false);
    let tags: Vec<String> = tagged
        .iter()
        .map(|tw| tw.tag.iter().collect::<String>())
        .collect();
    assert_eq!(tags, vec!["m", "m", "eng", "eng"]);
    // An unknown ideograph word inferred by the POS tables gets the noun tag.
    let tagged2 = e.tag(&cs("\u{4f60}\u{597d}"), true);
    assert_eq!(tagged2.len(), 1);
    assert_eq!(tagged2[0].tag.iter().collect::<String>(), "n");
}
