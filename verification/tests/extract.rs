use cnseg::keyword::parse_pos_list;
use cnseg::Engine;

fn cs(s: &str) -> Vec<char> {
    s.chars().collect()
}

// "北京大学是北京大学的未来": the four-character word twice, plus one
// two-character word, single-character words filtered out.
fn doc() -> Vec<char> {
    cs("\u{5317}\u{4eac}\u{5927}\u{5b66}\u{662f}\u{5317}\u{4eac}\u{5927}\u{5b66}\u{7684}\u{672a}\u{6765}")
}

#[test]
fn empty_sentence_yields_no_keywords() {
    let e = Engine::new();
    let none: Vec<Vec<char>> = Vec::new();
    for top_k in [0usize, 1, 5, 100] {
        assert_eq!(e.extract_tags_by_tfidf(&cs(""), top_k, &none).len(), 0);
        assert_eq!(e.extract_tags_by_textrank(&cs(""), top_k, &none).len(), 0);
    }
}

#[test]
fn tfidf_ranks_by_count_times_idf() {
    let e = Engine::new();
    let none: Vec<Vec<char>> = Vec::new();
    let r = e.extract_tags_by_tfidf(&doc(), 5, &none);
    let got: Vec<(String, u64)> = r
        .iter()
        .map(|kw| (kw.word.iter().collect(), kw.weight))
        .collect();
    // Counts 2 and 1 over 3 filtered words, mean IDF 5000 for both words.
    assert_eq!(
        got,
        vec![
            ("\u{5317}\u{4eac}\u{5927}\u{5b66}".to_string(), 3333),
            ("\u{672a}\u{6765}".to_string(), 1666),
        ]
    );
}

#[test]
fn tfidf_respects_top_k_and_order() {
    let e = Engine::new();
    let none: Vec<Vec<char>> = Vec::new();
    let r = e.extract_tags_by_tfidf(&doc(), 1, &none);
    assert_eq!(r.len(), 1);
    assert_eq!(
        r[0].word.iter().collect::<String>(),
        "\u{5317}\u{4eac}\u{5927}\u{5b66}"
    );
    let all = e.extract_tags_by_tfidf(&doc(), 100, &none);
    assert!(all.len() <= 100);
    for w in all.windows(2) {
        assert!(w[0].weight >= w[1].weight);
    }
}

#[test]
fn tfidf_pos_whitelist_filters() {
    let e = Engine::new();
    // Only words tagged "nt" (the four-character word) survive.
    let wl = parse_pos_list(&cs("nt,"));
    assert_eq!(wl.len(), 1);
    let r = e.extract_tags_by_tfidf(&doc(), 5, &wl);
    assert_eq!(r.len(), 1);
    assert_eq!(
        r[0].word.iter().collect::<String>(),
        "\u{5317}\u{4eac}\u{5927}\u{5b66}"
    );
}

#[test]
fn textrank_ranks_cooccurring_words() {
    let e = Engine::new();
    let none: Vec<Vec<char>> = Vec::new();
    let r = e.extract_tags_by_textrank(&doc(), 5, &none);
    let got: Vec<(String, u64)> = r
        .iter()
        .map(|kw| (kw.word.iter().collect(), kw.weight))
        .collect();
    // Two nodes with symmetric edges converge immediately at the scale
    // value; first-seen order breaks the tie.
    assert_eq!(
        got,
        vec![
            ("\u{5317}\u{4eac}\u{5927}\u{5b66}".to_string(), 1_000_000),
            ("\u{672a}\u{6765}".to_string(), 1_000_000),
        ]
    );
}

#[test]
fn textrank_is_sorted_and_bounded() {
    let e = Engine::new();
    let none: Vec<Vec<char>> = Vec::new();
    for top_k in [0usize, 1, 2, 10] {
        let r = e.extract_tags_by_textrank(&doc(), top_k, &none);
        assert!(r.len() <= top_k);
        for w in r.windows(2) {
            assert!(w[0].weight >= w[1].weight);
        }
    }
}

#[test]
fn pos_list_parsing_drops_empty_pieces() {
    let wl = parse_pos_list(&cs("n,v,,nt"));
    let got: Vec<String> = wl.iter().map(|t| t.iter().collect()).collect();
    assert_eq!(got, vec!["n", "v", "nt"]);
    assert_eq!(parse_pos_list(&cs("")).len(), 0);
    assert_eq!(parse_pos_list(&cs(",,")).len(), 0);
}

#[test]
fn extractors_are_deterministic() {
    let e = Engine::new();
    let none: Vec<Vec<char>> = Vec::new();
    let a = e.extract_tags_by_tfidf(&doc(), 5, &none);
    let b = e.extract_tags_by_tfidf(&doc(), 5, &none);
    assert_eq!(a.len(), b.len());
    for (x, y) in a.iter().zip(b.iter()) {
        assert_eq!(x.word, y.word);
        assert_eq!(x.weight, y.weight);
    }
    let c = e.extract_tags_by_textrank(&doc(), 5, &none);
    let d = e.extract_tags_by_textrank(&doc(), 5, &none);
    assert_eq!(c.len(), d.len());
    for (x, y) in c.iter().zip(d.iter()) {
        assert_eq!(x.word, y.word);
        assert_eq!(x.weight, y.weight);
    }
}
