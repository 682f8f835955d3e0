use tatoeba_frequency::CorpusError;
use tatoeba_frequency::compose::{list_languages, make_translations, word_freqs};
use tatoeba_frequency::freq::word_frequency;
use tatoeba_frequency::links::{get_translations, parse_links};
use tatoeba_frequency::rank::rank_table;
use tatoeba_frequency::score::get_sentence_scores;
use tatoeba_frequency::tokenize::{Tokenizer, choose_tokenizer};

fn lines(ls: &[&str]) -> Vec<String> {
    ls.iter().map(|l| l.to_string()).collect()
}

fn cv(s: &str) -> Vec<char> {
    s.chars().collect()
}

fn corpus() -> Vec<String> {
    lines(&[
        "1\teng\tThe cat sat.",
        "2\teng\tThe dog ran fast quickly.",
        "3\tfra\tLe chat.",
    ])
}

#[test]
fn langs_lists_each_language_once_in_first_appearance_order() {
    let (langs, count) = list_languages(&corpus());
    assert_eq!(langs, vec!["eng".to_string(), "fra".to_string()]);
    assert_eq!(count, 3);
    let (langs, count) = list_languages(&lines(&["no language cell"]));
    assert_eq!(langs, Vec::<String>::new());
    assert_eq!(count, 0);
}

#[test]
fn freq_counts_ascending_by_count_then_word() {
    let tok = choose_tokenizer("eng");
    let listing = word_freqs(&corpus(), "eng", &tok).unwrap();
    let expected: Vec<(usize, String)> = vec![
        (1, "CAT".to_string()),
        (1, "DOG".to_string()),
        (1, "FAST".to_string()),
        (1, "QUICKLY".to_string()),
        (1, "RAN".to_string()),
        (1, "SAT".to_string()),
        (2, "THE".to_string()),
    ];
    assert_eq!(listing, expected);
}

#[test]
fn ranks_are_dense_from_the_most_frequent_group() {
    let tok = choose_tokenizer("eng");
    let table = word_frequency(&corpus(), "eng", &tok).unwrap();
    assert_eq!(table.get(&cv("THE")), Some(2));
    assert_eq!(table.get(&cv("CAT")), Some(1));
    assert_eq!(table.get(&cv("the")), None);
    let ranks = rank_table(&table);
    assert_eq!(ranks.get(&cv("THE")), Some(0));
    assert_eq!(ranks.get(&cv("CAT")), Some(1));
    assert_eq!(ranks.get(&cv("SAT")), Some(1));
    assert_eq!(ranks.get(&cv("DOG")), Some(1));
    assert_eq!(ranks.get(&cv("QUICKLY")), Some(1));
    assert_eq!(ranks.get(&cv("CHAT")), None);
}

#[test]
fn indexing_twice_yields_an_identical_rank_table() {
    let tok = choose_tokenizer("eng");
    let t1 = rank_table(&word_frequency(&corpus(), "eng", &tok).unwrap());
    let t2 = rank_table(&word_frequency(&corpus(), "eng", &tok).unwrap());
    assert_eq!(t1.entries.len(), t2.entries.len());
    for (a, b) in t1.entries.iter().zip(t2.entries.iter()) {
        assert_eq!(a.key, b.key);
        assert_eq!(a.val, b.val);
    }
}

#[test]
fn scores_order_ascending_with_ties_in_corpus_order() {
    let sentences = lines(&[
        "10\teng\talpha beta",
        "11\teng\tbeta alpha",
        "12\teng\tbeta",
    ]);
    let tok = choose_tokenizer("eng");
    let table = word_frequency(&sentences, "eng", &tok).unwrap();
    let ranks = rank_table(&table);
    // BETA occurs three times (rank 0), ALPHA twice (rank 1)
    let scored = get_sentence_scores(&sentences, "eng", &ranks, &tok).unwrap();
    let got: Vec<(usize, String, usize)> =
        scored.iter().map(|s| (s.id, s.text.clone(), s.score)).collect();
    assert_eq!(
        got,
        vec![
            (12, "beta".to_string(), 0),
            (10, "alpha beta".to_string(), 1),
            (11, "beta alpha".to_string(), 1),
        ]
    );
}

#[test]
fn a_sentence_with_no_qualifying_words_is_dropped() {
    let sentences = lines(&["1\teng\tcat", "2\teng\t123 456", "3\teng\t..."]);
    let tok = choose_tokenizer("eng");
    let table = word_frequency(&sentences, "eng", &tok).unwrap();
    let ranks = rank_table(&table);
    let scored = get_sentence_scores(&sentences, "eng", &ranks, &tok).unwrap();
    assert_eq!(scored.len(), 1);
    assert_eq!(scored[0].id, 1);
    assert_eq!(scored[0].score, 0);
}

#[test]
fn a_rejected_token_feeds_neither_pass() {
    // "word1" holds a digit: the shared filter drops it during counting and
    // during scoring alike, so the sentence scores on CAT alone.
    let sentences = lines(&["1\teng\tword1 cat"]);
    let tok = choose_tokenizer("eng");
    let table = word_frequency(&sentences, "eng", &tok).unwrap();
    assert_eq!(table.get(&cv("WORD1")), None);
    assert_eq!(table.get(&cv("CAT")), Some(1));
    let ranks = rank_table(&table);
    let scored = get_sentence_scores(&sentences, "eng", &ranks, &tok).unwrap();
    assert_eq!(scored.len(), 1);
    assert_eq!(scored[0].score, 0);
}

#[test]
fn unicode_forms_of_one_word_share_one_frequency_bucket() {
    // one decomposed lowercase, one composed uppercase: a single word key
    let sentences = lines(&["1\teng\tcafe\u{301}", "2\teng\tCAF\u{c9}"]);
    let tok = choose_tokenizer("eng");
    let listing = word_freqs(&sentences, "eng", &tok).unwrap();
    assert_eq!(listing, vec![(2, "CAF\u{c9}".to_string())]);
}

#[test]
fn links_keep_directional_pairs_in_file_order() {
    let sentences = lines(&[
        "1\teng\tThe cat sat.",
        "2\teng\tThe dog ran.",
        "3\tfra\tLe chat.",
        "4\tfra\tLe chien.",
    ]);
    let link_lines = lines(&[
        "1\t3",
        "3\t1",
        "1\t4",
        "2\t9",
        "9\t3",
        "1\t3",
    ]);
    let lm = parse_links(&sentences, &link_lines, "eng", "fra").unwrap();
    assert_eq!(lm.first_target(1), Some(3));
    assert_eq!(lm.first_target(2), None);
    assert_eq!(lm.first_target(3), None);
    assert_eq!(lm.entries.len(), 1);
    assert_eq!(lm.entries[0].targets, vec![3, 4, 3]);
    let tm = get_translations(&sentences, &lm).unwrap();
    assert_eq!(tm.get_text(3).cloned(), Some("Le chat.".to_string()));
    assert_eq!(tm.get_text(4).cloned(), Some("Le chien.".to_string()));
    assert_eq!(tm.get_text(1).cloned(), None);
}

#[test]
fn ease_pairs_the_easiest_sentences_with_their_first_translation() {
    let link_lines = lines(&["1\t3"]);
    let tok = choose_tokenizer("eng");
    let report = make_translations(&corpus(), &link_lines, "eng", "fra", &tok).unwrap();
    assert_eq!(report.rows.len(), 1);
    assert_eq!(report.rows[0].source_id, 1);
    assert_eq!(report.rows[0].translation_id, 3);
    assert_eq!(report.rows[0].source_text, "The cat sat.");
    assert_eq!(report.rows[0].translation_text, "Le chat.");
    assert_eq!(report.skipped, 1);
}

#[test]
fn a_malformed_sentence_id_aborts_the_run() {
    let sentences = lines(&["x\teng\tcat dog"]);
    let link_lines = lines(&["1\t2"]);
    let tok = choose_tokenizer("eng");
    let r = make_translations(&sentences, &link_lines, "eng", "fra", &tok);
    assert_eq!(r.err(), Some(CorpusError::InvalidId));
}

#[test]
fn a_malformed_link_id_aborts_the_run() {
    let sentences = lines(&["1\teng\tcat", "2\tfra\tchat"]);
    let bad_links = lines(&["1\tz"]);
    let r = parse_links(&sentences, &bad_links, "eng", "fra");
    assert_eq!(r.err(), Some(CorpusError::InvalidId));
    let bad_first = lines(&["q\t2"]);
    let r = parse_links(&sentences, &bad_first, "eng", "fra");
    assert_eq!(r.err(), Some(CorpusError::InvalidId));
}

#[test]
fn the_segmenter_serves_the_configured_language() {
    let tok = choose_tokenizer("cmn");
    assert!(matches!(tok, Tokenizer::Segmenting(_)));
    let tok = choose_tokenizer("eng");
    assert!(matches!(tok, Tokenizer::Whitespace));
}

#[test]
fn segmentation_splits_chinese_text_into_words() {
    let tok = choose_tokenizer("cmn");
    let text = cv("\u{6211}\u{4eec}\u{4e2d}\u{51fa}\u{4e86}\u{4e00}\u{4e2a}\u{53db}\u{5f92}");
    let tokens: Vec<String> = tok
        .tokenize(&text)
        .into_iter()
        .map(|w| w.into_iter().collect())
        .collect();
    assert_eq!(
        tokens,
        vec![
            "\u{6211}\u{4eec}".to_string(),
            "\u{4e2d}\u{51fa}".to_string(),
            "\u{4e86}".to_string(),
            "\u{4e00}\u{4e2a}".to_string(),
            "\u{53db}\u{5f92}".to_string(),
        ]
    );
}

#[test]
fn segmented_corpus_is_counted_like_any_other() {
    let sentences = lines(&[
        "1\tcmn\t\u{6211}\u{4eec}\u{4e2d}\u{51fa}\u{4e86}\u{4e00}\u{4e2a}\u{53db}\u{5f92}\u{3002}",
    ]);
    let tok = choose_tokenizer("cmn");
    let table = word_frequency(&sentences, "cmn", &tok).unwrap();
    assert_eq!(table.get(&cv("\u{6211}\u{4eec}")), Some(1));
    assert_eq!(table.get(&cv("\u{53db}\u{5f92}")), Some(1));
    assert_eq!(table.get(&cv("\u{3002}")), None);
}
