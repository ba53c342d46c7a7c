//! The corpus pipeline: number parsing, ingestion, normalization and
//! merging.

use klo::ngrams::{
    collect_normalized_ngrams, from_sources, normalize_ngrams, parse_ngrams_config,
    parse_text_ngrams, read_pregenerated_file, Gram, NGrams, RawNGrams, SourceData, SourceInput,
    SourceSpec,
};
use klo::errors::KloError;
use klo::scan::parse_fixed;
use klo::SCORE_ONE;

fn lookup(t: &Vec<(Gram, u64)>, g: Gram) -> u64 {
    for (k, v) in t {
        if *k == g {
            return *v;
        }
    }
    0
}

fn chars(s: &str) -> Vec<char> {
    s.chars().collect()
}

#[test]
fn parse_fixed_plain_integers() {
    assert_eq!(parse_fixed(&chars("0")), Some(0));
    assert_eq!(parse_fixed(&chars("10")), Some(10 * SCORE_ONE));
    assert_eq!(parse_fixed(&chars("007")), Some(7 * SCORE_ONE));
}

#[test]
fn parse_fixed_decimals() {
    assert_eq!(parse_fixed(&chars("1.5")), Some(1_500_000_000));
    assert_eq!(parse_fixed(&chars("0.333333333")), Some(333_333_333));
    assert_eq!(parse_fixed(&chars(".5")), Some(500_000_000));
    assert_eq!(parse_fixed(&chars("5.")), Some(5 * SCORE_ONE));
    // a tenth decimal place is cut off
    assert_eq!(parse_fixed(&chars("1.2345678999")), Some(1_234_567_899));
}

#[test]
fn parse_fixed_rejects_junk() {
    assert_eq!(parse_fixed(&chars("")), None);
    assert_eq!(parse_fixed(&chars(".")), None);
    assert_eq!(parse_fixed(&chars("x")), None);
    assert_eq!(parse_fixed(&chars("1.2.3")), None);
    assert_eq!(parse_fixed(&chars("-1")), None);
    // far beyond the representable range
    assert_eq!(parse_fixed(&chars("99999999999999999999")), None);
}

#[test]
fn text_ingestion_counts_window() {
    let raw = parse_text_ngrams(SCORE_ONE, "abc");
    assert_eq!(lookup(&raw.letters, Gram::One('a')), 1);
    assert_eq!(lookup(&raw.letters, Gram::One('b')), 1);
    assert_eq!(lookup(&raw.letters, Gram::One('c')), 1);
    // pairs are keyed current-then-previous; the final pair is padding
    assert_eq!(lookup(&raw.bigrams, Gram::Two('b', 'a')), 1);
    assert_eq!(lookup(&raw.bigrams, Gram::Two('c', 'b')), 0);
    assert_eq!(raw.trigrams.len(), 0);
}

#[test]
fn text_ingestion_folds_uppercase() {
    let raw = parse_text_ngrams(SCORE_ONE, "aAb");
    // the folded shift marker stays out of the letter table
    assert_eq!(lookup(&raw.letters, Gram::One('a')), 1);
    assert_eq!(lookup(&raw.letters, Gram::One('b')), 1);
    assert_eq!(lookup(&raw.letters, Gram::One('A')), 0);
    assert_eq!(lookup(&raw.letters, Gram::One('\u{21e7}')), 0);
    // but it takes part in pairs
    assert_eq!(lookup(&raw.bigrams, Gram::Two('\u{21e7}', 'a')), 1);
}

#[test]
fn text_ingestion_triples() {
    let raw = parse_text_ngrams(SCORE_ONE, "abcd");
    assert_eq!(lookup(&raw.trigrams, Gram::Three('c', 'b', 'a')), 1);
    // the triple ending at the last character is padding
    assert_eq!(lookup(&raw.trigrams, Gram::Three('d', 'c', 'b')), 0);
}

#[test]
fn normalized_letters_match_weights() {
    // letters e:100 and t:50 with weight one normalize to two thirds
    // and one third
    let raw = RawNGrams {
        weight: SCORE_ONE,
        letters: vec![(Gram::One('e'), 100), (Gram::One('t'), 50)],
        bigrams: vec![],
        trigrams: vec![],
    };
    let nn = normalize_ngrams(&raw).unwrap();
    let e = lookup(&nn.letters, Gram::One('e'));
    let t = lookup(&nn.letters, Gram::One('t'));
    // the rounding residue of one unit lands on the first entry
    assert_eq!(e, 666_666_667);
    assert_eq!(t, 333_333_333);
    assert_eq!(e + t, SCORE_ONE);
    assert!(((e as f64) / (SCORE_ONE as f64) - 0.6667).abs() < 1e-3);
    assert!(((t as f64) / (SCORE_ONE as f64) - 0.3333).abs() < 1e-3);
}

#[test]
fn normalization_distributes_the_rounding_residue() {
    // seven unit counts at weight one: each scales to 142857142 and
    // the first entry carries the six lost units, so the sums meet
    // the weight exactly
    let letters: Vec<(Gram, u64)> = "abcdefg".chars().map(|c| (Gram::One(c), 1)).collect();
    let raw = RawNGrams { weight: SCORE_ONE, letters, bigrams: vec![], trigrams: vec![] };
    let nn = normalize_ngrams(&raw).unwrap();
    assert_eq!(lookup(&nn.letters, Gram::One('a')), 142_857_142 + 6);
    assert_eq!(lookup(&nn.letters, Gram::One('b')), 142_857_142);
    let sum: u64 = nn.letters.iter().map(|e| e.1).sum();
    assert_eq!(sum, SCORE_ONE);
}

#[test]
fn normalized_scores_sum_to_weight() {
    let raw = RawNGrams {
        weight: 2 * SCORE_ONE,
        letters: vec![(Gram::One('a'), 3), (Gram::One('b'), 7)],
        bigrams: vec![(Gram::Two('b', 'a'), 5)],
        trigrams: vec![(Gram::Three('c', 'b', 'a'), 2)],
    };
    let nn = normalize_ngrams(&raw).unwrap();
    let sum: u64 = nn.letters.iter().map(|e| e.1).sum::<u64>()
        + nn.bigrams.iter().map(|e| e.1).sum::<u64>()
        + nn.trigrams.iter().map(|e| e.1).sum::<u64>();
    let w = 2 * SCORE_ONE;
    // the three category sums meet the declared weight exactly
    assert_eq!(sum, w);
}

#[test]
fn empty_source_is_fatal() {
    let raw = RawNGrams {
        weight: SCORE_ONE,
        letters: vec![],
        bigrams: vec![],
        trigrams: vec![],
    };
    assert_eq!(normalize_ngrams(&raw).unwrap_err(), KloError::EmptyCorpusError);
}

#[test]
fn merging_sums_weighted_scores() {
    // two sources, both holding only "a": each normalizes to its own
    // weight, so the merged score is their sum
    let s1 = normalize_ngrams(&RawNGrams {
        weight: SCORE_ONE,
        letters: vec![(Gram::One('a'), 10)],
        bigrams: vec![],
        trigrams: vec![],
    })
    .unwrap();
    let s2 = normalize_ngrams(&RawNGrams {
        weight: 3 * SCORE_ONE,
        letters: vec![(Gram::One('a'), 10)],
        bigrams: vec![],
        trigrams: vec![],
    })
    .unwrap();
    let merged: NGrams = collect_normalized_ngrams(vec![s1, s2]);
    assert_eq!(lookup(&merged.letters, Gram::One('a')), 4 * SCORE_ONE);
}

#[test]
fn merging_keeps_distinct_ngrams_apart() {
    let s1 = normalize_ngrams(&RawNGrams {
        weight: SCORE_ONE,
        letters: vec![(Gram::One('a'), 1), (Gram::One('b'), 1)],
        bigrams: vec![],
        trigrams: vec![],
    })
    .unwrap();
    let s2 = normalize_ngrams(&RawNGrams {
        weight: SCORE_ONE,
        letters: vec![(Gram::One('b'), 1)],
        bigrams: vec![],
        trigrams: vec![],
    })
    .unwrap();
    let merged = collect_normalized_ngrams(vec![s1, s2]);
    assert_eq!(lookup(&merged.letters, Gram::One('a')), 500_000_000);
    assert_eq!(lookup(&merged.letters, Gram::One('b')), 1_500_000_000);
}

#[test]
fn pregenerated_lines_parse() {
    let t = read_pregenerated_file("10 a\n5 b\n", 1).unwrap();
    assert_eq!(lookup(&t, Gram::One('a')), 10 * SCORE_ONE);
    assert_eq!(lookup(&t, Gram::One('b')), 5 * SCORE_ONE);
}

#[test]
fn pregenerated_duplicate_ngrams_sum() {
    let t = read_pregenerated_file("1 a\n2 a\n", 1).unwrap();
    assert_eq!(lookup(&t, Gram::One('a')), 3 * SCORE_ONE);
}

#[test]
fn pregenerated_space_ngram() {
    // a line whose ngram is the space itself
    let t = read_pregenerated_file("7 \n", 1).unwrap();
    assert_eq!(lookup(&t, Gram::One(' ')), 7 * SCORE_ONE);
}

#[test]
fn pregenerated_trailing_space_pair() {
    // a trailing space belongs to the ngram
    let t = read_pregenerated_file("3 e \n", 2).unwrap();
    assert_eq!(lookup(&t, Gram::Two(' ', 'e')), 3 * SCORE_ONE);
}

#[test]
fn pregenerated_pairs_key_typed_order() {
    // the file ngram "th" is t-then-h, so the key is (current 'h',
    // previous 't')
    let t = read_pregenerated_file("2 th\n", 2).unwrap();
    assert_eq!(lookup(&t, Gram::Two('h', 't')), 2 * SCORE_ONE);
}

#[test]
fn pregenerated_byte_order_mark_stripped() {
    let t = read_pregenerated_file("\u{feff}4 x\n", 1).unwrap();
    assert_eq!(lookup(&t, Gram::One('x')), 4 * SCORE_ONE);
}

#[test]
fn pregenerated_carriage_returns_stripped() {
    let t = read_pregenerated_file("4 x\r\n2 y\r\n", 1).unwrap();
    assert_eq!(lookup(&t, Gram::One('x')), 4 * SCORE_ONE);
    assert_eq!(lookup(&t, Gram::One('y')), 2 * SCORE_ONE);
}

#[test]
fn pregenerated_malformed_line_is_fatal() {
    assert_eq!(
        read_pregenerated_file("x a\n", 1).unwrap_err(),
        KloError::ParseError(0)
    );
    assert_eq!(
        read_pregenerated_file("1 a\n\n2 b\n", 1).unwrap_err(),
        KloError::ParseError(1)
    );
    // a pair in the single-character table is malformed
    assert_eq!(
        read_pregenerated_file("1 ab\n", 1).unwrap_err(),
        KloError::ParseError(0)
    );
}

#[test]
fn config_lines_parse() {
    let specs = parse_ngrams_config(
        "# corpus sources\n1.0 text foo.txt\n2 pregenerated 1.txt;2.txt;3.txt\n0.5 quux data\n",
    )
    .unwrap();
    assert_eq!(specs.len(), 2);
    match &specs[0] {
        SourceSpec::Text { weight, path } => {
            assert_eq!(*weight, SCORE_ONE);
            assert_eq!(path, "foo.txt");
        }
        _ => panic!("expected a text source"),
    }
    match &specs[1] {
        SourceSpec::Pregenerated {
            weight,
            letters_path,
            bigrams_path,
            trigrams_path,
        } => {
            assert_eq!(*weight, 2 * SCORE_ONE);
            assert_eq!(letters_path, "1.txt");
            assert_eq!(bigrams_path, "2.txt");
            assert_eq!(trigrams_path, "3.txt");
        }
        _ => panic!("expected a pregenerated source"),
    }
}

#[test]
fn config_malformed_line_is_fatal() {
    assert_eq!(
        parse_ngrams_config("1.0 text ok.txt\nbroken\n").unwrap_err(),
        KloError::ParseError(1)
    );
    assert_eq!(
        parse_ngrams_config("1.0 pregenerated only;two\n").unwrap_err(),
        KloError::ParseError(0)
    );
}

#[test]
fn config_lines_tolerate_crlf_and_marks() {
    let specs = parse_ngrams_config("\u{feff}# note\r\n1.0 text foo.txt\r\n").unwrap();
    assert_eq!(specs.len(), 1);
    match &specs[0] {
        SourceSpec::Text { weight, path } => {
            assert_eq!(*weight, SCORE_ONE);
            assert_eq!(path, "foo.txt");
        }
        _ => panic!("expected a text source"),
    }
}

#[test]
fn sort_table_orders_by_score_then_key() {
    let t = vec![
        (Gram::One('b'), 5),
        (Gram::One('a'), 5),
        (Gram::Two('a', 'b'), 7),
    ];
    let sorted = klo::ngrams::sort_table(t);
    assert_eq!(
        sorted,
        vec![
            (Gram::Two('a', 'b'), 7),
            (Gram::One('a'), 5),
            (Gram::One('b'), 5),
        ]
    );
}

#[test]
fn sources_merge_end_to_end() {
    // two pregenerated sources of weights one and three, each holding
    // only "a": each normalizes to its whole weight, so the merged
    // score is four
    let sources = vec![
        SourceInput {
            weight: SCORE_ONE,
            data: SourceData::Pregenerated("10 a\n".to_string(), String::new(), String::new()),
        },
        SourceInput {
            weight: 3 * SCORE_ONE,
            data: SourceData::Pregenerated("10 a\n".to_string(), String::new(), String::new()),
        },
    ];
    let merged = from_sources(&sources).unwrap();
    assert_eq!(lookup(&merged.letters, Gram::One('a')), 4 * SCORE_ONE);
    assert!((lookup(&merged.letters, Gram::One('a')) as f64 / SCORE_ONE as f64 - 4.0).abs()
        < 1e-12);
}

#[test]
fn parse_fixed_matches_float_reading() {
    for text in ["3.25", "0.125", "17", "2.000000001"] {
        let fixed = parse_fixed(&chars(text)).unwrap();
        let float: f64 = text.parse().unwrap();
        assert!((fixed as f64 / SCORE_ONE as f64 - float).abs() < 1e-9);
    }
}

#[test]
fn error_descriptions_name_the_kind() {
    assert_eq!(KloError::ConfigError.describe(), "unusable configuration");
    assert_eq!(
        KloError::EmptyCorpusError.describe(),
        "corpus with zero total frequency"
    );
    assert_eq!(KloError::ParseError(3).describe(), "malformed line");
}

#[test]
fn text_source_end_to_end() {
    let sources = vec![SourceInput {
        weight: SCORE_ONE,
        data: SourceData::Text("ee t".to_string()),
    }];
    let merged = from_sources(&sources).unwrap();
    // counts: e:2, t:1, space:1; pairs e-e, space-e (the final pair is
    // padding); triples only e-e-space padding-trimmed to one
    let e = lookup(&merged.letters, Gram::One('e'));
    let t = lookup(&merged.letters, Gram::One('t'));
    assert!(e > t);
    let total: u64 = merged.letters.iter().map(|x| x.1).sum::<u64>()
        + merged.bigrams.iter().map(|x| x.1).sum::<u64>()
        + merged.trigrams.iter().map(|x| x.1).sum::<u64>();
    assert_eq!(total, SCORE_ONE);
}
