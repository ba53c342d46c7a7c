//! The cost evaluator and the staged search engine.

use klo::check_neo::evolve_a_layout;
use klo::cost::CostEvaluator;
use klo::engine::SearchEngine;
use klo::klo_options::KloOptions;
use klo::layout::{Blueprint, Layout};
use klo::ngrams::{Gram, NGrams};
use klo::random::RandomSource;
use klo::SCORE_ONE;

fn cell(s: &str) -> Vec<String> {
    vec![s.to_string()]
}

/// A blueprint with `e` on the home-stretch key costing 5 and `t` on
/// the key costing 9.
fn et_blueprint() -> Blueprint {
    vec![
        vec![],
        vec![
            cell(""),
            cell(""),
            cell(""),
            cell("e"),
            cell(""),
            cell(""),
            cell(""),
            cell(""),
            cell(""),
            cell("t"),
        ],
    ]
}

/// The same two keys with the characters the other way round.
fn te_blueprint() -> Blueprint {
    vec![
        vec![],
        vec![
            cell(""),
            cell(""),
            cell(""),
            cell("t"),
            cell(""),
            cell(""),
            cell(""),
            cell(""),
            cell(""),
            cell("e"),
        ],
    ]
}

/// The corpus of the two-thirds / one-third letter scenario.
fn et_corpus() -> NGrams {
    NGrams {
        letters: vec![
            (Gram::One('e'), 666_666_666),
            (Gram::One('t'), 333_333_333),
        ],
        bigrams: vec![],
        trigrams: vec![],
    }
}

fn options(alphabet: &str) -> KloOptions {
    KloOptions {
        num_layouts: 1,
        filename: "out.txt".to_string(),
        steps: 0,
        prerandomize: 0,
        controlled: false,
        quiet: true,
        verbose: false,
        controlled_tail: false,
        anneal: 0,
        anneal_step: 0,
        limit_ngrams: 0,
        starting_layout: String::new(),
        ngrams_config: "ngrams.config".to_string(),
        alphabet: alphabet.to_string(),
        base_layout: None,
    }
}

#[test]
fn letter_costs_weigh_frequencies() {
    // two thirds on cost 5 plus one third on cost 9 is about 6.33
    let layout = Layout::from_blueprint(et_blueprint());
    let cost = CostEvaluator::new().evaluate(&et_corpus(), &layout);
    assert_eq!(cost, 666_666_666u128 * 5 + 333_333_333u128 * 9);
    assert!((cost as f64 / SCORE_ONE as f64 - 6.33).abs() < 5e-3);
}

#[test]
fn uncovered_characters_pay_the_penalty() {
    let layout = Layout::from_blueprint(et_blueprint());
    let corpus = NGrams {
        letters: vec![(Gram::One('z'), SCORE_ONE)],
        bigrams: vec![],
        trigrams: vec![],
    };
    let cost = CostEvaluator::new().evaluate(&corpus, &layout);
    assert_eq!(cost, SCORE_ONE as u128 * 1000);
}

#[test]
fn same_finger_pairs_cost_more() {
    // 'a' at (1, 3) and 'b' at (2, 3) share the left middle finger;
    // 'c' at (2, 5) uses the left index finger on the same hand
    let bp: Blueprint = vec![
        vec![],
        vec![cell(""), cell(""), cell(""), cell("a")],
        vec![cell(""), cell(""), cell(""), cell("b"), cell(""), cell("c")],
    ];
    let layout = Layout::from_blueprint(bp);
    let eval = CostEvaluator::new();
    let same_finger = NGrams {
        letters: vec![],
        bigrams: vec![(Gram::Two('a', 'b'), SCORE_ONE)],
        trigrams: vec![],
    };
    let same_hand = NGrams {
        letters: vec![],
        bigrams: vec![(Gram::Two('a', 'c'), SCORE_ONE)],
        trigrams: vec![],
    };
    let sf = eval.evaluate(&same_finger, &layout);
    let sh = eval.evaluate(&same_hand, &layout);
    // keys 5 + 3 plus the same-finger surcharge of 40
    assert_eq!(sf, SCORE_ONE as u128 * (5 + 3 + 40));
    // keys 5 + 6 plus the same-hand surcharge of 3
    assert_eq!(sh, SCORE_ONE as u128 * (5 + 6 + 3));
    assert!(sf > sh);
}

#[test]
fn triples_add_both_steps() {
    let bp: Blueprint = vec![
        vec![],
        vec![cell(""), cell(""), cell(""), cell("a")],
        vec![cell(""), cell(""), cell(""), cell("b"), cell(""), cell("c")],
    ];
    let layout = Layout::from_blueprint(bp);
    let corpus = NGrams {
        letters: vec![],
        bigrams: vec![],
        trigrams: vec![(Gram::Three('a', 'b', 'c'), SCORE_ONE)],
    };
    let cost = CostEvaluator::new().evaluate(&corpus, &layout);
    // keys 5 + 3 + 6, pair (a, b) same finger 40, pair (b, c) same hand 3
    assert_eq!(cost, SCORE_ONE as u128 * (5 + 3 + 6 + 40 + 3));
}

#[test]
fn engine_reports_undisturbed_starting_cost() {
    // with no randomization the starting cost is exactly the
    // evaluator's verdict on the initial blueprint
    let corpus = et_corpus();
    let eval = CostEvaluator::new();
    let opts = options("et");
    let mut rng = RandomSource::from_seed(7);
    let expected = eval.evaluate(&corpus, &Layout::from_blueprint(et_blueprint()));
    let outcome = SearchEngine::run(&opts, &eval, &corpus, et_blueprint(), &mut rng);
    assert_eq!(outcome.start_cost, expected);
    assert!(outcome.best_cost <= outcome.start_cost);
}

#[test]
fn controlled_tail_reaches_the_better_swap() {
    // starting with the frequent letter on the dear key, the
    // exhaustive tail must swap the pair and stop at the local optimum
    let corpus = et_corpus();
    let eval = CostEvaluator::new();
    let mut opts = options("et");
    opts.controlled_tail = true;
    let mut rng = RandomSource::from_seed(7);
    let outcome = SearchEngine::run(&opts, &eval, &corpus, te_blueprint(), &mut rng);
    assert_eq!(outcome.best_cost, 666_666_666u128 * 5 + 333_333_333u128 * 9);
    assert_eq!(outcome.best[1][3][0], "e");
    assert_eq!(outcome.best[1][9][0], "t");
    // and no further single swap improves it
    let back = klo::layout::apply_swap(&outcome.best, 'e', 't');
    let back_cost = eval.evaluate(&corpus, &Layout::from_blueprint(back));
    assert!(back_cost >= outcome.best_cost);
}

#[test]
fn prerandomize_shuffles_the_start() {
    let corpus = et_corpus();
    let eval = CostEvaluator::new();
    let mut opts = options("et");
    opts.prerandomize = 3;
    let mut rng = RandomSource::from_seed(11);
    let outcome = SearchEngine::run(&opts, &eval, &corpus, et_blueprint(), &mut rng);
    // whatever the swaps did, the reported costs stay consistent
    let check = eval.evaluate(&corpus, &Layout::from_blueprint(outcome.best.clone()));
    assert_eq!(check, outcome.best_cost);
}

#[test]
fn annealing_keeps_the_best_seen() {
    let corpus = et_corpus();
    let eval = CostEvaluator::new();
    let mut opts = options("et");
    opts.anneal = 2;
    opts.anneal_step = 5;
    opts.steps = 20;
    opts.controlled = true;
    opts.controlled_tail = true;
    let mut rng = RandomSource::from_seed(3);
    let outcome = SearchEngine::run(&opts, &eval, &corpus, te_blueprint(), &mut rng);
    // the optimum of this two-key space is always found
    assert_eq!(outcome.best_cost, 666_666_666u128 * 5 + 333_333_333u128 * 9);
}

#[test]
fn random_source_is_reproducible() {
    let mut a = RandomSource::from_seed(42);
    let mut b = RandomSource::from_seed(42);
    for _ in 0..32 {
        let bound = 1 + a.next_below(1000);
        let x = a.next_below(bound);
        let y = {
            let bound_b = 1 + b.next_below(1000);
            assert_eq!(bound, bound_b);
            b.next_below(bound_b)
        };
        assert_eq!(x, y);
        assert!(x < bound);
    }
}

#[test]
fn zero_budget_run_returns_the_start() {
    let corpus = et_corpus();
    let eval = CostEvaluator::new();
    let opts = options("et");
    let mut rng = RandomSource::from_seed(9);
    let start = te_blueprint();
    let outcome = SearchEngine::run(&opts, &eval, &corpus, start.clone(), &mut rng);
    assert_eq!(outcome.best, start);
    assert_eq!(outcome.best_cost, outcome.start_cost);
}

#[test]
fn cap_keeps_the_highest_scored_ngrams() {
    // with the cap at one, only the heavier 't' survives the cut
    let corpus = NGrams {
        letters: vec![(Gram::One('e'), 10), (Gram::One('t'), 20)],
        bigrams: vec![],
        trigrams: vec![],
    };
    let eval = CostEvaluator::new();
    let mut opts = options("et");
    opts.limit_ngrams = 1;
    let mut rng = RandomSource::from_seed(5);
    let outcome = evolve_a_layout(&opts, &eval, corpus, et_blueprint(), &mut rng).unwrap();
    // 't' sits on the cost-9 key
    assert_eq!(outcome.start_cost, 20 * 9);
}

#[test]
fn evolve_caps_the_corpus() {
    // with the ngram limit at one, only the first letter entry counts
    let corpus = NGrams {
        letters: vec![
            (Gram::One('e'), SCORE_ONE),
            (Gram::One('t'), SCORE_ONE),
        ],
        bigrams: vec![],
        trigrams: vec![],
    };
    let eval = CostEvaluator::new();
    let mut opts = options("et");
    opts.limit_ngrams = 1;
    let mut rng = RandomSource::from_seed(5);
    let outcome = evolve_a_layout(&opts, &eval, corpus, et_blueprint(), &mut rng).unwrap();
    // only 'e' on its cost-5 key is scored
    assert_eq!(outcome.start_cost, SCORE_ONE as u128 * 5);
}

#[test]
fn evolve_rejects_ambiguous_alphabet() {
    // 'e' appears twice, so swaps would be ill-defined
    let bp: Blueprint = vec![vec![cell("e"), cell("e"), cell("t")]];
    let eval = CostEvaluator::new();
    let opts = options("et");
    let mut rng = RandomSource::from_seed(5);
    let corpus = et_corpus();
    assert!(evolve_a_layout(&opts, &eval, corpus, bp, &mut rng).is_err());
}
