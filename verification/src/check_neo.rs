//! The top-level evolution entry: prepares the corpus and the starting
//! blueprint, then hands both to the search engine.

use crate::cost::{spec_table_cost, CostEvaluator, UNCOVERED_PENALTY_MAX};
use crate::engine::{engine_inv, SearchEngine, SearchOutcome};
use crate::errors::KloError;
use crate::klo_options::KloOptions;
use crate::layout::{
    shape_ok, spec_apply_swap, top_is, unique_top, Blueprint, BlueprintView,
};
use crate::ngrams::{Gram, NGrams};
use crate::random::RandomSource;
use vstd::prelude::*;

verus! {

/// A score table capped at the configured ngram limit; zero means no
/// limit.
pub open spec fn limited_table(t: Seq<(Gram, u64)>, limit: u128) -> Seq<(Gram, u64)> {
    if 0 < limit < t.len() {
        t.take(limit as int)
    } else {
        t
    }
}

/// With a limit set, `t` is the table reordered by descending score
/// (ties broken by the fixed gram order), so its leading entries are
/// the highest-scored ones; with no limit it is the table itself.
pub open spec fn capped_source(orig: Seq<(Gram, u64)>, limit: u128, t: Seq<(Gram, u64)>) -> bool {
    if limit == 0 {
        t == orig
    } else {
        &&& t.to_multiset() == orig.to_multiset()
        &&& crate::ngrams::sorted_desc(t)
        &&& t.len() == orig.len()
        &&& crate::assoc::sum_values(t) == crate::assoc::sum_values(orig)
    }
}

/// The three tables the search scores against, before the cap is
/// taken: the corpus tables, reordered by descending score when a
/// limit is set.
pub open spec fn capped_tables(
    ng: NGrams,
    limit: u128,
    sl: Seq<(Gram, u64)>,
    sb: Seq<(Gram, u64)>,
    st: Seq<(Gram, u64)>,
) -> bool {
    &&& capped_source(ng.letters@, limit, sl)
    &&& capped_source(ng.bigrams@, limit, sb)
    &&& capped_source(ng.trigrams@, limit, st)
}

/// The cost of a blueprint under the capped corpus: each reordered
/// table cut to the limit.
pub open spec fn capped_cost(
    sl: Seq<(Gram, u64)>,
    sb: Seq<(Gram, u64)>,
    st: Seq<(Gram, u64)>,
    limit: u128,
    v: BlueprintView,
    penalty: u64,
) -> int {
    spec_table_cost(limited_table(sl, limit), v, penalty) + spec_table_cost(
        limited_table(sb, limit),
        v,
        penalty,
    ) + spec_table_cost(limited_table(st, limit), v, penalty)
}

/// Checks that `c` sits on exactly one key's first layer.
fn check_unique_top(bp: &Blueprint, c: char) -> (r: bool)
    ensures
        r == unique_top(bp.deep_view(), c),
{
    let ghost v = bp.deep_view();
    let mut found: Option<(usize, usize)> = None;
    let mut ri: usize = 0;
    while ri < bp.len()
        invariant
            ri <= bp.len(),
            v == bp.deep_view(),
            v.len() == bp@.len(),
            match found {
                None => forall|r2: int, s2: int| #[trigger] top_is(v, r2, s2, c) ==> r2 >= ri,
                Some(fs) => top_is(v, fs.0 as int, fs.1 as int, c) && (fs.0 as int) < ri && forall|
                    r2: int,
                    s2: int,
                | #[trigger] top_is(v, r2, s2, c) && r2 < ri ==> r2 == fs.0 && s2 == fs.1,
            },
        decreases bp.len() - ri,
    {
        let row_len: usize = bp[ri].len();
        proof {
            assert(v[ri as int] == bp@[ri as int].deep_view());
        }
        let mut si: usize = 0;
        while si < row_len
            invariant
                ri < bp.len(),
                si <= row_len,
                v == bp.deep_view(),
                v.len() == bp@.len(),
                row_len == v[ri as int].len(),
                match found {
                    None => forall|r2: int, s2: int| #[trigger]
                        top_is(v, r2, s2, c) ==> r2 > ri || (r2 == ri && s2 >= si),
                    Some(fs) => top_is(v, fs.0 as int, fs.1 as int, c) && ((fs.0 as int) < ri || (
                    fs.0 == ri && (fs.1 as int) < si)) && forall|r2: int, s2: int| #[trigger]
                        top_is(v, r2, s2, c) && (r2 < ri || (r2 == ri && s2 < si)) ==> r2 == fs.0
                            && s2 == fs.1,
                },
            decreases row_len - si,
        {
            let key = &bp[ri][si];
            proof {
                assert(v[ri as int][si as int] == bp@[ri as int]@[si as int].deep_view());
            }
            if key.len() > 0 {
                let cell: &String = &key[0];
                proof {
                    assert(v[ri as int][si as int][0] == bp@[ri as int]@[si as int]@[0]@);
                }
                if cell.as_str().unicode_len() == 1 {
                    if cell.as_str().get_char(0) == c {
                        proof {
                            assert(top_is(v, ri as int, si as int, c));
                        }
                        match found {
                            Some(_) => {
                                return false;
                            },
                            None => {
                                found = Some((ri, si));
                            },
                        }
                    }
                }
            }
            si += 1;
        }
        ri += 1;
    }
    match found {
        Some(fs) => {
            proof {
                assert(top_is(v, fs.0 as int, fs.1 as int, c));
                assert forall|r1: int, s1: int, r2: int, s2: int|
                    #[trigger] top_is(v, r1, s1, c) && #[trigger] top_is(v, r2, s2, c) implies r1
                    == r2 && s1 == s2 by {
                    assert(r1 == fs.0 && s1 == fs.1);
                    assert(r2 == fs.0 && s2 == fs.1);
                }
            }
            true
        },
        None => {
            proof {
                if unique_top(v, c) {
                    let (r2, s2) = choose|r2: int, s2: int| top_is(v, r2, s2, c);
                    assert(top_is(v, r2, s2, c));
                }
            }
            false
        },
    }
}

/// What the search outcome guarantees under the capped tables: its
/// best cost is the capped cost of its blueprint; without blind
/// randomization the starting cost is the capped cost of the starting
/// blueprint; and with the certification tail no alphabet swap of the
/// best blueprint scores lower.
pub open spec fn capped_outcome(
    sl: Seq<(Gram, u64)>,
    sb: Seq<(Gram, u64)>,
    st: Seq<(Gram, u64)>,
    options: KloOptions,
    startv: BlueprintView,
    out: SearchOutcome,
    penalty: u64,
) -> bool {
    &&& out.best_cost == capped_cost(
        sl,
        sb,
        st,
        options.limit_ngrams,
        out.best.deep_view(),
        penalty,
    )
    &&& options.prerandomize == 0 ==> out.start_cost == capped_cost(
        sl,
        sb,
        st,
        options.limit_ngrams,
        startv,
        penalty,
    )
    &&& options.controlled_tail ==> forall|x: int, y: int|
        0 <= x < options.alphabet@.len() && 0 <= y < options.alphabet@.len() ==> capped_cost(
            sl,
            sb,
            st,
            options.limit_ngrams,
            #[trigger] spec_apply_swap(
                out.best.deep_view(),
                options.alphabet@[x],
                options.alphabet@[y],
            ),
            penalty,
        ) >= out.best_cost
}

/// Evolves a layout: reorders the corpus tables by descending score
/// and caps them at the configured ngram limit (so the cap keeps the
/// highest-scored ngrams), checks that every alphabet character sits
/// on exactly one key, and runs the staged search. The outcome
/// carries the best blueprint found, its cost, and the cost of the
/// randomized starting point.
pub fn evolve_a_layout(
    options: &KloOptions,
    eval: &CostEvaluator,
    ngrams: NGrams,
    start: Blueprint,
    rng: &mut RandomSource,
) -> (r: Result<SearchOutcome, KloError>)
    requires
        ngrams.wf(),
        shape_ok(start.deep_view()),
        eval.uncovered_penalty <= UNCOVERED_PENALTY_MAX,
    ensures
        match r {
            Ok(out) => {
                &&& engine_inv(start.deep_view(), options.alphabet@)
                &&& engine_inv(out.best.deep_view(), options.alphabet@)
                &&& out.best_cost <= out.start_cost
                &&& options.prerandomize == 0 && options.steps == 0 && options.anneal_step == 0
                    && !options.controlled_tail ==> out.best.deep_view() == start.deep_view()
                &&& exists|sl: Seq<(Gram, u64)>, sb: Seq<(Gram, u64)>, st: Seq<(Gram, u64)>|
                    #[trigger] capped_tables(ngrams, options.limit_ngrams, sl, sb, st)
                        && capped_outcome(
                        sl,
                        sb,
                        st,
                        *options,
                        start.deep_view(),
                        out,
                        eval.uncovered_penalty,
                    )
            },
            Err(e) => e == KloError::ConfigError && !engine_inv(
                start.deep_view(),
                options.alphabet@,
            ),
        },
{
    let ghost l0 = ngrams.letters@;
    let ghost b0 = ngrams.bigrams@;
    let ghost t0 = ngrams.trigrams@;
    // Reorder by descending score, so the cap keeps the most frequent
    // ngrams, then cut each category at the limit.
    let mut corpus: NGrams = if options.limit_ngrams > 0 {
        let sorted_letters = crate::ngrams::sort_table(ngrams.letters);
        let sorted_bigrams = crate::ngrams::sort_table(ngrams.bigrams);
        let sorted_trigrams = crate::ngrams::sort_table(ngrams.trigrams);
        NGrams { letters: sorted_letters, bigrams: sorted_bigrams, trigrams: sorted_trigrams }
    } else {
        ngrams
    };
    let ghost sl = corpus.letters@;
    let ghost sb = corpus.bigrams@;
    let ghost st = corpus.trigrams@;
    proof {
        assert(capped_tables(NGrams { letters: ngrams.letters, bigrams: ngrams.bigrams, trigrams: ngrams.trigrams }, options.limit_ngrams, sl, sb, st));
    }
    if options.limit_ngrams > 0 {
        let limit: usize = if options.limit_ngrams >= usize::MAX as u128 {
            usize::MAX
        } else {
            options.limit_ngrams as usize
        };
        corpus.letters.truncate(limit);
        corpus.bigrams.truncate(limit);
        corpus.trigrams.truncate(limit);
        proof {
            assert(corpus.letters@ =~= limited_table(sl, options.limit_ngrams));
            assert(corpus.bigrams@ =~= limited_table(sb, options.limit_ngrams));
            assert(corpus.trigrams@ =~= limited_table(st, options.limit_ngrams));
            if 0 < options.limit_ngrams < sl.len() {
                crate::assoc::lemma_sum_values_take(sl, options.limit_ngrams as int);
            }
            if 0 < options.limit_ngrams < sb.len() {
                crate::assoc::lemma_sum_values_take(sb, options.limit_ngrams as int);
            }
            if 0 < options.limit_ngrams < st.len() {
                crate::assoc::lemma_sum_values_take(st, options.limit_ngrams as int);
            }
            assert(corpus.wf());
        }
    } else {
        proof {
            assert(corpus.letters@ == limited_table(sl, options.limit_ngrams));
            assert(corpus.bigrams@ == limited_table(sb, options.limit_ngrams));
            assert(corpus.trigrams@ == limited_table(st, options.limit_ngrams));
        }
    }
    // Every swappable character must sit on exactly one key.
    let alpha = crate::scan::chars_of(options.alphabet.as_str());
    let mut ai: usize = 0;
    while ai < alpha.len()
        invariant
            ai <= alpha@.len(),
            alpha@ == options.alphabet@,
            forall|i: int| 0 <= i < ai ==> unique_top(start.deep_view(), #[trigger] alpha@[i]),
        decreases alpha@.len() - ai,
    {
        if !check_unique_top(&start, alpha[ai]) {
            proof {
                assert(!unique_top(start.deep_view(), options.alphabet@[ai as int]));
            }
            return Err(KloError::ConfigError);
        }
        ai += 1;
    }
    let out = SearchEngine::run(options, eval, &corpus, start, rng);
    Ok(out)
}

} // verus!
