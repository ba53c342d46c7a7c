//! The staged stochastic search: blind randomization, simulated
//! annealing, steepest-descent refinement, and an exhaustive tail that
//! certifies a local optimum.

use crate::cost::{spec_cost, CostEvaluator, UNCOVERED_PENALTY_MAX};
use crate::klo_options::KloOptions;
use crate::layout::{
    shape_ok, spec_apply_swap, unique_top, apply_swap, copy_blueprint, Blueprint, BlueprintView,
    Layout,
};
use crate::ngrams::NGrams;
use crate::random::RandomSource;
use vstd::prelude::*;

verus! {

/// What the search keeps fixed about every blueprint it touches: the
/// geometry fits the cost tables, and each swappable character sits on
/// exactly one key's first layer.
pub open spec fn engine_inv(v: BlueprintView, alpha: Seq<char>) -> bool {
    &&& shape_ok(v)
    &&& forall|i: int| 0 <= i < alpha.len() ==> unique_top(v, #[trigger] alpha[i])
}

/// Swapping two characters of the alphabet preserves the search
/// invariant.
pub proof fn lemma_swap_keeps_inv(v: BlueprintView, alpha: Seq<char>, x: int, y: int)
    requires
        engine_inv(v, alpha),
        0 <= x < alpha.len(),
        0 <= y < alpha.len(),
    ensures
        engine_inv(spec_apply_swap(v, alpha[x], alpha[y]), alpha),
{
    let a = alpha[x];
    let b = alpha[y];
    if a == b {
    } else {
        assert forall|i: int| 0 <= i < alpha.len() implies unique_top(
            spec_apply_swap(v, a, b),
            #[trigger] alpha[i],
        ) by {
            crate::layout::lemma_swap_keeps_unique(v, a, b, alpha[i]);
        }
        crate::layout::lemma_swap_keeps_unique(v, a, b, a);
    }
}

/// What one run of the search hands back.
pub struct SearchOutcome {
    /// The best blueprint found.
    pub best: Blueprint,
    /// Its cost.
    pub best_cost: u128,
    /// The cost of the run's true starting point, after the blind
    /// randomization swaps.
    pub start_cost: u128,
}

/// Evaluates a blueprint and hands it back together with its cost.
fn blueprint_cost(eval: &CostEvaluator, ngrams: &NGrams, bp: Blueprint) -> (r: (Blueprint, u128))
    requires
        shape_ok(bp.deep_view()),
        ngrams.wf(),
        eval.uncovered_penalty <= UNCOVERED_PENALTY_MAX,
    ensures
        r.0 == bp,
        r.1 == spec_cost(*ngrams, bp.deep_view(), eval.uncovered_penalty),
{
    let layout = Layout::from_blueprint(bp);
    let c = eval.evaluate(ngrams, &layout);
    (layout.blueprint, c)
}

/// Applies one random swap of two distinct alphabet slots.
fn random_swap(bp: Blueprint, alpha: &Vec<char>, rng: &mut RandomSource) -> (r: Blueprint)
    requires
        alpha@.len() >= 2,
        engine_inv(bp.deep_view(), alpha@),
    ensures
        engine_inv(r.deep_view(), alpha@),
{
    let n: u64 = alpha.len() as u64;
    let i = rng.next_below(n) as usize;
    let j0 = rng.next_below(n - 1) as usize;
    let j: usize = if j0 >= i {
        j0 + 1
    } else {
        j0
    };
    let a = alpha[i];
    let b = alpha[j];
    let r = apply_swap(&bp, a, b);
    proof {
        lemma_swap_keeps_inv(bp.deep_view(), alpha@, i as int, j as int);
    }
    r
}

/// Scans every pair of alphabet characters for the swap that lowers
/// the cost the most. Reports nothing exactly when no single swap
/// improves on `cur_cost`: the blueprint is then a local optimum under
/// single-swap moves.
fn find_best_swap(
    eval: &CostEvaluator,
    ngrams: &NGrams,
    bp: &Blueprint,
    alpha: &Vec<char>,
    cur_cost: u128,
) -> (r: Option<(Blueprint, u128)>)
    requires
        engine_inv(bp.deep_view(), alpha@),
        ngrams.wf(),
        eval.uncovered_penalty <= UNCOVERED_PENALTY_MAX,
        cur_cost == spec_cost(*ngrams, bp.deep_view(), eval.uncovered_penalty),
    ensures
        match r {
            Some(bc) => {
                &&& engine_inv(bc.0.deep_view(), alpha@)
                &&& bc.1 == spec_cost(*ngrams, bc.0.deep_view(), eval.uncovered_penalty)
                &&& bc.1 < cur_cost
            },
            None => forall|x: int, y: int|
                0 <= x < alpha@.len() && 0 <= y < alpha@.len() ==> spec_cost(
                    *ngrams,
                    #[trigger] spec_apply_swap(bp.deep_view(), alpha@[x], alpha@[y]),
                    eval.uncovered_penalty,
                ) >= cur_cost,
        },
{
    let ghost v = bp.deep_view();
    let mut best: Option<(Blueprint, u128)> = None;
    let mut x: usize = 0;
    while x < alpha.len()
        invariant
            x <= alpha@.len(),
            v == bp.deep_view(),
            engine_inv(v, alpha@),
            ngrams.wf(),
            eval.uncovered_penalty <= UNCOVERED_PENALTY_MAX,
            cur_cost == spec_cost(*ngrams, v, eval.uncovered_penalty),
            match best {
                Some(bc) => engine_inv(bc.0.deep_view(), alpha@) && bc.1 == spec_cost(
                    *ngrams,
                    bc.0.deep_view(),
                    eval.uncovered_penalty,
                ) && bc.1 < cur_cost,
                None => forall|x2: int, y2: int|
                    0 <= x2 < x && 0 <= y2 < alpha@.len() ==> spec_cost(
                        *ngrams,
                        #[trigger] spec_apply_swap(v, alpha@[x2], alpha@[y2]),
                        eval.uncovered_penalty,
                    ) >= cur_cost,
            },
        decreases alpha@.len() - x,
    {
        let mut y: usize = 0;
        while y < alpha.len()
            invariant
                x < alpha@.len(),
                y <= alpha@.len(),
                v == bp.deep_view(),
                engine_inv(v, alpha@),
                ngrams.wf(),
                eval.uncovered_penalty <= UNCOVERED_PENALTY_MAX,
                cur_cost == spec_cost(*ngrams, v, eval.uncovered_penalty),
                match best {
                    Some(bc) => engine_inv(bc.0.deep_view(), alpha@) && bc.1 == spec_cost(
                        *ngrams,
                        bc.0.deep_view(),
                        eval.uncovered_penalty,
                    ) && bc.1 < cur_cost,
                    None => forall|x2: int, y2: int|
                        0 <= x2 < alpha@.len() && 0 <= y2 < alpha@.len() && (x2 < x || (x2 == x
                            && y2 < y)) ==> spec_cost(
                            *ngrams,
                            #[trigger] spec_apply_swap(v, alpha@[x2], alpha@[y2]),
                            eval.uncovered_penalty,
                        ) >= cur_cost,
                },
            decreases alpha@.len() - y,
        {
            let a = alpha[x];
            let b = alpha[y];
            if a != b {
                let cand = apply_swap(bp, a, b);
                proof {
                    lemma_swap_keeps_inv(v, alpha@, x as int, y as int);
                }
                let (cand, cand_cost) = blueprint_cost(eval, ngrams, cand);
                let target: u128 = match &best {
                    Some(bc) => bc.1,
                    None => cur_cost,
                };
                if cand_cost < target {
                    best = Some((cand, cand_cost));
                }
            }
            y += 1;
        }
        x += 1;
    }
    proof {
        if best is None {
            assert forall|x2: int, y2: int|
                0 <= x2 < alpha@.len() && 0 <= y2 < alpha@.len() implies spec_cost(
                *ngrams,
                #[trigger] spec_apply_swap(v, alpha@[x2], alpha@[y2]),
                eval.uncovered_penalty,
            ) >= cur_cost by {
                assert(x2 < x);
            }
        }
    }
    best
}

/// The search engine: drives a blueprint through the staged schedule
/// and returns the best one found.
pub struct SearchEngine {
}

impl SearchEngine {
    /// Runs the full schedule: `prerandomize` unconditional random
    /// swaps, then annealing levels that accept worsening candidates
    /// with a leniency that shrinks as the level drops, then
    /// strictly-improving refinement for the rest of the step budget,
    /// and, when `controlled_tail` is set, exhaustive single-swap
    /// descent until no swap of two alphabet characters lowers the
    /// cost any further.
    pub fn run(
        options: &KloOptions,
        eval: &CostEvaluator,
        ngrams: &NGrams,
        start: Blueprint,
        rng: &mut RandomSource,
    ) -> (r: SearchOutcome)
        requires
            engine_inv(start.deep_view(), options.alphabet@),
            ngrams.wf(),
            eval.uncovered_penalty <= UNCOVERED_PENALTY_MAX,
        ensures
            engine_inv(r.best.deep_view(), options.alphabet@),
            r.best_cost == spec_cost(*ngrams, r.best.deep_view(), eval.uncovered_penalty),
            r.best_cost <= r.start_cost,
            options.prerandomize == 0 ==> r.start_cost == spec_cost(
                *ngrams,
                start.deep_view(),
                eval.uncovered_penalty,
            ),
            options.prerandomize == 0 && options.steps == 0 && options.anneal_step == 0
                && !options.controlled_tail ==> r.best.deep_view() == start.deep_view(),
            options.controlled_tail ==> forall|x: int, y: int|
                0 <= x < options.alphabet@.len() && 0 <= y < options.alphabet@.len() ==> spec_cost(
                    *ngrams,
                    #[trigger] spec_apply_swap(
                        r.best.deep_view(),
                        options.alphabet@[x],
                        options.alphabet@[y],
                    ),
                    eval.uncovered_penalty,
                ) >= r.best_cost,
    {
        let ghost v0 = start.deep_view();
        let alpha: Vec<char> = crate::scan::chars_of(options.alphabet.as_str());
        let mut current: Blueprint = start;

        // Blind randomization: escape the starting basin.
        if alpha.len() >= 2 {
            let mut p: u128 = 0;
            while p < options.prerandomize
                invariant
                    alpha@ == options.alphabet@,
                    alpha@.len() >= 2,
                    engine_inv(current.deep_view(), options.alphabet@),
                    options.prerandomize == 0 ==> current.deep_view() == v0,
                decreases options.prerandomize - p,
            {
                current = random_swap(current, &alpha, rng);
                p += 1;
            }
        }

        let (cur0, start_cost) = blueprint_cost(eval, ngrams, current);
        let mut current = cur0;
        let mut cur_cost: u128 = start_cost;
        let mut best: Blueprint = copy_blueprint(&current);
        let mut best_cost: u128 = start_cost;
        let mut steps_used: u128 = 0;

        // Annealing: levels from `anneal` down to zero; a level `l`
        // proposes candidates built from `l + 1` simultaneous swaps
        // and accepts a worsening candidate with probability
        // `l / (anneal + 2)`, capped at the machine word.
        if alpha.len() >= 2 {
            let bound: u64 = if options.anneal >= 0xffff_ffff_ffff_fffe {
                0xffff_ffff_ffff_ffff
            } else {
                (options.anneal as u64) + 2
            };
            let mut lvl: u128 = options.anneal;
            loop
                invariant
                    alpha@ == options.alphabet@,
                    alpha@.len() >= 2,
                    ngrams.wf(),
                    eval.uncovered_penalty <= UNCOVERED_PENALTY_MAX,
                    bound > 0,
                    engine_inv(current.deep_view(), options.alphabet@),
                    cur_cost == spec_cost(*ngrams, current.deep_view(), eval.uncovered_penalty),
                    engine_inv(best.deep_view(), options.alphabet@),
                    best_cost == spec_cost(*ngrams, best.deep_view(), eval.uncovered_penalty),
                    best_cost <= start_cost,
                    options.prerandomize == 0 && options.anneal_step == 0 ==> best.deep_view()
                        == v0,
                    options.anneal_step == 0 ==> steps_used == 0,
                decreases lvl,
            {
                let swaps: u128 = if lvl == 0xffff_ffff_ffff_ffff_ffff_ffff_ffff_ffff {
                    lvl
                } else {
                    lvl + 1
                };
                let mut st: u128 = 0;
                while st < options.anneal_step
                    invariant
                        alpha@ == options.alphabet@,
                        alpha@.len() >= 2,
                        ngrams.wf(),
                        eval.uncovered_penalty <= UNCOVERED_PENALTY_MAX,
                        bound > 0,
                        engine_inv(current.deep_view(), options.alphabet@),
                        cur_cost == spec_cost(
                            *ngrams,
                            current.deep_view(),
                            eval.uncovered_penalty,
                        ),
                        engine_inv(best.deep_view(), options.alphabet@),
                        best_cost == spec_cost(*ngrams, best.deep_view(), eval.uncovered_penalty),
                        best_cost <= start_cost,
                        options.prerandomize == 0 && options.anneal_step == 0 ==> best.deep_view()
                            == v0,
                        options.anneal_step == 0 ==> steps_used == 0,
                    decreases options.anneal_step - st,
                {
                    let mut cand: Blueprint = copy_blueprint(&current);
                    let mut w: u128 = 0;
                    while w < swaps
                        invariant
                            alpha@ == options.alphabet@,
                            alpha@.len() >= 2,
                            engine_inv(cand.deep_view(), options.alphabet@),
                        decreases swaps - w,
                    {
                        cand = random_swap(cand, &alpha, rng);
                        w += 1;
                    }
                    let (cand, cand_cost) = blueprint_cost(eval, ngrams, cand);
                    let draw = rng.next_below(bound);
                    let threshold: u128 = if lvl > 0xffff_ffff_ffff_ffff {
                        0xffff_ffff_ffff_ffff
                    } else {
                        lvl
                    };
                    let accept_worse: bool = (draw as u128) < threshold;
                    if cand_cost < cur_cost || accept_worse {
                        current = cand;
                        cur_cost = cand_cost;
                        if cur_cost < best_cost {
                            best = copy_blueprint(&current);
                            best_cost = cur_cost;
                        }
                    }
                    if steps_used < 0xffff_ffff_ffff_ffff_ffff_ffff_ffff_ffff {
                        steps_used += 1;
                    }
                    st += 1;
                }
                if lvl == 0 {
                    break ;
                }
                lvl = lvl - 1;
            }
        }

        // Refinement starts from the best layout seen so far.
        let mut current = copy_blueprint(&best);
        let mut cur_cost: u128 = best_cost;

        // Controlled phase: strictly improving swaps only, within the
        // remaining step budget. With `controlled` set every step takes
        // the best swap of all; otherwise a small random sample is
        // tried and the first improvement taken.
        let mut remaining: u128 = if steps_used >= options.steps {
            0
        } else {
            options.steps - steps_used
        };
        while remaining > 0
            invariant
                alpha@ == options.alphabet@,
                ngrams.wf(),
                eval.uncovered_penalty <= UNCOVERED_PENALTY_MAX,
                engine_inv(current.deep_view(), options.alphabet@),
                cur_cost == spec_cost(*ngrams, current.deep_view(), eval.uncovered_penalty),
                best.deep_view() == current.deep_view(),
                best_cost == cur_cost,
                best_cost <= start_cost,
                options.prerandomize == 0 && options.steps == 0 && options.anneal_step == 0
                    ==> best.deep_view() == v0,
                options.steps == 0 ==> remaining == 0,
            decreases remaining,
        {
            if options.controlled {
                match find_best_swap(eval, ngrams, &current, &alpha, cur_cost) {
                    Some(bc) => {
                        current = bc.0;
                        cur_cost = bc.1;
                        best = copy_blueprint(&current);
                        best_cost = cur_cost;
                    },
                    None => {
                        break ;
                    },
                }
            } else {
                if alpha.len() >= 2 {
                    let mut tries: u8 = 0;
                    while tries < 8
                        invariant
                            alpha@ == options.alphabet@,
                            alpha@.len() >= 2,
                            ngrams.wf(),
                            eval.uncovered_penalty <= UNCOVERED_PENALTY_MAX,
                            engine_inv(current.deep_view(), options.alphabet@),
                            cur_cost == spec_cost(
                                *ngrams,
                                current.deep_view(),
                                eval.uncovered_penalty,
                            ),
                            best.deep_view() == current.deep_view(),
                            best_cost == cur_cost,
                            best_cost <= start_cost,
                        decreases 8 - tries,
                    {
                        let cand = copy_blueprint(&current);
                        let cand = random_swap(cand, &alpha, rng);
                        let (cand, cand_cost) = blueprint_cost(eval, ngrams, cand);
                        if cand_cost < cur_cost {
                            current = cand;
                            cur_cost = cand_cost;
                            best = copy_blueprint(&current);
                            best_cost = cur_cost;
                            break ;
                        }
                        tries += 1;
                    }
                }
            }
            remaining = remaining - 1;
        }

        // Certification tail: exhaust all single swaps until none
        // improves, so the result is a local optimum.
        if options.controlled_tail {
            loop
                invariant
                    alpha@ == options.alphabet@,
                    ngrams.wf(),
                    eval.uncovered_penalty <= UNCOVERED_PENALTY_MAX,
                    engine_inv(current.deep_view(), options.alphabet@),
                    cur_cost == spec_cost(*ngrams, current.deep_view(), eval.uncovered_penalty),
                    best.deep_view() == current.deep_view(),
                    best_cost == cur_cost,
                    best_cost <= start_cost,
                ensures
                    alpha@ == options.alphabet@,
                    engine_inv(current.deep_view(), options.alphabet@),
                    cur_cost == spec_cost(*ngrams, current.deep_view(), eval.uncovered_penalty),
                    best.deep_view() == current.deep_view(),
                    best_cost == cur_cost,
                    best_cost <= start_cost,
                    forall|x: int, y: int|
                        0 <= x < alpha@.len() && 0 <= y < alpha@.len() ==> spec_cost(
                            *ngrams,
                            #[trigger] spec_apply_swap(
                                current.deep_view(),
                                alpha@[x],
                                alpha@[y],
                            ),
                            eval.uncovered_penalty,
                        ) >= cur_cost,
                decreases cur_cost,
            {
                match find_best_swap(eval, ngrams, &current, &alpha, cur_cost) {
                    Some(bc) => {
                        current = bc.0;
                        cur_cost = bc.1;
                        best = copy_blueprint(&current);
                        best_cost = cur_cost;
                    },
                    None => {
                        break ;
                    },
                }
            }
        }

        SearchOutcome { best, best_cost, start_cost }
    }
}

} // verus!
