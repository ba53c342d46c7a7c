//! Run configuration for the optimizer.
//!
//! The caller parses command-line arguments and reads the layout file;
//! this type carries only plain, already-validated values into the core.

use vstd::prelude::*;

verus! {

/// The options of one optimization run.
///
/// `base_layout` holds the contents of a layout description, not a path:
/// reading files is the caller's business. `None` selects the built-in
/// reference layout.
pub struct KloOptions {
    /// How many fresh layouts to evolve.
    pub num_layouts: u128,
    /// Where the caller intends to store the result.
    pub filename: String,
    /// The overall step budget of one run.
    pub steps: u128,
    /// How many unconditional random swaps precede the search.
    pub prerandomize: u128,
    /// Whether every controlled step scans all pairs for the best swap.
    pub controlled: bool,
    /// Whether the caller wants little output.
    pub quiet: bool,
    /// Whether the caller wants much output.
    pub verbose: bool,
    /// Whether the run ends with exhaustive single-swap refinement.
    pub controlled_tail: bool,
    /// The number of annealing levels.
    pub anneal: u128,
    /// The number of steps spent on each annealing level.
    pub anneal_step: u128,
    /// Keep only this many entries per ngram table (0: keep all).
    pub limit_ngrams: u128,
    /// Rows of characters that override the base layout's first layer.
    pub starting_layout: String,
    /// Where the caller found the ngram source configuration.
    pub ngrams_config: String,
    /// The characters that mutations may exchange.
    pub alphabet: String,
    /// Contents of a layout description overriding the built-in one.
    pub base_layout: Option<String>,
}

impl KloOptions {
    /// Step count per anneal level after rebalancing: half the step
    /// budget spread over `anneal + 1` levels, but at least one step.
    pub open spec fn rebalanced_anneal_step(steps: u128, anneal: u128) -> int {
        let per_level = (steps as int / 2) / (anneal as int + 1);
        if per_level < 1 {
            1
        } else {
            per_level
        }
    }

    /// Caps the time spent annealing: when the configured anneal
    /// schedule would use more than half of the step budget, the step
    /// count per level is cut so that the other half stays available
    /// for the controlled phase. Every other option is kept as it is.
    pub fn post_parse_checks(&mut self)
        ensures
            final(self).num_layouts == old(self).num_layouts,
            final(self).filename == old(self).filename,
            final(self).steps == old(self).steps,
            final(self).prerandomize == old(self).prerandomize,
            final(self).controlled == old(self).controlled,
            final(self).quiet == old(self).quiet,
            final(self).verbose == old(self).verbose,
            final(self).controlled_tail == old(self).controlled_tail,
            final(self).anneal == old(self).anneal,
            final(self).limit_ngrams == old(self).limit_ngrams,
            final(self).starting_layout == old(self).starting_layout,
            final(self).ngrams_config == old(self).ngrams_config,
            final(self).alphabet == old(self).alphabet,
            final(self).base_layout == old(self).base_layout,
            old(self).anneal * old(self).anneal_step <= old(self).steps as int / 2
                ==> final(self).anneal_step == old(self).anneal_step,
            old(self).anneal * old(self).anneal_step > old(self).steps as int / 2
                ==> final(self).anneal_step == Self::rebalanced_anneal_step(
                old(self).steps,
                old(self).anneal,
            ),
            final(self).anneal * final(self).anneal_step <= old(self).steps as int / 2
                || final(self).anneal_step == 1,
    {
        let half: u128 = self.steps / 2;
        let exceeds: bool = self.anneal != 0 && self.anneal_step > half / self.anneal;
        proof {
            lemma_mul_exceeds_iff_quotient_exceeds(
                self.anneal as int,
                self.anneal_step as int,
                half as int,
            );
        }
        if exceeds {
            let per_level: u128 = if self.anneal == u128::MAX {
                proof {
                    vstd::arithmetic::div_mod::lemma_basic_div(
                        half as int,
                        self.anneal as int + 1,
                    );
                }
                0
            } else {
                half / (self.anneal + 1)
            };
            if per_level < 1 {
                self.anneal_step = 1;
            } else {
                self.anneal_step = per_level;
                proof {
                    lemma_rebalanced_fits_half(self.anneal as int, half as int);
                }
            }
        }
    }
}

/// For positive `a` and nonnegative `s`, `h`: the product `a * s`
/// exceeds `h` exactly when `s` exceeds the quotient `h / a`.
proof fn lemma_mul_exceeds_iff_quotient_exceeds(a: int, s: int, h: int)
    requires
        a >= 0,
        s >= 0,
        h >= 0,
    ensures
        a * s > h <==> (a != 0 && s > h / a),
{
    if a == 0 {
        assert(a * s == 0) by (nonlinear_arith)
            requires
                a == 0,
        ;
    } else {
        let q = h / a;
        let r = h % a;
        vstd::arithmetic::div_mod::lemma_fundamental_div_mod(h, a);
        vstd::arithmetic::div_mod::lemma_mod_bound(h, a);
        assert((a * s > h) <==> (s > q)) by (nonlinear_arith)
            requires
                a > 0,
                s >= 0,
                h == a * q + r,
                0 <= r < a,
        ;
    }
}

/// A per-level step count of `h / (a + 1)` keeps the whole anneal
/// schedule of `a` levels within `h` steps.
proof fn lemma_rebalanced_fits_half(a: int, h: int)
    requires
        a >= 0,
        h >= 0,
    ensures
        a * (h / (a + 1)) <= h,
{
    let q = h / (a + 1);
    let r = h % (a + 1);
    vstd::arithmetic::div_mod::lemma_fundamental_div_mod(h, a + 1);
    vstd::arithmetic::div_mod::lemma_mod_bound(h, a + 1);
    vstd::arithmetic::div_mod::lemma_div_pos_is_pos(h, a + 1);
    assert(a * q <= h) by (nonlinear_arith)
        requires
            a >= 0,
            q >= 0,
            0 <= r,
            h == (a + 1) * q + r,
    ;
}

} // verus!
