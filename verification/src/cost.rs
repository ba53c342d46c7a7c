//! The cost evaluator: one scalar for a corpus/layout pair, the
//! expected typing effort per unit of text, in fixed-point units.

use crate::geometry::{
    pos_ok, spec_finger_for, spec_pos_is_left, spec_position_cost, Finger, Position,
};
use crate::assoc::{assoc_find, sum_values, lemma_sum_values_nonneg};
use crate::layout::{
    cell_is_char, char_in, pos_before, pos_in, selected, shape_ok, BlueprintView, Layout,
};
use crate::ngrams::{Gram, NGrams};
use vstd::prelude::*;

verus! {

/// Extra effort when one finger types two keys in a row.
pub const SAME_FINGER_COST: u64 = 40;

/// Extra effort when one hand types two different-finger keys in a row.
pub const SAME_HAND_COST: u64 = 3;

/// Extra effort when one hand jumps two or more rows between keys.
pub const ROW_JUMP_COST: u64 = 10;

/// Largest admissible penalty for a corpus character the layout does
/// not cover; keeps every cost sum inside its integer type.
pub const UNCOVERED_PENALTY_MAX: u64 = 1_000_000;

/// The one cell the derived caches select for a character, when the
/// character appears in the blueprint at all.
pub open spec fn spec_sel_pos(v: BlueprintView, c: char) -> Option<Position> {
    if char_in(v, c) {
        Some(choose|p: Position| selected(v, c, p))
    } else {
        None
    }
}

/// At most one cell is selected for a character.
pub proof fn lemma_selected_unique(v: BlueprintView, c: char, p1: Position, p2: Position)
    requires
        selected(v, c, p1),
        selected(v, c, p2),
    ensures
        p1 == p2,
{
    assert(spec_position_cost(p1) <= spec_position_cost(p2));
    assert(spec_position_cost(p2) <= spec_position_cost(p1));
    if p1 != p2 {
        assert(pos_before(p1, p2));
        assert(pos_before(p2, p1));
    }
}

/// Effort of typing `c` once: the cost of its selected cell, or the
/// uncovered penalty when the layout does not hold the character.
pub open spec fn spec_char_cost(v: BlueprintView, c: char, penalty: u64) -> int {
    match spec_sel_pos(v, c) {
        Some(p) => spec_position_cost(p),
        None => penalty as int,
    }
}

/// Extra effort of the two-keystroke sequence `b` then `a` (the pair
/// is keyed current-then-previous): same-finger repetition costs most,
/// a same-hand run costs a little, and a same-hand jump over two or
/// more rows costs more. Uncovered characters carry no sequence
/// surcharge; their uncovered penalty already dominates.
pub open spec fn spec_pair_extra(v: BlueprintView, a: char, b: char) -> int {
    match (spec_sel_pos(v, a), spec_sel_pos(v, b)) {
        (Some(pa), Some(pb)) => {
            let same_finger = spec_finger_for(pa.row as int, pa.slot as int) == spec_finger_for(
                pb.row as int,
                pb.slot as int,
            );
            let same_hand = spec_pos_is_left(pa) == spec_pos_is_left(pb);
            let row_jump = pa.row as int - pb.row as int >= 2 || pb.row as int - pa.row as int
                >= 2;
            (if same_finger {
                SAME_FINGER_COST as int
            } else if same_hand {
                SAME_HAND_COST as int
            } else {
                0
            }) + (if same_hand && row_jump {
                ROW_JUMP_COST as int
            } else {
                0
            })
        },
        _ => 0,
    }
}

/// Effort of one ngram: each key's cost, plus the sequence surcharge
/// of every adjacent step.
pub open spec fn spec_gram_cost(v: BlueprintView, g: Gram, penalty: u64) -> int {
    match g {
        Gram::One(c) => spec_char_cost(v, c, penalty),
        Gram::Two(a, b) => spec_char_cost(v, a, penalty) + spec_char_cost(v, b, penalty)
            + spec_pair_extra(v, a, b),
        Gram::Three(a, b, c) => spec_char_cost(v, a, penalty) + spec_char_cost(v, b, penalty)
            + spec_char_cost(v, c, penalty) + spec_pair_extra(v, a, b) + spec_pair_extra(v, b, c),
    }
}

/// Summed effort of a score table: each ngram's frequency times its
/// effort.
pub open spec fn spec_table_cost(t: Seq<(Gram, u64)>, v: BlueprintView, penalty: u64) -> int
    decreases t.len(),
{
    if t.len() == 0 {
        0
    } else {
        t[0].1 * spec_gram_cost(v, t[0].0, penalty) + spec_table_cost(t.drop_first(), v, penalty)
    }
}

/// The total cost of a corpus on a blueprint: the three categories'
/// table costs added up.
pub open spec fn spec_cost(ng: NGrams, v: BlueprintView, penalty: u64) -> int {
    spec_table_cost(ng.letters@, v, penalty) + spec_table_cost(ng.bigrams@, v, penalty)
        + spec_table_cost(ng.trigrams@, v, penalty)
}

/// Every ngram's effort lies between zero and a fixed ceiling.
pub proof fn lemma_gram_cost_bounds(v: BlueprintView, g: Gram, penalty: u64)
    requires
        penalty <= UNCOVERED_PENALTY_MAX,
    ensures
        0 <= spec_gram_cost(v, g, penalty) <= 4_000_000,
{
}

/// One more table entry adds its frequency-weighted effort.
pub proof fn lemma_table_cost_take_step(
    t: Seq<(Gram, u64)>,
    v: BlueprintView,
    penalty: u64,
    i: int,
)
    requires
        0 <= i < t.len(),
    ensures
        spec_table_cost(t.take(i + 1), v, penalty) == spec_table_cost(t.take(i), v, penalty)
            + t[i].1 * spec_gram_cost(v, t[i].0, penalty),
    decreases i,
{
    if i == 0 {
        assert(t.take(1)[0] == t[0]);
        assert(t.take(1).drop_first() =~= Seq::<(Gram, u64)>::empty());
        assert(t.take(0) =~= Seq::<(Gram, u64)>::empty());
    } else {
        assert(t.take(i + 1)[0] == t[0]);
        assert(t.take(i)[0] == t[0]);
        assert(t.take(i + 1).drop_first() =~= t.drop_first().take(i));
        assert(t.take(i).drop_first() =~= t.drop_first().take(i - 1));
        assert(t.drop_first()[i - 1] == t[i]);
        lemma_table_cost_take_step(t.drop_first(), v, penalty, i - 1);
    }
}

/// A table's cost is never negative and at most its total frequency
/// times the ngram-effort ceiling.
pub proof fn lemma_table_cost_bounds(t: Seq<(Gram, u64)>, v: BlueprintView, penalty: u64)
    requires
        penalty <= UNCOVERED_PENALTY_MAX,
    ensures
        0 <= spec_table_cost(t, v, penalty) <= sum_values(t) * 4_000_000,
    decreases t.len(),
{
    if t.len() == 0 {
    } else {
        lemma_table_cost_bounds(t.drop_first(), v, penalty);
        lemma_gram_cost_bounds(v, t[0].0, penalty);
        lemma_sum_values_nonneg(t.drop_first());
        assert(t[0].1 * spec_gram_cost(v, t[0].0, penalty) <= t[0].1 * 4_000_000) by {
            vstd::arithmetic::mul::lemma_mul_inequality(
                spec_gram_cost(v, t[0].0, penalty),
                4_000_000,
                t[0].1 as int,
            );
            vstd::arithmetic::mul::lemma_mul_is_commutative(
                spec_gram_cost(v, t[0].0, penalty),
                t[0].1 as int,
            );
            vstd::arithmetic::mul::lemma_mul_is_commutative(4_000_000, t[0].1 as int);
        }
        assert(t[0].1 * spec_gram_cost(v, t[0].0, penalty) >= 0) by {
            vstd::arithmetic::mul::lemma_mul_nonnegative(
                t[0].1 as int,
                spec_gram_cost(v, t[0].0, penalty),
            );
        }
        assert(sum_values(t) * 4_000_000 == t[0].1 * 4_000_000 + sum_values(t.drop_first())
            * 4_000_000) by {
            vstd::arithmetic::mul::lemma_mul_is_distributive_add_other_way(
                4_000_000,
                t[0].1 as int,
                sum_values(t.drop_first()),
            );
        }
    }
}

/// The total cost is never negative.
pub proof fn lemma_cost_nonneg(ng: NGrams, v: BlueprintView, penalty: u64)
    requires
        penalty <= UNCOVERED_PENALTY_MAX,
    ensures
        spec_cost(ng, v, penalty) >= 0,
{
    lemma_table_cost_bounds(ng.letters@, v, penalty);
    lemma_table_cost_bounds(ng.bigrams@, v, penalty);
    lemma_table_cost_bounds(ng.trigrams@, v, penalty);
}

/// Typing the same two keys with one finger costs strictly more than
/// typing them with two different fingers would, whatever the rest of
/// the sequence surcharge does.
pub proof fn lemma_same_finger_penalty_dominates(
    v: BlueprintView,
    a: char,
    b: char,
    a2: char,
    b2: char,
)
    requires
        spec_sel_pos(v, a).is_some(),
        spec_sel_pos(v, b).is_some(),
        spec_sel_pos(v, a2).is_some(),
        spec_sel_pos(v, b2).is_some(),
        spec_finger_for(
            spec_sel_pos(v, a)->Some_0.row as int,
            spec_sel_pos(v, a)->Some_0.slot as int,
        ) == spec_finger_for(
            spec_sel_pos(v, b)->Some_0.row as int,
            spec_sel_pos(v, b)->Some_0.slot as int,
        ),
        spec_finger_for(
            spec_sel_pos(v, a2)->Some_0.row as int,
            spec_sel_pos(v, a2)->Some_0.slot as int,
        ) != spec_finger_for(
            spec_sel_pos(v, b2)->Some_0.row as int,
            spec_sel_pos(v, b2)->Some_0.slot as int,
        ),
    ensures
        spec_pair_extra(v, a, b) >= SAME_FINGER_COST,
        spec_pair_extra(v, a2, b2) <= SAME_HAND_COST + ROW_JUMP_COST,
        spec_pair_extra(v, a, b) > spec_pair_extra(v, a2, b2),
{
}

/// Combines a corpus and a layout into one scalar expected effort.
pub struct CostEvaluator {
    /// Penalty per keystroke for a corpus character the layout does
    /// not cover.
    pub uncovered_penalty: u64,
}

impl CostEvaluator {
    /// An evaluator with the stock uncovered penalty.
    pub fn new() -> (r: CostEvaluator)
        ensures
            r.uncovered_penalty == 1000,
    {
        CostEvaluator { uncovered_penalty: 1000 }
    }

    /// The selected cell of `c`, straight from the layout's cache.
    fn sel_pos(&self, layout: &Layout, c: char) -> (r: Option<Position>)
        requires
            layout.wf(),
        ensures
            r == spec_sel_pos(layout.bp(), c),
            match r {
                Some(p) => pos_ok(p),
                None => true,
            },
    {
        let r = layout.char_position(c);
        proof {
            match assoc_find(layout.char_pos@, c) {
                Some(p) => {
                    assert(selected(layout.bp(), c, p));
                    assert(char_in(layout.bp(), c));
                    let q = choose|q: Position| selected(layout.bp(), c, q);
                    lemma_selected_unique(layout.bp(), c, p, q);
                    assert(pos_in(layout.bp(), p));
                },
                None => {
                    assert(!char_in(layout.bp(), c));
                },
            }
        }
        r
    }

    /// Effort of typing `c` once.
    fn char_cost(&self, layout: &Layout, c: char) -> (r: u64)
        requires
            layout.wf(),
            self.uncovered_penalty <= UNCOVERED_PENALTY_MAX,
        ensures
            r == spec_char_cost(layout.bp(), c, self.uncovered_penalty),
            r <= UNCOVERED_PENALTY_MAX,
    {
        match self.sel_pos(layout, c) {
            Some(p) => Layout::single_key_position_cost(p) as u64,
            None => self.uncovered_penalty,
        }
    }

    /// Sequence surcharge of the adjacent pair keyed (current, previous).
    fn pair_extra(&self, layout: &Layout, a: char, b: char) -> (r: u64)
        requires
            layout.wf(),
        ensures
            r == spec_pair_extra(layout.bp(), a, b),
            r <= 50,
    {
        let pa_opt = self.sel_pos(layout, a);
        let pb_opt = self.sel_pos(layout, b);
        match (pa_opt, pb_opt) {
            (Some(pa), Some(pb)) => {
                let fa = crate::geometry::finger_for(pa.row, pa.slot);
                let fb = crate::geometry::finger_for(pb.row, pb.slot);
                let la = pa.slot < crate::geometry::right_hand_lowest(pa.row);
                let lb = pb.slot < crate::geometry::right_hand_lowest(pb.row);
                let same_hand = la == lb;
                let row_jump = pa.row + 2 <= pb.row || pb.row + 2 <= pa.row;
                let base: u64 = if fa == fb {
                    SAME_FINGER_COST
                } else if same_hand {
                    SAME_HAND_COST
                } else {
                    0
                };
                let jump: u64 = if same_hand && row_jump {
                    ROW_JUMP_COST
                } else {
                    0
                };
                base + jump
            },
            _ => 0,
        }
    }

    /// Frequency-weighted effort of one ngram.
    fn gram_cost(&self, layout: &Layout, g: Gram) -> (r: u64)
        requires
            layout.wf(),
            self.uncovered_penalty <= UNCOVERED_PENALTY_MAX,
        ensures
            r == spec_gram_cost(layout.bp(), g, self.uncovered_penalty),
            r <= 4_000_000,
    {
        match g {
            Gram::One(c) => self.char_cost(layout, c),
            Gram::Two(a, b) => self.char_cost(layout, a) + self.char_cost(layout, b)
                + self.pair_extra(layout, a, b),
            Gram::Three(a, b, c) => self.char_cost(layout, a) + self.char_cost(layout, b)
                + self.char_cost(layout, c) + self.pair_extra(layout, a, b) + self.pair_extra(
                layout,
                b,
                c,
            ),
        }
    }

    /// Summed effort of one score table.
    fn table_cost(&self, t: &Vec<(Gram, u64)>, layout: &Layout) -> (r: u128)
        requires
            layout.wf(),
            self.uncovered_penalty <= UNCOVERED_PENALTY_MAX,
            sum_values(t@) <= u64::MAX,
        ensures
            r == spec_table_cost(t@, layout.bp(), self.uncovered_penalty),
    {
        let mut acc: u128 = 0;
        let mut i: usize = 0;
        proof {
            assert(t@.take(0) =~= Seq::<(Gram, u64)>::empty());
            crate::assoc::lemma_sum_values_take(t@, 0);
        }
        while i < t.len()
            invariant
                i <= t@.len(),
                layout.wf(),
                self.uncovered_penalty <= UNCOVERED_PENALTY_MAX,
                sum_values(t@) <= u64::MAX,
                acc == spec_table_cost(t@.take(i as int), layout.bp(), self.uncovered_penalty),
                acc <= sum_values(t@.take(i as int)) * 4_000_000,
            decreases t@.len() - i,
        {
            let g = t[i].0;
            let freq = t[i].1;
            let gc = self.gram_cost(layout, g);
            proof {
                lemma_table_cost_take_step(t@, layout.bp(), self.uncovered_penalty, i as int);
                crate::assoc::lemma_sum_values_take_step(t@, i as int);
                crate::assoc::lemma_sum_values_take(t@, i + 1);
                lemma_sum_values_nonneg(t@.take(i as int));
                vstd::arithmetic::mul::lemma_mul_inequality(
                    gc as int,
                    4_000_000,
                    freq as int,
                );
                vstd::arithmetic::mul::lemma_mul_is_commutative(gc as int, freq as int);
                vstd::arithmetic::mul::lemma_mul_is_commutative(4_000_000, freq as int);
                vstd::arithmetic::mul::lemma_mul_nonnegative(freq as int, gc as int);
                vstd::arithmetic::mul::lemma_mul_is_distributive_add_other_way(
                    4_000_000,
                    sum_values(t@.take(i as int)),
                    freq as int,
                );
                vstd::arithmetic::mul::lemma_mul_upper_bound(
                    sum_values(t@.take(i + 1)),
                    0xffff_ffff_ffff_ffff,
                    4_000_000,
                    4_000_000,
                );
            }
            acc = acc + (freq as u128) * (gc as u128);
            i += 1;
        }
        proof {
            assert(t@.take(t@.len() as int) =~= t@);
        }
        acc
    }

    /// The expected typing effort of the corpus on the layout: every
    /// scored ngram's frequency times its effort, summed over the
    /// three categories. Lower is better; the result is never
    /// negative, and depends on nothing but the two arguments.
    pub fn evaluate(&self, ngrams: &NGrams, layout: &Layout) -> (r: u128)
        requires
            layout.wf(),
            ngrams.wf(),
            self.uncovered_penalty <= UNCOVERED_PENALTY_MAX,
        ensures
            r == spec_cost(*ngrams, layout.bp(), self.uncovered_penalty),
    {
        proof {
            lemma_table_cost_bounds(ngrams.letters@, layout.bp(), self.uncovered_penalty);
            lemma_table_cost_bounds(ngrams.bigrams@, layout.bp(), self.uncovered_penalty);
            lemma_table_cost_bounds(ngrams.trigrams@, layout.bp(), self.uncovered_penalty);
            vstd::arithmetic::mul::lemma_mul_upper_bound(
                sum_values(ngrams.letters@),
                0xffff_ffff_ffff_ffff,
                4_000_000,
                4_000_000,
            );
            vstd::arithmetic::mul::lemma_mul_upper_bound(
                sum_values(ngrams.bigrams@),
                0xffff_ffff_ffff_ffff,
                4_000_000,
                4_000_000,
            );
            vstd::arithmetic::mul::lemma_mul_upper_bound(
                sum_values(ngrams.trigrams@),
                0xffff_ffff_ffff_ffff,
                4_000_000,
                4_000_000,
            );
            lemma_sum_values_nonneg(ngrams.letters@);
            lemma_sum_values_nonneg(ngrams.bigrams@);
            lemma_sum_values_nonneg(ngrams.trigrams@);
        }
        let a = self.table_cost(&ngrams.letters, layout);
        let b = self.table_cost(&ngrams.bigrams, layout);
        let c = self.table_cost(&ngrams.trigrams, layout);
        a + b + c
    }
}

} // verus!
