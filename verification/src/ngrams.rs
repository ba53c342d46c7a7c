//! The ngram-frequency corpus model: weighted sources are ingested,
//! normalized so that each source's scores sum to its declared weight,
//! and merged into one table per ngram category.
//!
//! Scores and weights are fixed-point numbers in units of
//! `1 / SCORE_ONE` (see the crate root), so normalization and merging
//! are exact integer arithmetic.

use crate::assoc::{
    assoc_find, distinct_keys, lemma_assoc_find_push, lemma_assoc_find_skip_found,
    lemma_assoc_find_skip_step, lemma_assoc_find_update, lemma_assoc_find_none_no_key,
    lemma_entry_le_sum, lemma_sum_values_nonneg, lemma_sum_values_push, lemma_sum_values_update,
    sum_values,
};
use crate::errors::KloError;
use crate::scan::{
    chars_of, clean_line_marks, file_lines, remove_char, spec_parse_fixed, split_chars, split_keep,
    strip_char, tokenize, tokens, parse_fixed, chars_eq_str, string_from_chars,
};
use vstd::prelude::*;

verus! {

/// One ngram: a single character, an adjacent pair, or an adjacent
/// triple. Pairs are keyed current-then-previous, triples
/// current-then-previous-then-before-previous, the order in which the
/// text ingester emits them.
#[derive(Clone, Copy, PartialEq, Eq, Structural, Debug, Hash)]
pub enum Gram {
    One(char),
    Two(char, char),
    Three(char, char, char),
}

/// The score a table holds for `g`, zero when absent.
pub open spec fn lookup0(s: Seq<(Gram, u64)>, g: Gram) -> int {
    match assoc_find(s, g) {
        Some(x) => x as int,
        None => 0,
    }
}

/// Finds the index of the first entry holding `g`.
fn find_index_by_gram(v: &Vec<(Gram, u64)>, g: Gram) -> (r: Option<usize>)
    ensures
        match r {
            Some(i) => i < v@.len() && v@[i as int].0 == g && (forall|j: int|
                0 <= j < i ==> (#[trigger] v@[j]).0 != g) && assoc_find(v@, g) == Some(
                v@[i as int].1,
            ),
            None => assoc_find(v@, g) == None::<u64>,
        },
{
    let mut i: usize = 0;
    proof {
        assert(v@.skip(0) =~= v@);
    }
    while i < v.len()
        invariant
            i <= v.len(),
            assoc_find(v@, g) == assoc_find(v@.skip(i as int), g),
            forall|j: int| 0 <= j < i ==> (#[trigger] v@[j]).0 != g,
        decreases v.len() - i,
    {
        if v[i].0 == g {
            proof {
                lemma_assoc_find_skip_found(v@, g, i as int);
            }
            return Some(i);
        }
        proof {
            lemma_assoc_find_skip_step(v@, g, i as int);
        }
        i += 1;
    }
    proof {
        assert(v@.skip(v.len() as int) =~= Seq::<(Gram, u64)>::empty());
    }
    None
}

/// Adds `amount` to the score of `g`, creating the entry when absent.
fn bump(table: &mut Vec<(Gram, u64)>, g: Gram, amount: u64)
    requires
        sum_values(old(table)@) + amount <= u64::MAX,
        distinct_keys(old(table)@),
    ensures
        distinct_keys(final(table)@),
        sum_values(final(table)@) == sum_values(old(table)@) + amount,
        lookup0(final(table)@, g) == lookup0(old(table)@, g) + amount,
        forall|h: Gram| h != g ==> #[trigger] lookup0(final(table)@, h) == lookup0(old(table)@, h),
        forall|h: Gram|
            (#[trigger] assoc_find(final(table)@, h)).is_some() <==> (assoc_find(old(table)@, h)).is_some()
                || h == g,
        (amount >= 1 && (forall|i: int|
            0 <= i < old(table)@.len() ==> (#[trigger] old(table)@[i]).1 >= 1)) ==> (forall|i: int|
            0 <= i < final(table)@.len() ==> (#[trigger] final(table)@[i]).1 >= 1),
{
    let ghost t0 = table@;
    match find_index_by_gram(table, g) {
        None => {
            table.push((g, amount));
            proof {
                lemma_assoc_find_none_no_key(t0, g);
                assert(distinct_keys(table@));
                lemma_sum_values_push(t0, g, amount);
                assert forall|h: Gram| true implies #[trigger] assoc_find(table@, h) == (
                match assoc_find(t0, h) {
                    Some(x) => Some(x),
                    None => if h == g {
                        Some(amount)
                    } else {
                        None
                    },
                }) by {
                    lemma_assoc_find_push(t0, g, amount, h);
                }
            }
        },
        Some(i) => {
            proof {
                lemma_entry_le_sum(t0, i as int);
                lemma_sum_values_nonneg(t0);
            }
            let old_val: u64 = table[i].1;
            proof {
                assert(old_val + amount <= u64::MAX) by {
                    lemma_entry_le_sum(t0, i as int);
                }
            }
            table.set(i, (g, old_val + amount));
            proof {
                assert(table@ == t0.update(i as int, (g, (old_val + amount) as u64)));
                assert(distinct_keys(table@)) by {
                    assert(forall|j: int|
                        0 <= j < table@.len() ==> (#[trigger] table@[j]).0 == t0[j].0);
                }
                lemma_sum_values_update(t0, i as int, (old_val + amount) as u64);
                assert forall|h: Gram| true implies #[trigger] assoc_find(table@, h) == (if h == g {
                    Some((old_val + amount) as u64)
                } else {
                    assoc_find(t0, h)
                }) by {
                    lemma_assoc_find_update(t0, i as int, (old_val + amount) as u64, h);
                }
            }
        },
    }
}


/// Uppercase letters fold to the shift marker; everything else stays.
pub open spec fn fold_char(c: char) -> char {
    if 65 <= (c as u32) <= 90 {
        '\u{21e7}'
    } else {
        c
    }
}

/// The text with every uppercase letter folded to the shift marker.
pub open spec fn folded(s: Seq<char>) -> Seq<char> {
    Seq::new(s.len(), |i: int| fold_char(s[i]))
}

/// Whether walking the folded text emits one count of `g` at step `j`.
/// Letters are emitted for every character but the shift marker; a
/// pair pairs the current character with the one before it, a triple
/// adds the one before that; the pair and triple that would end at the
/// last character are padding artifacts and are not emitted.
pub open spec fn emits(s: Seq<char>, j: int, g: Gram) -> bool {
    match g {
        Gram::One(c) => 0 <= j < s.len() && s[j] == c && c != '\u{21e7}',
        Gram::Two(a, b) => 1 <= j <= s.len() - 2 && s[j] == a && s[j - 1] == b,
        Gram::Three(a, b, c) => 2 <= j <= s.len() - 2 && s[j] == a && s[j - 1] == b && s[j - 2]
            == c,
    }
}

/// How many counts of `g` the first `i` steps of the walk emit.
pub open spec fn count_emitted(s: Seq<char>, i: int, g: Gram) -> int
    decreases i,
{
    if i <= 0 {
        0
    } else {
        count_emitted(s, i - 1, g) + if emits(s, i - 1, g) {
            1int
        } else {
            0
        }
    }
}

/// One more step of the walk adds exactly the emitted count.
proof fn lemma_count_emitted_step(s: Seq<char>, i: int, g: Gram)
    requires
        i >= 0,
    ensures
        count_emitted(s, i + 1, g) == count_emitted(s, i, g) + if emits(s, i, g) {
            1int
        } else {
            0
        },
{
    reveal_with_fuel(count_emitted, 2);
}

/// In a table of positive scores, a key is present exactly when its
/// score is positive.
proof fn lemma_pos_member(t: Seq<(Gram, u64)>, g: Gram)
    requires
        forall|i: int| 0 <= i < t.len() ==> (#[trigger] t[i]).1 >= 1,
    ensures
        (assoc_find(t, g)).is_some() <==> lookup0(t, g) > 0,
    decreases t.len(),
{
    if t.len() > 0 {
        if t[0].0 != g {
            assert(forall|i: int|
                0 <= i < t.drop_first().len() ==> (#[trigger] t.drop_first()[i]).1 == t[i + 1].1);
            lemma_pos_member(t.drop_first(), g);
        }
    }
}

/// Restates that a table change away from `h`'s key leaves `h` alone.
proof fn lemma_lookup_unchanged(t0: Seq<(Gram, u64)>, t1: Seq<(Gram, u64)>, g: Gram, h: Gram)
    requires
        forall|x: Gram| x != g ==> #[trigger] lookup0(t1, x) == lookup0(t0, x),
        h != g,
    ensures
        lookup0(t1, h) == lookup0(t0, h),
{
}

/// A walk of zero steps emits nothing.
proof fn lemma_count_zero(s: Seq<char>, g: Gram)
    ensures
        count_emitted(s, 0, g) == 0,
{
}

/// An empty table scores everything zero and holds no key.
proof fn lemma_lookup0_empty(g: Gram)
    ensures
        lookup0(Seq::<(Gram, u64)>::empty(), g) == 0,
        assoc_find(Seq::<(Gram, u64)>::empty(), g) is None,
{
}

/// How many letter counts the first `j` steps of the walk emit: one
/// per character that is not the shift marker.
pub open spec fn letter_events(s: Seq<char>, j: int) -> int
    decreases j,
{
    if j <= 0 {
        0
    } else {
        letter_events(s, j - 1) + if s[j - 1] != '\u{21e7}' {
            1int
        } else {
            0
        }
    }
}

/// How many pair counts the first `j` steps of a walk over `n`
/// characters emit.
pub open spec fn pair_events(n: int, j: int) -> int
    decreases j,
{
    if j <= 0 {
        0
    } else {
        pair_events(n, j - 1) + if 1 <= j - 1 <= n - 2 {
            1int
        } else {
            0
        }
    }
}

/// How many triple counts the first `j` steps of a walk over `n`
/// characters emit.
pub open spec fn triple_events(n: int, j: int) -> int
    decreases j,
{
    if j <= 0 {
        0
    } else {
        triple_events(n, j - 1) + if 2 <= j - 1 <= n - 2 {
            1int
        } else {
            0
        }
    }
}

/// One more step of the walk emits its events.
proof fn lemma_events_step(s: Seq<char>, n: int, j: int)
    requires
        j >= 0,
    ensures
        letter_events(s, j + 1) == letter_events(s, j) + if s[j] != '\u{21e7}' {
            1int
        } else {
            0
        },
        pair_events(n, j + 1) == pair_events(n, j) + if 1 <= j <= n - 2 {
            1int
        } else {
            0
        },
        triple_events(n, j + 1) == triple_events(n, j) + if 2 <= j <= n - 2 {
            1int
        } else {
            0
        },
{
    reveal_with_fuel(letter_events, 2);
    reveal_with_fuel(pair_events, 2);
    reveal_with_fuel(triple_events, 2);
}

/// One ingested source before normalization: its declared weight and
/// its raw counts per category.
pub struct RawNGrams {
    /// The source's declared weight, in `1 / SCORE_ONE` units.
    pub weight: u64,
    /// Raw single-character counts.
    pub letters: Vec<(Gram, u64)>,
    /// Raw adjacent-pair counts.
    pub bigrams: Vec<(Gram, u64)>,
    /// Raw adjacent-triple counts.
    pub trigrams: Vec<(Gram, u64)>,
}

/// Every key of the table is a single-character gram.
pub open spec fn all_one(t: Seq<(Gram, u64)>) -> bool {
    forall|g: Gram|
        (#[trigger] assoc_find(t, g)).is_some() ==> exists|c: char| g == Gram::One(c)
}

/// Every key of the table is a pair gram.
pub open spec fn all_two(t: Seq<(Gram, u64)>) -> bool {
    forall|g: Gram|
        (#[trigger] assoc_find(t, g)).is_some() ==> exists|a: char, b: char| g == Gram::Two(a, b)
}

/// Every key of the table is a triple gram.
pub open spec fn all_three(t: Seq<(Gram, u64)>) -> bool {
    forall|g: Gram|
        (#[trigger] assoc_find(t, g)).is_some() ==> exists|a: char, b: char, c: char|
            g == Gram::Three(a, b, c)
}

/// Ingests a raw text: counts every folded character, every adjacent
/// pair (current plus previous) and every adjacent triple, one count
/// per step of a three-character sliding window. The shift marker
/// stays out of the letter table, and the pair and triple that would
/// straddle the end of the text are discarded.
pub fn parse_text_ngrams(weight: u64, content: &str) -> (r: RawNGrams)
    requires
        content@.len() < 0x1000_0000_0000_0000,
    ensures
        r.weight == weight,
        distinct_keys(r.letters@),
        distinct_keys(r.bigrams@),
        distinct_keys(r.trigrams@),
        all_one(r.letters@),
        all_two(r.bigrams@),
        all_three(r.trigrams@),
        sum_values(r.letters@) <= content@.len(),
        sum_values(r.bigrams@) <= content@.len(),
        sum_values(r.trigrams@) <= content@.len(),
        sum_values(r.letters@) == letter_events(folded(content@), content@.len() as int),
        sum_values(r.bigrams@) == pair_events(content@.len() as int, content@.len() as int),
        sum_values(r.trigrams@) == triple_events(content@.len() as int, content@.len() as int),
        forall|c: char|
            (#[trigger] assoc_find(r.letters@, Gram::One(c))).is_some() <==> count_emitted(
                folded(content@),
                content@.len() as int,
                Gram::One(c),
            ) > 0,
        forall|a: char, b: char|
            (#[trigger] assoc_find(r.bigrams@, Gram::Two(a, b))).is_some() <==> count_emitted(
                folded(content@),
                content@.len() as int,
                Gram::Two(a, b),
            ) > 0,
        forall|a: char, b: char, c: char|
            (#[trigger] assoc_find(r.trigrams@, Gram::Three(a, b, c))).is_some() <==> count_emitted(
                folded(content@),
                content@.len() as int,
                Gram::Three(a, b, c),
            ) > 0,
        forall|c: char| #[trigger] lookup0(r.letters@, Gram::One(c)) == count_emitted(
            folded(content@),
            content@.len() as int,
            Gram::One(c),
        ),
        forall|a: char, b: char| #[trigger] lookup0(r.bigrams@, Gram::Two(a, b)) == count_emitted(
            folded(content@),
            content@.len() as int,
            Gram::Two(a, b),
        ),
        forall|a: char, b: char, c: char| #[trigger] lookup0(r.trigrams@, Gram::Three(a, b, c))
            == count_emitted(folded(content@), content@.len() as int, Gram::Three(a, b, c)),
{
    let mut letters: Vec<(Gram, u64)> = Vec::new();
    let mut bigrams: Vec<(Gram, u64)> = Vec::new();
    let mut trigrams: Vec<(Gram, u64)> = Vec::new();
    let ghost s = folded(content@);
    let n: usize = content.unicode_len();
    let mut j: usize = 0;
    let mut prev: char = ' ';
    let mut prev2: char = ' ';
    proof {
        assert(letters@ =~= Seq::<(Gram, u64)>::empty());
        assert(bigrams@ =~= Seq::<(Gram, u64)>::empty());
        assert(trigrams@ =~= Seq::<(Gram, u64)>::empty());
        assert forall|c: char| #[trigger] lookup0(letters@, Gram::One(c)) == count_emitted(
            s,
            0,
            Gram::One(c),
        ) by {
            lemma_count_zero(s, Gram::One(c));
            lemma_lookup0_empty(Gram::One(c));
        }
        assert forall|a: char, b: char| #[trigger] lookup0(bigrams@, Gram::Two(a, b))
            == count_emitted(s, 0, Gram::Two(a, b)) by {
            lemma_count_zero(s, Gram::Two(a, b));
            lemma_lookup0_empty(Gram::Two(a, b));
        }
        assert forall|a: char, b: char, c: char| #[trigger] lookup0(trigrams@, Gram::Three(a, b, c))
            == count_emitted(s, 0, Gram::Three(a, b, c)) by {
            lemma_count_zero(s, Gram::Three(a, b, c));
            lemma_lookup0_empty(Gram::Three(a, b, c));
        }
    }
    while j < n
        invariant
            j <= n,
            n == content@.len(),
            s == folded(content@),
            s.len() == n,
            content@.len() < 0x1000_0000_0000_0000,
            j >= 1 ==> prev == s[j - 1],
            j >= 2 ==> prev2 == s[j - 2],
            distinct_keys(letters@),
            distinct_keys(bigrams@),
            distinct_keys(trigrams@),
            all_one(letters@),
            all_two(bigrams@),
            all_three(trigrams@),
            sum_values(letters@) <= j,
            sum_values(bigrams@) <= j,
            sum_values(trigrams@) <= j,
            sum_values(letters@) == letter_events(s, j as int),
            sum_values(bigrams@) == pair_events(n as int, j as int),
            sum_values(trigrams@) == triple_events(n as int, j as int),
            forall|i: int| 0 <= i < letters@.len() ==> (#[trigger] letters@[i]).1 >= 1,
            forall|i: int| 0 <= i < bigrams@.len() ==> (#[trigger] bigrams@[i]).1 >= 1,
            forall|i: int| 0 <= i < trigrams@.len() ==> (#[trigger] trigrams@[i]).1 >= 1,
            forall|c: char| #[trigger] lookup0(letters@, Gram::One(c)) == count_emitted(
                s,
                j as int,
                Gram::One(c),
            ),
            forall|a: char, b: char| #[trigger] lookup0(bigrams@, Gram::Two(a, b))
                == count_emitted(s, j as int, Gram::Two(a, b)),
            forall|a: char, b: char, c: char| #[trigger] lookup0(trigrams@, Gram::Three(a, b, c))
                == count_emitted(s, j as int, Gram::Three(a, b, c)),
        decreases n - j,
    {
        let raw_c = content.get_char(j);
        let fc: char = if (raw_c as u32) >= 65 && (raw_c as u32) <= 90 {
            '\u{21e7}'
        } else {
            raw_c
        };
        proof {
            assert(fc == fold_char(content@[j as int]));
            assert(fc == s[j as int]);
            lemma_sum_values_nonneg(letters@);
            lemma_sum_values_nonneg(bigrams@);
            lemma_sum_values_nonneg(trigrams@);
        }
        let ghost let0 = letters@;
        if fc != '\u{21e7}' {
            bump(&mut letters, Gram::One(fc), 1);
        }
        proof {
            assert forall|c: char| true implies #[trigger] lookup0(letters@, Gram::One(c))
                == count_emitted(s, j + 1, Gram::One(c)) by {
                lemma_count_emitted_step(s, j as int, Gram::One(c));
                assert(lookup0(let0, Gram::One(c)) == count_emitted(s, j as int, Gram::One(c)));
                if fc == '\u{21e7}' {
                    assert(!emits(s, j as int, Gram::One(c)));
                    assert(lookup0(letters@, Gram::One(c)) == lookup0(let0, Gram::One(c)));
                } else if c == fc {
                    assert(emits(s, j as int, Gram::One(c)));
                    assert(lookup0(letters@, Gram::One(c)) == lookup0(let0, Gram::One(c)) + 1);
                } else {
                    assert(!emits(s, j as int, Gram::One(c)));
                    lemma_lookup_unchanged(let0, letters@, Gram::One(fc), Gram::One(c));
                }
            }
            lemma_events_step(s, n as int, j as int);
        }
        let ghost big0 = bigrams@;
        if j >= 1 && j + 1 < n {
            bump(&mut bigrams, Gram::Two(fc, prev), 1);
        }
        proof {
            assert forall|a: char, b: char| true implies #[trigger] lookup0(bigrams@, Gram::Two(a, b))
                == count_emitted(s, j + 1, Gram::Two(a, b)) by {
                lemma_count_emitted_step(s, j as int, Gram::Two(a, b));
                assert(lookup0(big0, Gram::Two(a, b)) == count_emitted(s, j as int, Gram::Two(a, b)));
                if j >= 1 && j + 1 < n {
                    if a == fc && b == prev {
                        assert(emits(s, j as int, Gram::Two(a, b)));
                    } else {
                        assert(!emits(s, j as int, Gram::Two(a, b)));
                        lemma_lookup_unchanged(big0, bigrams@, Gram::Two(fc, prev), Gram::Two(a, b));
                    }
                } else {
                    assert(!emits(s, j as int, Gram::Two(a, b)));
                }
            }
        }
        let ghost tri0 = trigrams@;
        if j >= 2 && j + 1 < n {
            bump(&mut trigrams, Gram::Three(fc, prev, prev2), 1);
        }
        proof {
            assert forall|a: char, b: char, c: char| true implies #[trigger] lookup0(
                trigrams@,
                Gram::Three(a, b, c),
            ) == count_emitted(s, j + 1, Gram::Three(a, b, c)) by {
                lemma_count_emitted_step(s, j as int, Gram::Three(a, b, c));
                assert(lookup0(tri0, Gram::Three(a, b, c)) == count_emitted(
                    s,
                    j as int,
                    Gram::Three(a, b, c),
                ));
                if j >= 2 && j + 1 < n {
                    if a == fc && b == prev && c == prev2 {
                        assert(emits(s, j as int, Gram::Three(a, b, c)));
                    } else {
                        assert(!emits(s, j as int, Gram::Three(a, b, c)));
                        lemma_lookup_unchanged(
                            tri0,
                            trigrams@,
                            Gram::Three(fc, prev, prev2),
                            Gram::Three(a, b, c),
                        );
                    }
                } else {
                    assert(!emits(s, j as int, Gram::Three(a, b, c)));
                }
            }
        }
        prev2 = prev;
        prev = fc;
        j += 1;
    }
    proof {
        assert forall|c: char| true implies ((#[trigger] assoc_find(
            letters@,
            Gram::One(c),
        )).is_some() <==> count_emitted(s, n as int, Gram::One(c)) > 0) by {
            lemma_pos_member(letters@, Gram::One(c));
            assert(lookup0(letters@, Gram::One(c)) == count_emitted(s, n as int, Gram::One(c)));
        }
        assert forall|a: char, b: char| true implies ((#[trigger] assoc_find(
            bigrams@,
            Gram::Two(a, b),
        )).is_some() <==> count_emitted(s, n as int, Gram::Two(a, b)) > 0) by {
            lemma_pos_member(bigrams@, Gram::Two(a, b));
            assert(lookup0(bigrams@, Gram::Two(a, b)) == count_emitted(s, n as int, Gram::Two(a, b)));
        }
        assert forall|a: char, b: char, c: char| true implies ((#[trigger] assoc_find(
            trigrams@,
            Gram::Three(a, b, c),
        )).is_some() <==> count_emitted(s, n as int, Gram::Three(a, b, c)) > 0) by {
            lemma_pos_member(trigrams@, Gram::Three(a, b, c));
            assert(lookup0(trigrams@, Gram::Three(a, b, c)) == count_emitted(
                s,
                n as int,
                Gram::Three(a, b, c),
            ));
        }
    }
    RawNGrams { weight, letters, bigrams, trigrams }
}


/// One source after normalization: every raw count divided by the
/// source's overall total and scaled by the declared weight, so that
/// the three categories together sum to the weight, up to one
/// fixed-point unit per entry.
#[derive(Debug)]
pub struct NormalizedNGrams {
    /// The source's declared weight, in `1 / SCORE_ONE` units.
    pub weight: u64,
    /// Normalized, weighted single-character scores.
    pub letters: Vec<(Gram, u64)>,
    /// Normalized, weighted pair scores.
    pub bigrams: Vec<(Gram, u64)>,
    /// Normalized, weighted triple scores.
    pub trigrams: Vec<(Gram, u64)>,
}

/// The merged corpus: one score table per ngram category, in
/// `1 / SCORE_ONE` units, immutable once built.
#[derive(Clone)]
pub struct NGrams {
    /// Combined single-character scores.
    pub letters: Vec<(Gram, u64)>,
    /// Combined adjacent-pair scores.
    pub bigrams: Vec<(Gram, u64)>,
    /// Combined adjacent-triple scores.
    pub trigrams: Vec<(Gram, u64)>,
}

impl NGrams {
    /// Each table's total fits a machine word, which keeps every cost
    /// sum exact.
    pub open spec fn wf(self) -> bool {
        &&& sum_values(self.letters@) <= u64::MAX
        &&& sum_values(self.bigrams@) <= u64::MAX
        &&& sum_values(self.trigrams@) <= u64::MAX
    }
}

/// Division of nonnegative numbers distributes over addition up to one
/// unit.
proof fn lemma_div_add_bounds(x: int, y: int, d: int)
    requires
        x >= 0,
        y >= 0,
        d > 0,
    ensures
        x / d + y / d <= (x + y) / d <= x / d + y / d + 1,
{
    let a = x / d;
    let r1 = x % d;
    let b = y / d;
    let r2 = y % d;
    vstd::arithmetic::div_mod::lemma_fundamental_div_mod(x, d);
    vstd::arithmetic::div_mod::lemma_mod_bound(x, d);
    vstd::arithmetic::div_mod::lemma_fundamental_div_mod(y, d);
    vstd::arithmetic::div_mod::lemma_mod_bound(y, d);
    vstd::arithmetic::mul::lemma_mul_is_distributive_add(d, a, b);
    vstd::arithmetic::mul::lemma_mul_is_commutative(d, a + b);
    assert(x + y == (a + b) * d + (r1 + r2));
    if r1 + r2 < d {
        vstd::arithmetic::div_mod::lemma_fundamental_div_mod_converse(x + y, d, a + b, r1 + r2);
    } else {
        vstd::arithmetic::mul::lemma_mul_is_distributive_add(d, a + b, 1);
        vstd::arithmetic::mul::lemma_mul_is_commutative(d, a + b + 1);
        assert(d * (a + b + 1) == d * (a + b) + d * 1);
        vstd::arithmetic::div_mod::lemma_fundamental_div_mod_converse(
            x + y,
            d,
            a + b + 1,
            r1 + r2 - d,
        );
    }
}

/// Adds up a whole table.
fn table_total(t: &Vec<(Gram, u64)>) -> (r: u128)
    ensures
        r == sum_values(t@),
{
    let mut acc: u128 = 0;
    let mut i: usize = 0;
    proof {
        assert(t@.take(0) =~= Seq::<(Gram, u64)>::empty());
    }
    while i < t.len()
        invariant
            i <= t@.len(),
            acc == sum_values(t@.take(i as int)),
            acc <= i * 0xffff_ffff_ffff_ffffu128,
        decreases t@.len() - i,
    {
        proof {
            crate::assoc::lemma_sum_values_take_step(t@, i as int);
        }
        acc = acc + (t[i].1 as u128);
        i += 1;
    }
    proof {
        assert(t@.take(t@.len() as int) =~= t@);
    }
    acc
}

/// Scales every count by `w / total`, rounding down.
fn scale_table(t: &Vec<(Gram, u64)>, w: u64, total: u128) -> (r: Vec<(Gram, u64)>)
    requires
        total > 0,
        sum_values(t@) <= total,
    ensures
        r@.len() == t@.len(),
        forall|i: int|
            0 <= i < t@.len() ==> (#[trigger] r@[i]).0 == t@[i].0 && r@[i].1 == (t@[i].1 * w) as int
                / (total as int),
        sum_values(r@) <= (sum_values(t@) * w) / (total as int),
        sum_values(r@) >= (sum_values(t@) * w) / (total as int) - t@.len(),
{
    let mut out: Vec<(Gram, u64)> = Vec::new();
    let mut i: usize = 0;
    let ghost d = total as int;
    proof {
        assert(t@.take(0) =~= Seq::<(Gram, u64)>::empty());
        assert(out@.take(0) =~= Seq::<(Gram, u64)>::empty());
        vstd::arithmetic::div_mod::lemma_div_pos_is_pos(0, d);
    }
    while i < t.len()
        invariant
            i <= t@.len(),
            total > 0,
            d == total as int,
            sum_values(t@) <= total,
            out@.len() == i,
            forall|k: int|
                0 <= k < i ==> (#[trigger] out@[k]).0 == t@[k].0 && out@[k].1 == (t@[k].1 * w) as int
                    / d,
            sum_values(out@) <= (sum_values(t@.take(i as int)) * w) / d,
            sum_values(out@) >= (sum_values(t@.take(i as int)) * w) / d - i,
        decreases t@.len() - i,
    {
        let c: u64 = t[i].1;
        proof {
            lemma_entry_le_sum(t@, i as int);
            lemma_sum_values_nonneg(t@);
            vstd::arithmetic::mul::lemma_mul_upper_bound(
                c as int,
                0xffff_ffff_ffff_ffff,
                w as int,
                0xffff_ffff_ffff_ffff,
            );
            vstd::arithmetic::mul::lemma_mul_nonnegative(c as int, w as int);
            // the scaled entry never exceeds the weight
            vstd::arithmetic::mul::lemma_mul_inequality(c as int, d, w as int);
            vstd::arithmetic::div_mod::lemma_div_is_ordered(c as int * w as int, d * (w as int), d);
            vstd::arithmetic::mul::lemma_mul_is_commutative(d, w as int);
            vstd::arithmetic::div_mod::lemma_div_multiples_vanish(w as int, d);
            vstd::arithmetic::div_mod::lemma_div_pos_is_pos(c as int * w as int, d);
        }
        let v: u128 = (c as u128) * (w as u128) / total;
        let ghost sum_pre = sum_values(t@.take(i as int));
        proof {
            crate::assoc::lemma_sum_values_take_step(t@, i as int);
            lemma_sum_values_push(out@, t@[i as int].0, v as u64);
            crate::assoc::lemma_sum_values_take(t@, i as int);
            vstd::arithmetic::mul::lemma_mul_nonnegative(sum_pre, w as int);
            lemma_div_add_bounds(sum_pre * (w as int), c as int * (w as int), d);
            vstd::arithmetic::mul::lemma_mul_is_distributive_add_other_way(
                w as int,
                sum_pre,
                c as int,
            );
        }
        out.push((t[i].0, v as u64));
        i += 1;
    }
    proof {
        assert(t@.take(t@.len() as int) =~= t@);
    }
    out
}


/// One normalized entry before remainder correction: the raw count
/// scaled by `w / total`, rounded down.
pub open spec fn norm_entry(c: u64, w: u64, total: int) -> int {
    (c * w) as int / total
}

/// The rounded-down normalized total of one table.
pub open spec fn floor_norm_sum(t: Seq<(Gram, u64)>, w: u64, total: int) -> int
    decreases t.len(),
{
    if t.len() == 0 {
        0
    } else {
        norm_entry(t[0].1, w, total) + floor_norm_sum(t.drop_first(), w, total)
    }
}

/// What rounding down loses across the whole source: the difference
/// between the weight and the three rounded-down totals. It is handed
/// to one entry so the normalized sums meet the weight exactly.
pub open spec fn norm_residue_of(
    lt: Seq<(Gram, u64)>,
    bt: Seq<(Gram, u64)>,
    tt: Seq<(Gram, u64)>,
    w: u64,
) -> int {
    let total = sum_values(lt) + sum_values(bt) + sum_values(tt);
    w - floor_norm_sum(lt, w, total) - floor_norm_sum(bt, w, total) - floor_norm_sum(tt, w, total)
}

/// The rounding residue of a raw source.
pub open spec fn norm_residue(raw: RawNGrams) -> int {
    norm_residue_of(raw.letters@, raw.bigrams@, raw.trigrams@, raw.weight)
}

/// A pointwise-scaled table's total is the rounded-down normalized
/// total of its source.
proof fn lemma_scaled_sum(tin: Seq<(Gram, u64)>, tout: Seq<(Gram, u64)>, w: u64, total: int)
    requires
        tout.len() == tin.len(),
        forall|i: int| 0 <= i < tin.len() ==> (#[trigger] tout[i]).1 == norm_entry(tin[i].1, w, total),
    ensures
        sum_values(tout) == floor_norm_sum(tin, w, total),
    decreases tin.len(),
{
    if tin.len() > 0 {
        assert(tout[0].1 == norm_entry(tin[0].1, w, total));
        assert(forall|i: int|
            0 <= i < tin.len() - 1 ==> (#[trigger] tout.drop_first()[i]).1 == tout[i + 1].1);
        assert(forall|i: int|
            0 <= i < tin.len() - 1 ==> (#[trigger] tin.drop_first()[i]).1 == tin[i + 1].1);
        assert(forall|i: int|
            0 <= i < tin.len() - 1 ==> (#[trigger] tout.drop_first()[i]).1 == norm_entry(
                tin.drop_first()[i].1,
                w,
                total,
            ));
        lemma_scaled_sum(tin.drop_first(), tout.drop_first(), w, total);
    }
}

/// The normalized tables carry the given raw tables' keys in order;
/// every value is the raw count scaled by `w / total`, rounded down,
/// except that the first entry of the first non-empty category also
/// carries the rounding residue.
pub open spec fn normalized_from(
    lt: Seq<(Gram, u64)>,
    bt: Seq<(Gram, u64)>,
    tt: Seq<(Gram, u64)>,
    w: u64,
    nn: NormalizedNGrams,
) -> bool {
    let total = sum_values(lt) + sum_values(bt) + sum_values(tt);
    &&& nn.weight == w
    &&& nn.letters@.len() == lt.len()
    &&& nn.bigrams@.len() == bt.len()
    &&& nn.trigrams@.len() == tt.len()
    &&& forall|i: int| 0 <= i < lt.len() ==> (#[trigger] nn.letters@[i]).0 == lt[i].0
    &&& forall|i: int| 0 <= i < bt.len() ==> (#[trigger] nn.bigrams@[i]).0 == bt[i].0
    &&& forall|i: int| 0 <= i < tt.len() ==> (#[trigger] nn.trigrams@[i]).0 == tt[i].0
    &&& if lt.len() > 0 {
        &&& nn.letters@[0].1 == norm_entry(lt[0].1, w, total) + norm_residue_of(lt, bt, tt, w)
        &&& forall|i: int|
            1 <= i < lt.len() ==> (#[trigger] nn.letters@[i]).1 == norm_entry(lt[i].1, w, total)
        &&& forall|i: int|
            0 <= i < bt.len() ==> (#[trigger] nn.bigrams@[i]).1 == norm_entry(bt[i].1, w, total)
        &&& forall|i: int|
            0 <= i < tt.len() ==> (#[trigger] nn.trigrams@[i]).1 == norm_entry(tt[i].1, w, total)
    } else if bt.len() > 0 {
        &&& nn.bigrams@[0].1 == norm_entry(bt[0].1, w, total) + norm_residue_of(lt, bt, tt, w)
        &&& forall|i: int|
            1 <= i < bt.len() ==> (#[trigger] nn.bigrams@[i]).1 == norm_entry(bt[i].1, w, total)
        &&& forall|i: int|
            0 <= i < tt.len() ==> (#[trigger] nn.trigrams@[i]).1 == norm_entry(tt[i].1, w, total)
    } else {
        &&& tt.len() > 0 ==> nn.trigrams@[0].1 == norm_entry(tt[0].1, w, total) + norm_residue_of(
            lt,
            bt,
            tt,
            w,
        )
        &&& forall|i: int|
            1 <= i < tt.len() ==> (#[trigger] nn.trigrams@[i]).1 == norm_entry(tt[i].1, w, total)
    }
}

/// The normalized tables of a raw source.
pub open spec fn normalized_tables(raw: RawNGrams, nn: NormalizedNGrams) -> bool {
    normalized_from(raw.letters@, raw.bigrams@, raw.trigrams@, raw.weight, nn)
}

/// Normalizes one raw source: divides every count by the source's
/// overall total and scales by its weight, rounding down, then hands
/// what rounding lost to the first entry of the first non-empty
/// category, so the three normalized categories sum to the weight
/// exactly. A source whose total is zero cannot be normalized.
pub fn normalize_ngrams(raw: &RawNGrams) -> (r: Result<NormalizedNGrams, KloError>)
    requires
        sum_values(raw.letters@) <= u64::MAX,
        sum_values(raw.bigrams@) <= u64::MAX,
        sum_values(raw.trigrams@) <= u64::MAX,
    ensures
        ({
            let total = sum_values(raw.letters@) + sum_values(raw.bigrams@) + sum_values(
                raw.trigrams@,
            );
            match r {
                Result::Err(e) => e == KloError::EmptyCorpusError && total == 0,
                Result::Ok(nn) => {
                    &&& total > 0
                    &&& nn.weight == raw.weight
                    &&& normalized_tables(*raw, nn)
                    &&& sum_values(nn.letters@) + sum_values(nn.bigrams@) + sum_values(
                        nn.trigrams@,
                    ) == raw.weight
                    &&& 0 <= norm_residue(*raw) <= raw.letters@.len() + raw.bigrams@.len()
                        + raw.trigrams@.len() + 2
                },
            }
        }),
{
    let sum_l = table_total(&raw.letters);
    let sum_b = table_total(&raw.bigrams);
    let sum_t = table_total(&raw.trigrams);
    proof {
        lemma_sum_values_nonneg(raw.letters@);
        lemma_sum_values_nonneg(raw.bigrams@);
        lemma_sum_values_nonneg(raw.trigrams@);
    }
    let total: u128 = sum_l + sum_b + sum_t;
    if total == 0 {
        return Err(KloError::EmptyCorpusError);
    }
    let w = raw.weight;
    let ghost d = total as int;
    let ghost sl = sum_values(raw.letters@);
    let ghost sb = sum_values(raw.bigrams@);
    let ghost st = sum_values(raw.trigrams@);
    let mut letters = scale_table(&raw.letters, w, total);
    let mut bigrams = scale_table(&raw.bigrams, w, total);
    let mut trigrams = scale_table(&raw.trigrams, w, total);
    proof {
        vstd::arithmetic::mul::lemma_mul_nonnegative(sl, w as int);
        vstd::arithmetic::mul::lemma_mul_nonnegative(sb, w as int);
        vstd::arithmetic::mul::lemma_mul_nonnegative(st, w as int);
        lemma_div_add_bounds(sl * (w as int), sb * (w as int), d);
        vstd::arithmetic::mul::lemma_mul_is_distributive_add_other_way(w as int, sl, sb);
        vstd::arithmetic::mul::lemma_mul_nonnegative(sl + sb, w as int);
        lemma_div_add_bounds((sl + sb) * (w as int), st * (w as int), d);
        vstd::arithmetic::mul::lemma_mul_is_distributive_add_other_way(w as int, sl + sb, st);
        vstd::arithmetic::mul::lemma_mul_is_commutative(d, w as int);
        vstd::arithmetic::div_mod::lemma_div_multiples_vanish(w as int, d);
        lemma_scaled_sum(raw.letters@, letters@, w, d);
        lemma_scaled_sum(raw.bigrams@, bigrams@, w, d);
        lemma_scaled_sum(raw.trigrams@, trigrams@, w, d);
    }
    let sc_l = table_total(&letters);
    let sc_b = table_total(&bigrams);
    let sc_t = table_total(&trigrams);
    let scaled_sum: u64 = (sc_l + sc_b + sc_t) as u64;
    let residue: u64 = w - scaled_sum;
    proof {
        assert(residue == norm_residue(*raw));
    }
    if letters.len() > 0 {
        let head = letters[0];
        proof {
            lemma_entry_le_sum(letters@, 0);
            lemma_sum_values_nonneg(bigrams@);
            lemma_sum_values_nonneg(trigrams@);
        }
        let ghost pre = letters@;
        letters.set(0, (head.0, head.1 + residue));
        proof {
            assert(letters@ == pre.update(0, (pre[0].0, (head.1 + residue) as u64)));
            lemma_sum_values_update(pre, 0, (head.1 + residue) as u64);
        }
    } else if bigrams.len() > 0 {
        let head = bigrams[0];
        proof {
            lemma_entry_le_sum(bigrams@, 0);
            lemma_sum_values_nonneg(letters@);
            lemma_sum_values_nonneg(trigrams@);
        }
        let ghost pre = bigrams@;
        bigrams.set(0, (head.0, head.1 + residue));
        proof {
            assert(bigrams@ == pre.update(0, (pre[0].0, (head.1 + residue) as u64)));
            lemma_sum_values_update(pre, 0, (head.1 + residue) as u64);
        }
    } else {
        proof {
            assert(sl == 0 && sb == 0);
            assert(st > 0);
            assert(raw.trigrams@.len() > 0);
        }
        let head = trigrams[0];
        proof {
            lemma_entry_le_sum(trigrams@, 0);
            lemma_sum_values_nonneg(letters@);
            lemma_sum_values_nonneg(bigrams@);
        }
        let ghost pre = trigrams@;
        trigrams.set(0, (head.0, head.1 + residue));
        proof {
            assert(trigrams@ == pre.update(0, (pre[0].0, (head.1 + residue) as u64)));
            lemma_sum_values_update(pre, 0, (head.1 + residue) as u64);
        }
    }
    Ok(NormalizedNGrams { weight: w, letters, bigrams, trigrams })
}

/// The summed contribution of the first `k` entries to the key `g`.
pub open spec fn prefix_lookup(t: Seq<(Gram, u64)>, k: int, g: Gram) -> int
    decreases k,
{
    if k <= 0 {
        0
    } else {
        prefix_lookup(t, k - 1, g) + if t[k - 1].0 == g {
            t[k - 1].1 as int
        } else {
            0
        }
    }
}

/// One more entry adds its contribution.
proof fn lemma_prefix_lookup_step(t: Seq<(Gram, u64)>, k: int, g: Gram)
    requires
        0 <= k < t.len(),
    ensures
        prefix_lookup(t, k + 1, g) == prefix_lookup(t, k, g) + if t[k].0 == g {
            t[k].1 as int
        } else {
            0
        },
{
    reveal_with_fuel(prefix_lookup, 2);
}

/// The prefix sums only look at the entries they cover.
proof fn lemma_prefix_lookup_congruent(t1: Seq<(Gram, u64)>, t2: Seq<(Gram, u64)>, k: int, g: Gram)
    requires
        0 <= k <= t1.len(),
        k <= t2.len(),
        forall|i: int| 0 <= i < k ==> t1[i] == t2[i],
    ensures
        prefix_lookup(t1, k, g) == prefix_lookup(t2, k, g),
    decreases k,
{
    if k > 0 {
        lemma_prefix_lookup_congruent(t1, t2, k - 1, g);
    }
}

/// With distinct keys, the first match is the only one, so summing the
/// contributions gives the table's score.
#[verifier::spinoff_prover]
#[verifier::rlimit(30)]
proof fn lemma_lookup0_drop_last(t: Seq<(Gram, u64)>, g: Gram)
    requires
        distinct_keys(t),
        t.len() > 0,
    ensures
        lookup0(t, g) == lookup0(t.drop_last(), g) + if t.last().0 == g {
            t.last().1 as int
        } else {
            0
        },
    decreases t.len(),
{
    if t.len() == 1 {
        assert(t.drop_last() =~= Seq::<(Gram, u64)>::empty());
    } else {
        assert(t.drop_last()[0] == t[0]);
        if t[0].0 == g {
            assert(t.last().0 != g) by {
                assert(t[0].0 != t[t.len() - 1].0);
            }
        } else {
            assert(t.drop_first().drop_last() =~= t.drop_last().drop_first());
            assert(distinct_keys(t.drop_first())) by {
                assert(forall|i: int, j: int|
                    0 <= i < j < t.len() - 1 ==> (#[trigger] t.drop_first()[i]).0 != (
                    #[trigger] t.drop_first()[j]).0);
            }
            assert(t.drop_first().last() == t.last());
            lemma_lookup0_drop_last(t.drop_first(), g);
        }
    }
}

/// With distinct keys, the whole-table prefix sum equals the lookup.
proof fn lemma_prefix_lookup_full(t: Seq<(Gram, u64)>, g: Gram)
    requires
        distinct_keys(t),
    ensures
        prefix_lookup(t, t.len() as int, g) == lookup0(t, g),
    decreases t.len(),
{
    if t.len() == 0 {
    } else {
        assert(distinct_keys(t.drop_last())) by {
            assert(forall|i: int, j: int|
                0 <= i < j < t.len() - 1 ==> (#[trigger] t.drop_last()[i]).0 != (
                #[trigger] t.drop_last()[j]).0);
        }
        lemma_prefix_lookup_full(t.drop_last(), g);
        lemma_prefix_lookup_congruent(t, t.drop_last(), t.len() - 1, g);
        lemma_lookup0_drop_last(t, g);
        lemma_prefix_lookup_step(t, t.len() - 1, g);
    }
}

/// Some entry among the first `k` holds the key `g`.
pub open spec fn named_prefix(t: Seq<(Gram, u64)>, k: int, g: Gram) -> bool {
    exists|i: int| 0 <= i < k && (#[trigger] t[i]).0 == g
}

/// Folds one source table into an accumulator table: every score is
/// added to its key's entry; a key appears in the result exactly when
/// either side holds it.
fn merge_table(dst: &mut Vec<(Gram, u64)>, src: &Vec<(Gram, u64)>)
    requires
        distinct_keys(old(dst)@),
        distinct_keys(src@),
        sum_values(old(dst)@) + sum_values(src@) <= u64::MAX,
    ensures
        distinct_keys(final(dst)@),
        sum_values(final(dst)@) == sum_values(old(dst)@) + sum_values(src@),
        forall|g: Gram| #[trigger]
            lookup0(final(dst)@, g) == lookup0(old(dst)@, g) + lookup0(src@, g),
        forall|g: Gram|
            (#[trigger] assoc_find(final(dst)@, g)).is_some() <==> assoc_find(
                old(dst)@,
                g,
            ).is_some() || assoc_find(src@, g).is_some(),
{
    let ghost dst0 = dst@;
    let mut k: usize = 0;
    proof {
        assert(src@.take(0) =~= Seq::<(Gram, u64)>::empty());
    }
    while k < src.len()
        invariant
            k <= src@.len(),
            distinct_keys(src@),
            distinct_keys(dst@),
            sum_values(dst0) + sum_values(src@) <= u64::MAX,
            sum_values(dst@) == sum_values(dst0) + sum_values(src@.take(k as int)),
            forall|g: Gram| #[trigger]
                lookup0(dst@, g) == lookup0(dst0, g) + prefix_lookup(src@, k as int, g),
            forall|g: Gram|
                (#[trigger] assoc_find(dst@, g)).is_some() <==> assoc_find(dst0, g).is_some()
                    || named_prefix(src@, k as int, g),
        decreases src@.len() - k,
    {
        let g = src[k].0;
        let v = src[k].1;
        proof {
            crate::assoc::lemma_sum_values_take_step(src@, k as int);
            crate::assoc::lemma_sum_values_take(src@, k + 1);
            lemma_sum_values_nonneg(src@.take(k as int));
        }
        let ghost before = dst@;
        bump(dst, g, v);
        proof {
            assert forall|h: Gram| true implies #[trigger] lookup0(dst@, h) == lookup0(dst0, h)
                + prefix_lookup(src@, k + 1, h) by {
                lemma_prefix_lookup_step(src@, k as int, h);
                if h != g {
                    lemma_lookup_unchanged(before, dst@, g, h);
                    assert(lookup0(before, h) == lookup0(dst0, h) + prefix_lookup(
                        src@,
                        k as int,
                        h,
                    ));
                } else {
                    assert(lookup0(before, g) == lookup0(dst0, g) + prefix_lookup(
                        src@,
                        k as int,
                        g,
                    ));
                }
            }
            assert forall|h: Gram| true implies ((#[trigger] assoc_find(dst@, h)).is_some()
                <==> assoc_find(dst0, h).is_some() || named_prefix(src@, k + 1, h)) by {
                assert(assoc_find(dst@, h).is_some() <==> assoc_find(before, h).is_some() || h
                    == g);
                assert(assoc_find(before, h).is_some() <==> assoc_find(dst0, h).is_some()
                    || named_prefix(src@, k as int, h));
                if h == g {
                    assert(src@[k as int].0 == h);
                    assert(named_prefix(src@, k + 1, h));
                }
                if named_prefix(src@, k as int, h) {
                    let i = choose|i: int| 0 <= i < k && (#[trigger] src@[i]).0 == h;
                    assert(0 <= i < k + 1 && src@[i].0 == h);
                    assert(named_prefix(src@, k + 1, h));
                }
                if named_prefix(src@, k + 1, h) && h != g {
                    let i = choose|i: int| 0 <= i < k + 1 && (#[trigger] src@[i]).0 == h;
                    assert(i != k);
                    assert(0 <= i < k && src@[i].0 == h);
                    assert(named_prefix(src@, k as int, h));
                }
            }
        }
        k += 1;
    }
    proof {
        assert(src@.take(src@.len() as int) =~= src@);
        assert forall|g: Gram| true implies #[trigger] lookup0(dst@, g) == lookup0(dst0, g)
            + lookup0(src@, g) by {
            lemma_prefix_lookup_full(src@, g);
        }
        assert forall|g: Gram| true implies ((#[trigger] assoc_find(dst@, g)).is_some()
            <==> assoc_find(dst0, g).is_some() || assoc_find(src@, g).is_some()) by {
            if named_prefix(src@, src@.len() as int, g) {
                if assoc_find(src@, g) is None {
                    crate::assoc::lemma_assoc_find_none_no_key(src@, g);
                    let i = choose|i: int| 0 <= i < src@.len() && (#[trigger] src@[i]).0 == g;
                    assert(false);
                }
            }
            if assoc_find(src@, g).is_some() {
                crate::assoc::lemma_assoc_find_some_has_key(src@, g);
                let i = choose|i: int| 0 <= i < src@.len() && (#[trigger] src@[i]).0 == g;
                assert(named_prefix(src@, src@.len() as int, g));
            }
        }
    }
}

/// The summed table totals of a category over a list of sources.
pub open spec fn cat_total(
    ss: Seq<NormalizedNGrams>,
    f: spec_fn(NormalizedNGrams) -> Seq<(Gram, u64)>,
) -> int
    decreases ss.len(),
{
    if ss.len() == 0 {
        0
    } else {
        sum_values(f(ss[0])) + cat_total(ss.drop_first(), f)
    }
}

/// The summed scores of `g` in one category over a list of sources.
pub open spec fn cat_lookup(
    ss: Seq<NormalizedNGrams>,
    f: spec_fn(NormalizedNGrams) -> Seq<(Gram, u64)>,
    g: Gram,
) -> int
    decreases ss.len(),
{
    if ss.len() == 0 {
        0
    } else {
        lookup0(f(ss[0]), g) + cat_lookup(ss.drop_first(), f, g)
    }
}

/// Some source's table of the category holds the key.
pub open spec fn cat_found(
    ss: Seq<NormalizedNGrams>,
    f: spec_fn(NormalizedNGrams) -> Seq<(Gram, u64)>,
    g: Gram,
) -> bool {
    exists|i: int| 0 <= i < ss.len() && assoc_find(f(#[trigger] ss[i]), g).is_some()
}

/// One more source adds its table total.
proof fn lemma_cat_total_take_step(
    ss: Seq<NormalizedNGrams>,
    f: spec_fn(NormalizedNGrams) -> Seq<(Gram, u64)>,
    k: int,
)
    requires
        0 <= k < ss.len(),
    ensures
        cat_total(ss.take(k + 1), f) == cat_total(ss.take(k), f) + sum_values(f(ss[k])),
    decreases k,
{
    if k == 0 {
        assert(ss.take(1)[0] == ss[0]);
        assert(ss.take(1).drop_first() =~= Seq::<NormalizedNGrams>::empty());
        assert(ss.take(0) =~= Seq::<NormalizedNGrams>::empty());
    } else {
        assert(ss.take(k + 1)[0] == ss[0]);
        assert(ss.take(k)[0] == ss[0]);
        assert(ss.take(k + 1).drop_first() =~= ss.drop_first().take(k));
        assert(ss.take(k).drop_first() =~= ss.drop_first().take(k - 1));
        assert(ss.drop_first()[k - 1] == ss[k]);
        lemma_cat_total_take_step(ss.drop_first(), f, k - 1);
    }
}

/// One more source adds its score for `g`.
proof fn lemma_cat_lookup_take_step(
    ss: Seq<NormalizedNGrams>,
    f: spec_fn(NormalizedNGrams) -> Seq<(Gram, u64)>,
    k: int,
    g: Gram,
)
    requires
        0 <= k < ss.len(),
    ensures
        cat_lookup(ss.take(k + 1), f, g) == cat_lookup(ss.take(k), f, g) + lookup0(f(ss[k]), g),
    decreases k,
{
    if k == 0 {
        assert(ss.take(1)[0] == ss[0]);
        assert(ss.take(1).drop_first() =~= Seq::<NormalizedNGrams>::empty());
        assert(ss.take(0) =~= Seq::<NormalizedNGrams>::empty());
    } else {
        assert(ss.take(k + 1)[0] == ss[0]);
        assert(ss.take(k)[0] == ss[0]);
        assert(ss.take(k + 1).drop_first() =~= ss.drop_first().take(k));
        assert(ss.take(k).drop_first() =~= ss.drop_first().take(k - 1));
        assert(ss.drop_first()[k - 1] == ss[k]);
        lemma_cat_lookup_take_step(ss.drop_first(), f, k - 1, g);
    }
}

/// One more source extends the found keys by exactly its own.
proof fn lemma_cat_found_take_step(
    ss: Seq<NormalizedNGrams>,
    f: spec_fn(NormalizedNGrams) -> Seq<(Gram, u64)>,
    k: int,
    g: Gram,
    acc0: Seq<(Gram, u64)>,
    acc1: Seq<(Gram, u64)>,
    srct: Seq<(Gram, u64)>,
)
    requires
        0 <= k < ss.len(),
        srct == f(ss[k]),
        assoc_find(acc0, g).is_some() <==> cat_found(ss.take(k), f, g),
        assoc_find(acc1, g).is_some() <==> assoc_find(acc0, g).is_some() || assoc_find(
            srct,
            g,
        ).is_some(),
    ensures
        assoc_find(acc1, g).is_some() <==> cat_found(ss.take(k + 1), f, g),
{
    if assoc_find(srct, g).is_some() {
        assert(ss.take(k + 1)[k] == ss[k]);
        assert(cat_found(ss.take(k + 1), f, g));
    }
    if cat_found(ss.take(k), f, g) {
        let i = choose|i: int|
            0 <= i < ss.take(k).len() && assoc_find(f(#[trigger] ss.take(k)[i]), g).is_some();
        assert(ss.take(k + 1)[i] == ss.take(k)[i]);
        assert(cat_found(ss.take(k + 1), f, g));
    }
    if cat_found(ss.take(k + 1), f, g) && !assoc_find(srct, g).is_some() {
        let i = choose|i: int|
            0 <= i < ss.take(k + 1).len() && assoc_find(f(#[trigger] ss.take(k + 1)[i]), g).is_some();
        if i == k {
            assert(ss.take(k + 1)[k] == ss[k]);
            assert(false);
        } else {
            assert(ss.take(k)[i] == ss.take(k + 1)[i]);
            assert(cat_found(ss.take(k), f, g));
        }
    }
}

/// Category totals of a prefix never exceed the whole.
proof fn lemma_cat_total_take_le(
    ss: Seq<NormalizedNGrams>,
    f: spec_fn(NormalizedNGrams) -> Seq<(Gram, u64)>,
    k: int,
)
    requires
        0 <= k <= ss.len(),
    ensures
        cat_total(ss.take(k), f) <= cat_total(ss, f),
        cat_total(ss.take(k), f) >= 0,
    decreases ss.len(),
{
    if k == 0 {
        assert(ss.take(0) =~= Seq::<NormalizedNGrams>::empty());
        lemma_cat_total_nonneg(ss, f);
    } else {
        assert(ss.take(k)[0] == ss[0]);
        assert(ss.take(k).drop_first() =~= ss.drop_first().take(k - 1));
        lemma_cat_total_take_le(ss.drop_first(), f, k - 1);
        lemma_sum_values_nonneg(f(ss[0]));
    }
}

/// Category totals are never negative.
proof fn lemma_cat_total_nonneg(
    ss: Seq<NormalizedNGrams>,
    f: spec_fn(NormalizedNGrams) -> Seq<(Gram, u64)>,
)
    ensures
        cat_total(ss, f) >= 0,
    decreases ss.len(),
{
    if ss.len() > 0 {
        lemma_sum_values_nonneg(f(ss[0]));
        lemma_cat_total_nonneg(ss.drop_first(), f);
    }
}

/// Merges normalized sources into one corpus: for every ngram the
/// combined score is the sum of the sources' normalized, weighted
/// scores, and each category's total is the sum of the sources'
/// category totals.
pub fn collect_normalized_ngrams(normalized: Vec<NormalizedNGrams>) -> (r: NGrams)
    requires
        cat_total(normalized@, |n: NormalizedNGrams| n.letters@) <= u64::MAX,
        cat_total(normalized@, |n: NormalizedNGrams| n.bigrams@) <= u64::MAX,
        cat_total(normalized@, |n: NormalizedNGrams| n.trigrams@) <= u64::MAX,
        forall|i: int|
            0 <= i < normalized@.len() ==> distinct_keys((#[trigger] normalized@[i]).letters@)
                && distinct_keys(normalized@[i].bigrams@) && distinct_keys(
                normalized@[i].trigrams@,
            ),
    ensures
        r.wf(),
        distinct_keys(r.letters@),
        distinct_keys(r.bigrams@),
        distinct_keys(r.trigrams@),
        sum_values(r.letters@) == cat_total(normalized@, |n: NormalizedNGrams| n.letters@),
        sum_values(r.bigrams@) == cat_total(normalized@, |n: NormalizedNGrams| n.bigrams@),
        sum_values(r.trigrams@) == cat_total(normalized@, |n: NormalizedNGrams| n.trigrams@),
        forall|g: Gram| #[trigger]
            lookup0(r.letters@, g) == cat_lookup(normalized@, |n: NormalizedNGrams| n.letters@, g),
        forall|g: Gram| #[trigger]
            lookup0(r.bigrams@, g) == cat_lookup(normalized@, |n: NormalizedNGrams| n.bigrams@, g),
        forall|g: Gram| #[trigger]
            lookup0(r.trigrams@, g) == cat_lookup(
                normalized@,
                |n: NormalizedNGrams| n.trigrams@,
                g,
            ),
        forall|g: Gram|
            (#[trigger] assoc_find(r.letters@, g)).is_some() <==> cat_found(
                normalized@,
                |n: NormalizedNGrams| n.letters@,
                g,
            ),
        forall|g: Gram|
            (#[trigger] assoc_find(r.bigrams@, g)).is_some() <==> cat_found(
                normalized@,
                |n: NormalizedNGrams| n.bigrams@,
                g,
            ),
        forall|g: Gram|
            (#[trigger] assoc_find(r.trigrams@, g)).is_some() <==> cat_found(
                normalized@,
                |n: NormalizedNGrams| n.trigrams@,
                g,
            ),
{
    let ghost fl = |n: NormalizedNGrams| n.letters@;
    let ghost fb = |n: NormalizedNGrams| n.bigrams@;
    let ghost ft = |n: NormalizedNGrams| n.trigrams@;
    let mut letters: Vec<(Gram, u64)> = Vec::new();
    let mut bigrams: Vec<(Gram, u64)> = Vec::new();
    let mut trigrams: Vec<(Gram, u64)> = Vec::new();
    let mut si: usize = 0;
    proof {
        assert(normalized@.take(0) =~= Seq::<NormalizedNGrams>::empty());
        assert(letters@ =~= Seq::<(Gram, u64)>::empty());
        assert(bigrams@ =~= Seq::<(Gram, u64)>::empty());
        assert(trigrams@ =~= Seq::<(Gram, u64)>::empty());
        assert forall|g: Gram| true implies #[trigger] lookup0(letters@, g) == 0 by {
            lemma_lookup0_empty(g);
        }
        assert forall|g: Gram| true implies #[trigger] lookup0(bigrams@, g) == 0 by {
            lemma_lookup0_empty(g);
        }
        assert forall|g: Gram| true implies #[trigger] lookup0(trigrams@, g) == 0 by {
            lemma_lookup0_empty(g);
        }
        assert(forall|g: Gram| !(#[trigger] assoc_find(letters@, g)).is_some());
        assert(forall|g: Gram| !(#[trigger] assoc_find(bigrams@, g)).is_some());
        assert(forall|g: Gram| !(#[trigger] assoc_find(trigrams@, g)).is_some());
    }
    while si < normalized.len()
        invariant
            si <= normalized@.len(),
            fl == (|n: NormalizedNGrams| n.letters@),
            fb == (|n: NormalizedNGrams| n.bigrams@),
            ft == (|n: NormalizedNGrams| n.trigrams@),
            cat_total(normalized@, fl) <= u64::MAX,
            cat_total(normalized@, fb) <= u64::MAX,
            cat_total(normalized@, ft) <= u64::MAX,
            forall|i: int|
                0 <= i < normalized@.len() ==> distinct_keys((#[trigger] normalized@[i]).letters@)
                    && distinct_keys(normalized@[i].bigrams@) && distinct_keys(
                    normalized@[i].trigrams@,
                ),
            distinct_keys(letters@),
            distinct_keys(bigrams@),
            distinct_keys(trigrams@),
            sum_values(letters@) == cat_total(normalized@.take(si as int), fl),
            sum_values(bigrams@) == cat_total(normalized@.take(si as int), fb),
            sum_values(trigrams@) == cat_total(normalized@.take(si as int), ft),
            forall|g: Gram| #[trigger]
                lookup0(letters@, g) == cat_lookup(normalized@.take(si as int), fl, g),
            forall|g: Gram| #[trigger]
                lookup0(bigrams@, g) == cat_lookup(normalized@.take(si as int), fb, g),
            forall|g: Gram| #[trigger]
                lookup0(trigrams@, g) == cat_lookup(normalized@.take(si as int), ft, g),
            forall|g: Gram|
                (#[trigger] assoc_find(letters@, g)).is_some() <==> cat_found(
                    normalized@.take(si as int),
                    fl,
                    g,
                ),
            forall|g: Gram|
                (#[trigger] assoc_find(bigrams@, g)).is_some() <==> cat_found(
                    normalized@.take(si as int),
                    fb,
                    g,
                ),
            forall|g: Gram|
                (#[trigger] assoc_find(trigrams@, g)).is_some() <==> cat_found(
                    normalized@.take(si as int),
                    ft,
                    g,
                ),
        decreases normalized@.len() - si,
    {
        let src = &normalized[si];
        proof {
            lemma_cat_total_take_step(normalized@, fl, si as int);
            lemma_cat_total_take_step(normalized@, fb, si as int);
            lemma_cat_total_take_step(normalized@, ft, si as int);
            lemma_cat_total_take_le(normalized@, fl, si + 1);
            lemma_cat_total_take_le(normalized@, fb, si + 1);
            lemma_cat_total_take_le(normalized@, ft, si + 1);
            lemma_sum_values_nonneg(src.letters@);
            lemma_sum_values_nonneg(src.bigrams@);
            lemma_sum_values_nonneg(src.trigrams@);
        }
        let ghost l0 = letters@;
        let ghost b0 = bigrams@;
        let ghost t0 = trigrams@;
        merge_table(&mut letters, &src.letters);
        merge_table(&mut bigrams, &src.bigrams);
        merge_table(&mut trigrams, &src.trigrams);
        proof {
            assert forall|g: Gram| true implies #[trigger] lookup0(letters@, g) == cat_lookup(
                normalized@.take(si + 1),
                fl,
                g,
            ) by {
                lemma_cat_lookup_take_step(normalized@, fl, si as int, g);
            }
            assert forall|g: Gram| true implies #[trigger] lookup0(bigrams@, g) == cat_lookup(
                normalized@.take(si + 1),
                fb,
                g,
            ) by {
                lemma_cat_lookup_take_step(normalized@, fb, si as int, g);
            }
            assert forall|g: Gram| true implies #[trigger] lookup0(trigrams@, g) == cat_lookup(
                normalized@.take(si + 1),
                ft,
                g,
            ) by {
                lemma_cat_lookup_take_step(normalized@, ft, si as int, g);
            }
            assert forall|g: Gram| true implies ((#[trigger] assoc_find(letters@, g)).is_some()
                <==> cat_found(normalized@.take(si + 1), fl, g)) by {
                lemma_cat_found_take_step(normalized@, fl, si as int, g, l0, letters@, src.letters@);
            }
            assert forall|g: Gram| true implies ((#[trigger] assoc_find(bigrams@, g)).is_some()
                <==> cat_found(normalized@.take(si + 1), fb, g)) by {
                lemma_cat_found_take_step(normalized@, fb, si as int, g, b0, bigrams@, src.bigrams@);
            }
            assert forall|g: Gram| true implies ((#[trigger] assoc_find(trigrams@, g)).is_some()
                <==> cat_found(normalized@.take(si + 1), ft, g)) by {
                lemma_cat_found_take_step(
                    normalized@,
                    ft,
                    si as int,
                    g,
                    t0,
                    trigrams@,
                    src.trigrams@,
                );
            }
        }
        si += 1;
    }
    proof {
        assert(normalized@.take(normalized@.len() as int) =~= normalized@);
    }
    NGrams { letters, bigrams, trigrams }
}

/// Merging two sources gives, for every ngram, the sum of its two
/// normalized, weighted scores, a score counting as zero where the
/// ngram is absent from a source.
pub proof fn lemma_merge_two_sources(
    combined: NGrams,
    s1: NormalizedNGrams,
    s2: NormalizedNGrams,
    g: Gram,
)
    requires
        forall|h: Gram| #[trigger]
            lookup0(combined.letters@, h) == cat_lookup(
                seq![s1, s2],
                |n: NormalizedNGrams| n.letters@,
                h,
            ),
        forall|h: Gram| #[trigger]
            lookup0(combined.bigrams@, h) == cat_lookup(
                seq![s1, s2],
                |n: NormalizedNGrams| n.bigrams@,
                h,
            ),
        forall|h: Gram| #[trigger]
            lookup0(combined.trigrams@, h) == cat_lookup(
                seq![s1, s2],
                |n: NormalizedNGrams| n.trigrams@,
                h,
            ),
    ensures
        lookup0(combined.letters@, g) == lookup0(s1.letters@, g) + lookup0(s2.letters@, g),
        lookup0(combined.bigrams@, g) == lookup0(s1.bigrams@, g) + lookup0(s2.bigrams@, g),
        lookup0(combined.trigrams@, g) == lookup0(s1.trigrams@, g) + lookup0(s2.trigrams@, g),
{
    let ss: Seq<NormalizedNGrams> = seq![s1, s2];
    assert(ss.drop_first() =~= seq![s2]);
    assert(ss.drop_first().drop_first() =~= Seq::<NormalizedNGrams>::empty());
    reveal_with_fuel(cat_lookup, 4);
    assert(cat_lookup(ss, |n: NormalizedNGrams| n.letters@, g) == lookup0(s1.letters@, g)
        + lookup0(s2.letters@, g));
    assert(cat_lookup(ss, |n: NormalizedNGrams| n.bigrams@, g) == lookup0(s1.bigrams@, g)
        + lookup0(s2.bigrams@, g));
    assert(cat_lookup(ss, |n: NormalizedNGrams| n.trigrams@, g) == lookup0(s1.trigrams@, g)
        + lookup0(s2.trigrams@, g));
}


/// The gram a pregenerated ngram text of the given length stands for:
/// the characters are read in typed order, so the key puts the current
/// character first.
pub open spec fn spec_gram_of(ngs: Seq<char>, expected: int) -> Option<Gram> {
    if ngs.len() != expected {
        None
    } else if expected == 1 {
        Some(Gram::One(ngs[0]))
    } else if expected == 2 {
        Some(Gram::Two(ngs[1], ngs[0]))
    } else if expected == 3 {
        Some(Gram::Three(ngs[2], ngs[1], ngs[0]))
    } else {
        None
    }
}

/// What one line of a pregenerated frequency file yields: a count and
/// an ngram, whitespace separated, where a trailing space belongs to
/// the ngram (a lone trailing space is the space ngram itself).
pub open spec fn spec_pregen_line(l: Seq<char>, expected: int) -> Option<(Gram, u64)> {
    let cl = clean_line_marks(l);
    let tk = tokens(cl);
    let ngs: Option<Seq<char>> = if tk.len() == 2 {
        if cl.len() > 0 && cl.last() == ' ' {
            Some(tk[1].push(' '))
        } else {
            Some(tk[1])
        }
    } else if tk.len() == 1 && cl.len() > 0 && cl.last() == ' ' {
        Some(seq![' '])
    } else {
        None
    };
    match ngs {
        None => None,
        Some(ng) => match spec_parse_fixed(tk[0]) {
            None => None,
            Some(cnt) => match spec_gram_of(ng, expected) {
                None => None,
                Some(g) => Some((g, cnt)),
            },
        },
    }
}

/// The summed count that the first `k` lines give to `g`.
pub open spec fn pregen_prefix_lookup(
    ls: Seq<Seq<char>>,
    expected: int,
    k: int,
    g: Gram,
) -> int
    decreases k,
{
    if k <= 0 {
        0
    } else {
        pregen_prefix_lookup(ls, expected, k - 1, g) + (match spec_pregen_line(
            ls[k - 1],
            expected,
        ) {
            Some(e) => if e.0 == g {
                e.1 as int
            } else {
                0
            },
            None => 0,
        })
    }
}

/// The summed count of the first `k` lines.
pub open spec fn pregen_prefix_total(ls: Seq<Seq<char>>, expected: int, k: int) -> int
    decreases k,
{
    if k <= 0 {
        0
    } else {
        pregen_prefix_total(ls, expected, k - 1) + (match spec_pregen_line(ls[k - 1], expected) {
            Some(e) => e.1 as int,
            None => 0,
        })
    }
}

/// One more line adds its count.
proof fn lemma_pregen_prefix_step(ls: Seq<Seq<char>>, expected: int, k: int, g: Gram)
    requires
        0 <= k,
    ensures
        pregen_prefix_lookup(ls, expected, k + 1, g) == pregen_prefix_lookup(ls, expected, k, g)
            + (match spec_pregen_line(ls[k], expected) {
            Some(e) => if e.0 == g {
                e.1 as int
            } else {
                0
            },
            None => 0,
        }),
        pregen_prefix_total(ls, expected, k + 1) == pregen_prefix_total(ls, expected, k) + (
        match spec_pregen_line(ls[k], expected) {
            Some(e) => e.1 as int,
            None => 0,
        }),
{
    reveal_with_fuel(pregen_prefix_lookup, 2);
    reveal_with_fuel(pregen_prefix_total, 2);
}

/// The line parses and its ngram is `g`.
pub open spec fn line_names(l: Seq<char>, expected: int, g: Gram) -> bool {
    match spec_pregen_line(l, expected) {
        Some(en) => en.0 == g,
        None => false,
    }
}

/// Some line among the first `k` names the ngram `g`.
pub open spec fn pregen_named_upto(ls: Seq<Seq<char>>, expected: int, k: int, g: Gram) -> bool {
    exists|i: int| 0 <= i < k && line_names(#[trigger] ls[i], expected, g)
}

/// Every line of the file parses and the summed counts fit.
pub open spec fn pregen_file_ok(content: Seq<char>, expected: int) -> bool {
    let ls = file_lines(content);
    &&& forall|i: int|
        0 <= i < ls.len() ==> (#[trigger] spec_pregen_line(ls[i], expected)).is_some()
    &&& pregen_prefix_total(ls, expected, ls.len() as int) <= u64::MAX
}

/// Line `k` is where reading the file stops: it is malformed, or the
/// counts through it no longer fit, and every earlier line was fine.
pub open spec fn pregen_err_line(content: Seq<char>, expected: int, k: int) -> bool {
    let ls = file_lines(content);
    &&& 0 <= k < ls.len()
    &&& (spec_pregen_line(ls[k], expected) is None || pregen_prefix_total(ls, expected, k + 1)
        > u64::MAX)
    &&& forall|i: int| 0 <= i < k ==> (#[trigger] spec_pregen_line(ls[i], expected)).is_some()
    &&& pregen_prefix_total(ls, expected, k) <= u64::MAX
}

/// Prefix totals only grow with more lines.
pub proof fn lemma_pregen_total_mono(ls: Seq<Seq<char>>, expected: int, j1: int, j2: int)
    requires
        0 <= j1 <= j2,
    ensures
        pregen_prefix_total(ls, expected, j1) <= pregen_prefix_total(ls, expected, j2),
    decreases j2 - j1,
{
    if j1 < j2 {
        lemma_pregen_total_mono(ls, expected, j1, j2 - 1);
        reveal_with_fuel(pregen_prefix_total, 2);
    }
}

/// A stopped read refutes the whole file.
pub proof fn lemma_pregen_err_not_ok(content: Seq<char>, expected: int, k: int)
    requires
        pregen_err_line(content, expected, k),
    ensures
        !pregen_file_ok(content, expected),
{
    let ls = file_lines(content);
    if pregen_file_ok(content, expected) {
        if spec_pregen_line(ls[k], expected) is None {
            assert((spec_pregen_line(ls[k], expected)).is_some());
        } else {
            lemma_pregen_total_mono(ls, expected, k + 1, ls.len() as int);
        }
    }
}

/// Reads one pregenerated frequency table: one `<count> <ngram>` line
/// per entry. Lines that repeat an ngram are summed into one entry, so
/// the table holds a key exactly when some line names it. A malformed
/// line, or a total that does not fit, stops the whole read and names
/// the offending line.
pub fn read_pregenerated_file(contents: &str, expected_len: usize) -> (r: Result<
    Vec<(Gram, u64)>,
    KloError,
>)
    requires
        1 <= expected_len <= 3,
    ensures
        ({
            let ls = file_lines(contents@);
            match r {
                Ok(t) => {
                    &&& distinct_keys(t@)
                    &&& pregen_file_ok(contents@, expected_len as int)
                    &&& sum_values(t@) == pregen_prefix_total(
                        ls,
                        expected_len as int,
                        ls.len() as int,
                    )
                    &&& sum_values(t@) <= u64::MAX
                    &&& forall|g: Gram| #[trigger]
                        lookup0(t@, g) == pregen_prefix_lookup(
                            ls,
                            expected_len as int,
                            ls.len() as int,
                            g,
                        )
                    &&& forall|g: Gram|
                        (#[trigger] assoc_find(t@, g)).is_some() <==> pregen_named_upto(
                            ls,
                            expected_len as int,
                            ls.len() as int,
                            g,
                        )
                },
                Err(e) => match e {
                    KloError::ParseError(k) => pregen_err_line(
                        contents@,
                        expected_len as int,
                        k as int,
                    ),
                    _ => false,
                },
            }
        }),
{
    let cs = chars_of(contents);
    let rawlines = split_chars(&cs, '\n');
    let ghost ls = file_lines(contents@);
    let mut nlines: usize = rawlines.len();
    proof {
        assert(rawlines.deep_view().len() == rawlines@.len());
    }
    if nlines > 0 && rawlines[nlines - 1].len() == 0 {
        proof {
            assert(rawlines.deep_view()[nlines - 1] == rawlines@[nlines - 1]@);
            assert(rawlines.deep_view().last().len() == 0);
            assert(ls =~= rawlines.deep_view().drop_last());
        }
        nlines = nlines - 1;
    } else {
        proof {
            if nlines > 0 {
                assert(rawlines.deep_view()[nlines - 1] == rawlines@[nlines - 1]@);
            }
            assert(ls =~= rawlines.deep_view());
        }
    }
    proof {
        assert(ls.len() == nlines);
        assert(forall|i: int|
            0 <= i < nlines ==> #[trigger] ls[i] == rawlines.deep_view()[i]);
    }
    let mut out: Vec<(Gram, u64)> = Vec::new();
    let mut total: u64 = 0;
    let mut k: usize = 0;
    proof {
        assert(out@ =~= Seq::<(Gram, u64)>::empty());
        assert forall|g: Gram| true implies #[trigger] lookup0(out@, g) == pregen_prefix_lookup(
            ls,
            expected_len as int,
            0,
            g,
        ) by {
            lemma_lookup0_empty(g);
        }
        assert forall|g: Gram| true implies !(#[trigger] assoc_find(out@, g)).is_some() by {
            lemma_lookup0_empty(g);
        }
    }
    while k < nlines
        invariant
            k <= nlines,
            ls == file_lines(contents@),
            1 <= expected_len <= 3,
            nlines == ls.len(),
            forall|i: int| 0 <= i < nlines ==> #[trigger] ls[i] == rawlines.deep_view()[i],
            rawlines.deep_view().len() >= nlines,
            rawlines@.len() == rawlines.deep_view().len(),
            distinct_keys(out@),
            total == pregen_prefix_total(ls, expected_len as int, k as int),
            total == sum_values(out@),
            forall|i: int| 0 <= i < k ==> (#[trigger] spec_pregen_line(ls[i], expected_len as int)).is_some(),
            forall|g: Gram| #[trigger] lookup0(out@, g) == pregen_prefix_lookup(ls, expected_len as int, k as int, g),
            forall|g: Gram|
                (#[trigger] assoc_find(out@, g)).is_some() <==> pregen_named_upto(
                    ls,
                    expected_len as int,
                    k as int,
                    g,
                ),
        decreases nlines - k,
    {
        let line: &Vec<char> = &rawlines[k];
        proof {
            assert(rawlines.deep_view()[k as int] == rawlines@[k as int]@);
            assert(ls[k as int] == line@);
        }
        // strip a carriage return, then the byte-order marks
        let mut no_cr: Vec<char> = line.clone();
        if no_cr.len() > 0 && no_cr[no_cr.len() - 1] == '\r' {
            let _ = no_cr.pop();
            proof {
                assert(no_cr@ =~= line@.drop_last());
            }
        }
        let cleaned = remove_char(&no_cr, '\u{feff}');
        proof {
            assert(cleaned@ == clean_line_marks(ls[k as int]));
        }
        let toks = tokenize(&cleaned);
        let ghost tk = tokens(cleaned@);
        proof {
            assert(toks.deep_view() == tk);
            assert(toks.deep_view().len() == toks@.len());
        }
        let ends_space: bool = cleaned.len() > 0 && cleaned[cleaned.len() - 1] == ' ';
        let mut ngs: Vec<char>;
        if toks.len() == 2 {
            ngs = toks[1].clone();
            proof {
                assert(ngs@ =~= tk[1]);
            }
            if ends_space {
                ngs.push(' ');
                proof {
                    assert(ngs@ =~= tk[1].push(' '));
                }
            }
        } else if toks.len() == 1 && ends_space {
            ngs = Vec::new();
            ngs.push(' ');
            proof {
                assert(ngs@ =~= seq![' ']);
            }
        } else {
            proof {
                assert(spec_pregen_line(ls[k as int], expected_len as int) is None);
            }
            return Err(KloError::ParseError(k));
        }
        let cnt_opt = parse_fixed(&toks[0]);
        proof {
            assert(toks@[0]@ == tk[0]);
        }
        let cnt: u64 = match cnt_opt {
            Some(c) => c,
            None => {
                proof {
                    assert(spec_pregen_line(ls[k as int], expected_len as int) is None);
                }
                return Err(KloError::ParseError(k));
            },
        };
        if ngs.len() != expected_len {
            proof {
                assert(spec_gram_of(ngs@, expected_len as int) is None);
                assert(spec_pregen_line(ls[k as int], expected_len as int) is None);
            }
            return Err(KloError::ParseError(k));
        }
        let g: Gram = if expected_len == 1 {
            Gram::One(ngs[0])
        } else if expected_len == 2 {
            Gram::Two(ngs[1], ngs[0])
        } else {
            Gram::Three(ngs[2], ngs[1], ngs[0])
        };
        proof {
            assert(spec_gram_of(ngs@, expected_len as int) == Some(g));
            assert(spec_pregen_line(ls[k as int], expected_len as int) == Some((g, cnt)));
            lemma_pregen_prefix_step(ls, expected_len as int, k as int, g);
        }
        if cnt > u64::MAX - total {
            proof {
                assert(pregen_prefix_total(ls, expected_len as int, k + 1) > u64::MAX);
            }
            return Err(KloError::ParseError(k));
        }
        let ghost pre = out@;
        bump(&mut out, g, cnt);
        total = total + cnt;
        proof {
            assert forall|h: Gram| true implies #[trigger] lookup0(out@, h)
                == pregen_prefix_lookup(ls, expected_len as int, k + 1, h) by {
                lemma_pregen_prefix_step(ls, expected_len as int, k as int, h);
                if h != g {
                    lemma_lookup_unchanged(pre, out@, g, h);
                    assert(lookup0(pre, h) == pregen_prefix_lookup(ls, expected_len as int, k as int, h));
                }
            }
            assert forall|h: Gram| true implies ((#[trigger] assoc_find(out@, h)).is_some()
                <==> pregen_named_upto(ls, expected_len as int, k + 1, h)) by {
                assert(assoc_find(out@, h).is_some() <==> assoc_find(pre, h).is_some() || h == g);
                assert(assoc_find(pre, h).is_some() <==> pregen_named_upto(
                    ls,
                    expected_len as int,
                    k as int,
                    h,
                ));
                if h == g {
                    assert(line_names(ls[k as int], expected_len as int, h));
                    assert(pregen_named_upto(ls, expected_len as int, k + 1, h));
                }
                if pregen_named_upto(ls, expected_len as int, k as int, h) {
                    let i = choose|i: int|
                        0 <= i < k && line_names(#[trigger] ls[i], expected_len as int, h);
                    assert(0 <= i < k + 1 && line_names(ls[i], expected_len as int, h));
                    assert(pregen_named_upto(ls, expected_len as int, k + 1, h));
                }
                if pregen_named_upto(ls, expected_len as int, k + 1, h) && h != g {
                    let i = choose|i: int|
                        0 <= i < k + 1 && line_names(#[trigger] ls[i], expected_len as int, h);
                    assert(i != k);
                    assert(0 <= i < k && line_names(ls[i], expected_len as int, h));
                    assert(pregen_named_upto(ls, expected_len as int, k as int, h));
                }
            }
        }
        k += 1;
    }
    Ok(out)
}

/// Reads the three pregenerated frequency files of one source: the
/// single-character, pair, and triple tables, in that order. The read
/// fails exactly when one of the three files has a malformed line or
/// counts that do not fit; the error names the offending line of the
/// first such file.
pub fn parse_pregenerated_ngrams(
    weight: u64,
    letters_content: &str,
    bigrams_content: &str,
    trigrams_content: &str,
) -> (r: Result<RawNGrams, KloError>)
    ensures
        match r {
            Ok(raw) => {
                &&& raw.weight == weight
                &&& pregen_file_ok(letters_content@, 1)
                &&& pregen_file_ok(bigrams_content@, 2)
                &&& pregen_file_ok(trigrams_content@, 3)
                &&& distinct_keys(raw.letters@)
                &&& distinct_keys(raw.bigrams@)
                &&& distinct_keys(raw.trigrams@)
                &&& sum_values(raw.letters@) == pregen_prefix_total(
                    file_lines(letters_content@),
                    1,
                    file_lines(letters_content@).len() as int,
                )
                &&& sum_values(raw.bigrams@) == pregen_prefix_total(
                    file_lines(bigrams_content@),
                    2,
                    file_lines(bigrams_content@).len() as int,
                )
                &&& sum_values(raw.trigrams@) == pregen_prefix_total(
                    file_lines(trigrams_content@),
                    3,
                    file_lines(trigrams_content@).len() as int,
                )
                &&& sum_values(raw.letters@) <= u64::MAX
                &&& sum_values(raw.bigrams@) <= u64::MAX
                &&& sum_values(raw.trigrams@) <= u64::MAX
                &&& forall|g: Gram| #[trigger]
                    lookup0(raw.letters@, g) == pregen_prefix_lookup(
                        file_lines(letters_content@),
                        1,
                        file_lines(letters_content@).len() as int,
                        g,
                    )
                &&& forall|g: Gram| #[trigger]
                    lookup0(raw.bigrams@, g) == pregen_prefix_lookup(
                        file_lines(bigrams_content@),
                        2,
                        file_lines(bigrams_content@).len() as int,
                        g,
                    )
                &&& forall|g: Gram| #[trigger]
                    lookup0(raw.trigrams@, g) == pregen_prefix_lookup(
                        file_lines(trigrams_content@),
                        3,
                        file_lines(trigrams_content@).len() as int,
                        g,
                    )
                &&& forall|g: Gram|
                    (#[trigger] assoc_find(raw.letters@, g)).is_some() <==> pregen_named_upto(
                        file_lines(letters_content@),
                        1,
                        file_lines(letters_content@).len() as int,
                        g,
                    )
                &&& forall|g: Gram|
                    (#[trigger] assoc_find(raw.bigrams@, g)).is_some() <==> pregen_named_upto(
                        file_lines(bigrams_content@),
                        2,
                        file_lines(bigrams_content@).len() as int,
                        g,
                    )
                &&& forall|g: Gram|
                    (#[trigger] assoc_find(raw.trigrams@, g)).is_some() <==> pregen_named_upto(
                        file_lines(trigrams_content@),
                        3,
                        file_lines(trigrams_content@).len() as int,
                        g,
                    )
            },
            Err(err) => match err {
                KloError::ParseError(k) => {
                    ||| pregen_err_line(letters_content@, 1, k as int)
                    ||| (pregen_file_ok(letters_content@, 1) && pregen_err_line(
                        bigrams_content@,
                        2,
                        k as int,
                    ))
                    ||| (pregen_file_ok(letters_content@, 1) && pregen_file_ok(
                        bigrams_content@,
                        2,
                    ) && pregen_err_line(trigrams_content@, 3, k as int))
                },
                _ => false,
            },
        },
{
    let letters = match read_pregenerated_file(letters_content, 1) {
        Ok(t) => t,
        Err(err) => {
            return Err(err);
        },
    };
    let bigrams = match read_pregenerated_file(bigrams_content, 2) {
        Ok(t) => t,
        Err(err) => {
            return Err(err);
        },
    };
    let trigrams = match read_pregenerated_file(trigrams_content, 3) {
        Ok(t) => t,
        Err(err) => {
            return Err(err);
        },
    };
    Ok(RawNGrams { weight, letters, bigrams, trigrams })
}

/// One configured ngram source: its weight and where its data lives.
/// The locators are paths for the caller to resolve; the core never
/// touches files.
#[derive(Debug)]
pub enum SourceSpec {
    /// A raw text to be ingested with the sliding window.
    Text { weight: u64, path: String },
    /// Three pregenerated frequency tables, one per category.
    Pregenerated {
        weight: u64,
        letters_path: String,
        bigrams_path: String,
        trigrams_path: String,
    },
}

/// The line describes exactly this source.
pub open spec fn is_source_of(l: Seq<char>, sp: SourceSpec) -> bool {
    let tk = tokens(l);
    &&& tk.len() >= 3
    &&& match sp {
        SourceSpec::Text { weight, path } => {
            &&& spec_parse_fixed(tk[0]) == Some(weight)
            &&& tk[1] == "text"@
            &&& path@ == tk[2]
        },
        SourceSpec::Pregenerated { weight, letters_path, bigrams_path, trigrams_path } => {
            let ps = split_keep(tk[2], ';');
            &&& spec_parse_fixed(tk[0]) == Some(weight)
            &&& tk[1] == "pregenerated"@
            &&& ps.len() >= 3
            &&& letters_path@ == ps[0]
            &&& bigrams_path@ == ps[1]
            &&& trigrams_path@ == ps[2]
        },
    }
}

/// The line names a source kind this crate does not support; it is
/// skipped, not fatal.
pub open spec fn skipped_line(l: Seq<char>) -> bool {
    let tk = tokens(l);
    &&& tk.len() >= 3
    &&& spec_parse_fixed(tk[0]).is_some()
    &&& tk[1] != "text"@
    &&& tk[1] != "pregenerated"@
}

/// The line cannot be read as a source at all.
pub open spec fn bad_line(l: Seq<char>) -> bool {
    let tk = tokens(l);
    ||| tk.len() < 3
    ||| spec_parse_fixed(tk[0]) is None
    ||| (tk.len() >= 3 && tk[1] == "pregenerated"@ && split_keep(tk[2], ';').len() < 3)
}

/// Reads one configuration line: `<weight> <kind> <locator>`. An
/// unsupported kind is skipped; a malformed line is an error (the
/// caller supplies the line number).
pub fn work_ngrams_config_line(line: &Vec<char>) -> (r: Result<Option<SourceSpec>, KloError>)
    ensures
        match r {
            Ok(Some(sp)) => is_source_of(line@, sp),
            Ok(None) => skipped_line(line@),
            Err(e) => e == KloError::ParseError(0) && bad_line(line@),
        },
{
    let toks = tokenize(line);
    let ghost tk = tokens(line@);
    proof {
        assert(toks.deep_view() == tk);
        assert(toks.deep_view().len() == toks@.len());
    }
    if toks.len() < 3 {
        return Err(KloError::ParseError(0));
    }
    let weight: u64 = match parse_fixed(&toks[0]) {
        Some(w) => w,
        None => {
            proof {
                assert(toks@[0]@ == tk[0]);
            }
            return Err(KloError::ParseError(0));
        },
    };
    proof {
        assert(toks@[0]@ == tk[0]);
        assert(toks@[1]@ == tk[1]);
        assert(toks@[2]@ == tk[2]);
    }
    if chars_eq_str(&toks[1], "text") {
        let path = string_from_chars(&toks[2]);
        Ok(Some(SourceSpec::Text { weight, path }))
    } else if chars_eq_str(&toks[1], "pregenerated") {
        let parts = split_chars(&toks[2], ';');
        proof {
            assert(parts.deep_view() == split_keep(tk[2], ';'));
            assert(parts.deep_view().len() == parts@.len());
        }
        if parts.len() < 3 {
            return Err(KloError::ParseError(0));
        }
        let letters_path = string_from_chars(&parts[0]);
        let bigrams_path = string_from_chars(&parts[1]);
        let trigrams_path = string_from_chars(&parts[2]);
        proof {
            assert(parts@[0]@ == split_keep(tk[2], ';')[0]);
            assert(parts@[1]@ == split_keep(tk[2], ';')[1]);
            assert(parts@[2]@ == split_keep(tk[2], ';')[2]);
        }
        Ok(Some(SourceSpec::Pregenerated { weight, letters_path, bigrams_path, trigrams_path }))
    } else {
        Ok(None)
    }
}

/// The line is a comment.
pub open spec fn comment_line(l: Seq<char>) -> bool {
    l.len() > 0 && l[0] == '#'
}

/// `out` holds exactly the sources of the non-comment, supported
/// lines, in file order, each line first cleaned of a trailing
/// carriage return and of byte-order marks.
pub open spec fn config_matches(ls: Seq<Seq<char>>, out: Seq<SourceSpec>) -> bool
    decreases ls.len(),
{
    if ls.len() == 0 {
        out.len() == 0
    } else if comment_line(clean_line_marks(ls[0])) || skipped_line(clean_line_marks(ls[0])) {
        config_matches(ls.drop_first(), out)
    } else {
        &&& out.len() >= 1
        &&& is_source_of(clean_line_marks(ls[0]), out[0])
        &&& config_matches(ls.drop_first(), out.drop_first())
    }
}

/// Appending a comment or skipped line changes nothing.
proof fn lemma_config_matches_snoc_skip(ls: Seq<Seq<char>>, l: Seq<char>, out: Seq<SourceSpec>)
    requires
        config_matches(ls, out),
        comment_line(clean_line_marks(l)) || skipped_line(clean_line_marks(l)),
    ensures
        config_matches(ls.push(l), out),
    decreases ls.len(),
{
    reveal_with_fuel(config_matches, 3);
    if ls.len() == 0 {
        assert(ls.push(l)[0] == l);
        assert(ls.push(l).drop_first() =~= Seq::<Seq<char>>::empty());
    } else {
        assert(ls.push(l)[0] == ls[0]);
        assert(ls.push(l).drop_first() =~= ls.drop_first().push(l));
        if comment_line(clean_line_marks(ls[0])) || skipped_line(clean_line_marks(ls[0])) {
            lemma_config_matches_snoc_skip(ls.drop_first(), l, out);
        } else {
            lemma_config_matches_snoc_skip(ls.drop_first(), l, out.drop_first());
        }
    }
}

/// Appending a supported source line appends its source.
proof fn lemma_config_matches_snoc_source(
    ls: Seq<Seq<char>>,
    l: Seq<char>,
    out: Seq<SourceSpec>,
    sp: SourceSpec,
)
    requires
        config_matches(ls, out),
        !comment_line(clean_line_marks(l)),
        !skipped_line(clean_line_marks(l)),
        is_source_of(clean_line_marks(l), sp),
    ensures
        config_matches(ls.push(l), out.push(sp)),
    decreases ls.len(),
{
    reveal_with_fuel(config_matches, 3);
    if ls.len() == 0 {
        assert(ls.push(l)[0] == l);
        assert(ls.push(l).drop_first() =~= Seq::<Seq<char>>::empty());
        assert(out.push(sp)[0] == sp);
        assert(out.push(sp).drop_first() =~= Seq::<SourceSpec>::empty());
    } else {
        assert(ls.push(l)[0] == ls[0]);
        assert(ls.push(l).drop_first() =~= ls.drop_first().push(l));
        if comment_line(clean_line_marks(ls[0])) || skipped_line(clean_line_marks(ls[0])) {
            lemma_config_matches_snoc_source(ls.drop_first(), l, out, sp);
        } else {
            assert(out.push(sp)[0] == out[0]);
            assert(out.push(sp).drop_first() =~= out.drop_first().push(sp));
            lemma_config_matches_snoc_source(ls.drop_first(), l, out.drop_first(), sp);
        }
    }
}

/// Reads a whole ngram source configuration: one source per line,
/// `#`-prefixed lines ignored, unsupported kinds skipped, malformed
/// lines fatal with their line number. Each line is first cleaned of
/// a trailing carriage return and of byte-order marks.
pub fn parse_ngrams_config(config: &str) -> (r: Result<Vec<SourceSpec>, KloError>)
    ensures
        ({
            let ls = file_lines(config@);
            match r {
                Ok(v) => {
                    &&& config_matches(ls, v@)
                    &&& forall|i: int|
                        0 <= i < ls.len() ==> comment_line(clean_line_marks(#[trigger] ls[i]))
                            || !bad_line(clean_line_marks(ls[i]))
                },
                Err(e) => match e {
                    KloError::ParseError(k) => {
                        &&& k < ls.len()
                        &&& !comment_line(clean_line_marks(ls[k as int]))
                        &&& bad_line(clean_line_marks(ls[k as int]))
                        &&& forall|i: int|
                            0 <= i < k ==> comment_line(clean_line_marks(#[trigger] ls[i]))
                                || !bad_line(clean_line_marks(ls[i]))
                    },
                    _ => false,
                },
            }
        }),
{
    let cs = chars_of(config);
    let rawlines = split_chars(&cs, '\n');
    let ghost ls = file_lines(config@);
    let mut nlines: usize = rawlines.len();
    proof {
        assert(rawlines.deep_view().len() == rawlines@.len());
    }
    if nlines > 0 && rawlines[nlines - 1].len() == 0 {
        proof {
            assert(rawlines.deep_view()[nlines - 1] == rawlines@[nlines - 1]@);
            assert(ls =~= rawlines.deep_view().drop_last());
        }
        nlines = nlines - 1;
    } else {
        proof {
            if nlines > 0 {
                assert(rawlines.deep_view()[nlines - 1] == rawlines@[nlines - 1]@);
            }
            assert(ls =~= rawlines.deep_view());
        }
    }
    proof {
        assert(ls.len() == nlines);
        assert(forall|i: int| 0 <= i < nlines ==> #[trigger] ls[i] == rawlines.deep_view()[i]);
    }
    let mut out: Vec<SourceSpec> = Vec::new();
    let mut k: usize = 0;
    proof {
        assert(ls.take(0) =~= Seq::<Seq<char>>::empty());
    }
    while k < nlines
        invariant
            k <= nlines,
            ls == file_lines(config@),
            nlines == ls.len(),
            forall|i: int| 0 <= i < nlines ==> #[trigger] ls[i] == rawlines.deep_view()[i],
            rawlines@.len() == rawlines.deep_view().len(),
            rawlines.deep_view().len() >= nlines,
            config_matches(ls.take(k as int), out@),
            forall|i: int|
                0 <= i < k ==> comment_line(clean_line_marks(#[trigger] ls[i])) || !bad_line(
                    clean_line_marks(ls[i]),
                ),
        decreases nlines - k,
    {
        let line: &Vec<char> = &rawlines[k];
        proof {
            assert(rawlines.deep_view()[k as int] == rawlines@[k as int]@);
            assert(ls[k as int] == line@);
            assert(ls.take(k + 1) =~= ls.take(k as int).push(ls[k as int]));
        }
        let mut no_cr: Vec<char> = line.clone();
        if no_cr.len() > 0 && no_cr[no_cr.len() - 1] == '\r' {
            let _ = no_cr.pop();
            proof {
                assert(no_cr@ =~= line@.drop_last());
            }
        }
        let cleaned = remove_char(&no_cr, '\u{feff}');
        proof {
            assert(cleaned@ == clean_line_marks(ls[k as int]));
        }
        let is_comment: bool = cleaned.len() > 0 && cleaned[0] == '#';
        if is_comment {
            proof {
                lemma_config_matches_snoc_skip(ls.take(k as int), ls[k as int], out@);
            }
        } else {
            match work_ngrams_config_line(&cleaned) {
                Ok(Some(sp)) => {
                    proof {
                        assert(is_source_of(cleaned@, sp));
                        assert(cleaned@ == clean_line_marks(ls[k as int]));
                        assert(is_source_of(clean_line_marks(ls[k as int]), sp));
                        assert(!skipped_line(clean_line_marks(ls[k as int])));
                        reveal_strlit("text");
                        reveal_strlit("pregenerated");
                        assert("text"@.len() == 4);
                        assert("pregenerated"@.len() == 12);
                        assert(!bad_line(clean_line_marks(ls[k as int])));
                        lemma_config_matches_snoc_source(
                            ls.take(k as int),
                            ls[k as int],
                            out@,
                            sp,
                        );
                    }
                    let ghost pre = out@;
                    out.push(sp);
                    proof {
                        assert(out@ =~= pre.push(sp));
                    }
                },
                Ok(None) => {
                    proof {
                        assert(skipped_line(clean_line_marks(ls[k as int])));
                        assert(!bad_line(clean_line_marks(ls[k as int])));
                        lemma_config_matches_snoc_skip(ls.take(k as int), ls[k as int], out@);
                    }
                },
                Err(_) => {
                    return Err(KloError::ParseError(k));
                },
            }
        }
        k += 1;
    }
    proof {
        assert(ls.take(nlines as int) =~= ls);
    }
    Ok(out)
}

/// The already-read data of one source.
pub enum SourceData {
    /// The contents of a raw text.
    Text(String),
    /// The contents of the three pregenerated frequency files, in
    /// letters, pairs, triples order.
    Pregenerated(String, String, String),
}

/// One source ready for ingestion: its weight and its data.
pub struct SourceInput {
    /// The source's declared weight, in `1 / SCORE_ONE` units.
    pub weight: u64,
    /// The source's already-read data.
    pub data: SourceData,
}

/// The tables hold exactly the raw counts of the source's data: for a
/// text, the sliding-window counts of its folded characters; for
/// pregenerated data, the summed counts of its three files.
pub open spec fn raw_tables_match(
    inp: SourceInput,
    lt: Seq<(Gram, u64)>,
    bt: Seq<(Gram, u64)>,
    tt: Seq<(Gram, u64)>,
) -> bool {
    match inp.data {
        SourceData::Text(content) => {
            &&& forall|c: char| #[trigger] lookup0(lt, Gram::One(c)) == count_emitted(
                folded(content@),
                content@.len() as int,
                Gram::One(c),
            )
            &&& forall|a: char, b: char| #[trigger] lookup0(bt, Gram::Two(a, b)) == count_emitted(
                folded(content@),
                content@.len() as int,
                Gram::Two(a, b),
            )
            &&& forall|a: char, b: char, c: char| #[trigger] lookup0(tt, Gram::Three(a, b, c))
                == count_emitted(folded(content@), content@.len() as int, Gram::Three(a, b, c))
            &&& all_one(lt)
            &&& all_two(bt)
            &&& all_three(tt)
        },
        SourceData::Pregenerated(lc, bc, tc) => {
            &&& forall|g: Gram| #[trigger] lookup0(lt, g) == pregen_prefix_lookup(
                file_lines(lc@),
                1,
                file_lines(lc@).len() as int,
                g,
            )
            &&& forall|g: Gram| #[trigger] lookup0(bt, g) == pregen_prefix_lookup(
                file_lines(bc@),
                2,
                file_lines(bc@).len() as int,
                g,
            )
            &&& forall|g: Gram| #[trigger] lookup0(tt, g) == pregen_prefix_lookup(
                file_lines(tc@),
                3,
                file_lines(tc@).len() as int,
                g,
            )
        },
    }
}

/// `nn` is the normalized form of the source: its data ingested into
/// raw counts, then normalized against their total and scaled by its
/// weight.
pub open spec fn source_normalizes_to(inp: SourceInput, nn: NormalizedNGrams) -> bool {
    exists|lt: Seq<(Gram, u64)>, bt: Seq<(Gram, u64)>, tt: Seq<(Gram, u64)>|
        #[trigger] raw_tables_match(inp, lt, bt, tt) && normalized_from(lt, bt, tt, inp.weight, nn)
}

/// Every source in the list has its normalized form in the other, in
/// the same order.
pub open spec fn sources_normalize_to(inputs: Seq<SourceInput>, ss: Seq<NormalizedNGrams>) -> bool {
    &&& ss.len() == inputs.len()
    &&& forall|i: int|
        0 <= i < inputs.len() ==> #[trigger] source_normalizes_to(inputs[i], ss[i])
}

/// The source is a text too long to ingest.
pub open spec fn source_too_long(inp: SourceInput) -> bool {
    match inp.data {
        SourceData::Text(content) => content@.len() >= 0x1000_0000_0000_0000,
        SourceData::Pregenerated(_, _, _) => false,
    }
}

/// The source's data can be read: a text always can; pregenerated
/// files must have every line well formed with fitting totals.
pub open spec fn source_parses(inp: SourceInput) -> bool {
    match inp.data {
        SourceData::Text(_) => true,
        SourceData::Pregenerated(lc, bc, tc) => pregen_file_ok(lc@, 1) && pregen_file_ok(bc@, 2)
            && pregen_file_ok(tc@, 3),
    }
}

/// The source's raw count total: the emitted window events of a text,
/// or the summed counts of the three pregenerated files.
pub open spec fn source_total(inp: SourceInput) -> int {
    match inp.data {
        SourceData::Text(content) => letter_events(folded(content@), content@.len() as int)
            + pair_events(content@.len() as int, content@.len() as int) + triple_events(
            content@.len() as int,
            content@.len() as int,
        ),
        SourceData::Pregenerated(lc, bc, tc) => pregen_prefix_total(
            file_lines(lc@),
            1,
            file_lines(lc@).len() as int,
        ) + pregen_prefix_total(file_lines(bc@), 2, file_lines(bc@).len() as int)
            + pregen_prefix_total(file_lines(tc@), 3, file_lines(tc@).len() as int),
    }
}

/// The source passes every stage of ingestion and normalization.
pub open spec fn source_usable(inp: SourceInput) -> bool {
    !source_too_long(inp) && source_parses(inp) && source_total(inp) > 0
}

/// Reading a pregenerated source stops at line `k` of the first file
/// that cannot be read.
pub open spec fn pregen_source_err(inp: SourceInput, k: int) -> bool {
    match inp.data {
        SourceData::Text(_) => false,
        SourceData::Pregenerated(lc, bc, tc) => {
            ||| pregen_err_line(lc@, 1, k)
            ||| (pregen_file_ok(lc@, 1) && pregen_err_line(bc@, 2, k))
            ||| (pregen_file_ok(lc@, 1) && pregen_file_ok(bc@, 2) && pregen_err_line(tc@, 3, k))
        },
    }
}

/// The summed weights of the first `k` sources.
pub open spec fn weights_prefix(ss: Seq<SourceInput>, k: int) -> int
    decreases k,
{
    if k <= 0 {
        0
    } else {
        weights_prefix(ss, k - 1) + ss[k - 1].weight
    }
}

/// One more source adds its weight.
proof fn lemma_weights_prefix_step(ss: Seq<SourceInput>, k: int)
    requires
        k >= 0,
    ensures
        weights_prefix(ss, k + 1) == weights_prefix(ss, k) + ss[k].weight,
{
    reveal_with_fuel(weights_prefix, 2);
}

/// Appending a source adds its category total.
proof fn lemma_cat_total_push(
    ss: Seq<NormalizedNGrams>,
    f: spec_fn(NormalizedNGrams) -> Seq<(Gram, u64)>,
    x: NormalizedNGrams,
)
    ensures
        cat_total(ss.push(x), f) == cat_total(ss, f) + sum_values(f(x)),
    decreases ss.len(),
{
    reveal_with_fuel(cat_total, 3);
    if ss.len() == 0 {
        assert(ss.push(x)[0] == x);
        assert(ss.push(x).drop_first() =~= Seq::<NormalizedNGrams>::empty());
    } else {
        assert(ss.push(x)[0] == ss[0]);
        assert(ss.push(x).drop_first() =~= ss.drop_first().push(x));
        lemma_cat_total_push(ss.drop_first(), f, x);
    }
}

/// Builds the merged corpus from already-read sources: each source is
/// ingested, normalized against its own total, scaled by its weight,
/// and summed into the combined tables. Fails when a source's total
/// is zero, when a frequency file is malformed, or when the combined
/// weights do not fit the score range.
pub fn from_sources(sources: &Vec<SourceInput>) -> (r: Result<NGrams, KloError>)
    ensures
        match r {
            Ok(n) => {
                &&& n.wf()
                &&& distinct_keys(n.letters@)
                &&& distinct_keys(n.bigrams@)
                &&& distinct_keys(n.trigrams@)
                &&& forall|i: int|
                    0 <= i < sources@.len() ==> source_usable(#[trigger] sources@[i])
                &&& weights_prefix(sources@, sources@.len() as int) <= u64::MAX
                &&& exists|ss: Seq<NormalizedNGrams>|
                    #[trigger] sources_normalize_to(sources@, ss) && (forall|g: Gram| #[trigger]
                        lookup0(n.letters@, g) == cat_lookup(
                            ss,
                            |x: NormalizedNGrams| x.letters@,
                            g,
                        )) && (forall|g: Gram| #[trigger]
                        lookup0(n.bigrams@, g) == cat_lookup(
                            ss,
                            |x: NormalizedNGrams| x.bigrams@,
                            g,
                        )) && (forall|g: Gram| #[trigger]
                        lookup0(n.trigrams@, g) == cat_lookup(
                            ss,
                            |x: NormalizedNGrams| x.trigrams@,
                            g,
                        )) && (forall|g: Gram|
                        (#[trigger] assoc_find(n.letters@, g)).is_some() <==> cat_found(
                            ss,
                            |x: NormalizedNGrams| x.letters@,
                            g,
                        )) && (forall|g: Gram|
                        (#[trigger] assoc_find(n.bigrams@, g)).is_some() <==> cat_found(
                            ss,
                            |x: NormalizedNGrams| x.bigrams@,
                            g,
                        )) && (forall|g: Gram|
                        (#[trigger] assoc_find(n.trigrams@, g)).is_some() <==> cat_found(
                            ss,
                            |x: NormalizedNGrams| x.trigrams@,
                            g,
                        ))
            },
            Err(e) => exists|k: int|
                #![trigger sources@[k]]
                {
                    &&& 0 <= k < sources@.len()
                    &&& forall|i: int| 0 <= i < k ==> source_usable(#[trigger] sources@[i])
                    &&& weights_prefix(sources@, k) <= u64::MAX
                    &&& match e {
                        KloError::ConfigError => source_too_long(sources@[k]) || (source_usable(
                            sources@[k],
                        ) && weights_prefix(sources@, k + 1) > u64::MAX),
                        KloError::ParseError(line) => !source_too_long(sources@[k])
                            && pregen_source_err(sources@[k], line as int),
                        KloError::EmptyCorpusError => !source_too_long(sources@[k])
                            && source_parses(sources@[k]) && source_total(sources@[k]) == 0,
                    }
                },
        },
{
    let ghost fl = |n: NormalizedNGrams| n.letters@;
    let ghost fb = |n: NormalizedNGrams| n.bigrams@;
    let ghost ft = |n: NormalizedNGrams| n.trigrams@;
    let mut normalized: Vec<NormalizedNGrams> = Vec::new();
    let mut weight_sum: u64 = 0;
    let mut si: usize = 0;
    proof {
        assert(normalized@ =~= Seq::<NormalizedNGrams>::empty());
    }
    while si < sources.len()
        invariant
            si <= sources@.len(),
            fl == (|n: NormalizedNGrams| n.letters@),
            fb == (|n: NormalizedNGrams| n.bigrams@),
            ft == (|n: NormalizedNGrams| n.trigrams@),
            normalized@.len() == si,
            forall|i: int|
                0 <= i < si ==> #[trigger] source_normalizes_to(sources@[i], normalized@[i]),
            forall|i: int| 0 <= i < si ==> source_usable(#[trigger] sources@[i]),
            weight_sum == weights_prefix(sources@, si as int),
            cat_total(normalized@, fl) <= weight_sum,
            cat_total(normalized@, fb) <= weight_sum,
            cat_total(normalized@, ft) <= weight_sum,
            forall|i: int|
                0 <= i < normalized@.len() ==> distinct_keys(
                    (#[trigger] normalized@[i]).letters@,
                ) && distinct_keys(normalized@[i].bigrams@) && distinct_keys(
                    normalized@[i].trigrams@,
                ),
        decreases sources@.len() - si,
    {
        let source = &sources[si];
        let raw: RawNGrams = match &source.data {
            SourceData::Text(content) => {
                if (content.as_str().unicode_len() as u64) >= 0x1000_0000_0000_0000u64 {
                    proof {
                        assert(source_too_long(sources@[si as int]));
                    }
                    return Err(KloError::ConfigError);
                }
                parse_text_ngrams(source.weight, content.as_str())
            },
            SourceData::Pregenerated(lc, bc, tc) => {
                match parse_pregenerated_ngrams(
                    source.weight,
                    lc.as_str(),
                    bc.as_str(),
                    tc.as_str(),
                ) {
                    Ok(raw) => raw,
                    Err(e) => {
                        proof {
                            assert(!source_too_long(sources@[si as int]));
                            assert(e matches KloError::ParseError(_));
                            assert(pregen_source_err(sources@[si as int], e->ParseError_0 as int));
                        }
                        return Err(e);
                    },
                }
            },
        };
        proof {
            assert(sum_values(raw.letters@) + sum_values(raw.bigrams@) + sum_values(raw.trigrams@)
                == source_total(sources@[si as int]));
            assert(!source_too_long(sources@[si as int]));
            assert(source_parses(sources@[si as int]));
        }
        let nn = match normalize_ngrams(&raw) {
            Ok(nn) => nn,
            Err(e) => {
                return Err(e);
            },
        };
        proof {
            assert(source_usable(sources@[si as int]));
        }
        if nn.weight > u64::MAX - weight_sum {
            proof {
                lemma_weights_prefix_step(sources@, si as int);
                assert(nn.weight == sources@[si as int].weight);
                assert(weights_prefix(sources@, si + 1) > u64::MAX);
            }
            return Err(KloError::ConfigError);
        }
        proof {
            lemma_sum_values_nonneg(nn.letters@);
            lemma_sum_values_nonneg(nn.bigrams@);
            lemma_sum_values_nonneg(nn.trigrams@);
            lemma_cat_total_push(normalized@, fl, nn);
            lemma_cat_total_push(normalized@, fb, nn);
            lemma_cat_total_push(normalized@, ft, nn);
            // each source's raw keys are distinct, and normalization
            // keeps keys, so the normalized tables are distinct too
            assert(distinct_keys(nn.letters@)) by {
                assert(forall|i: int, j: int|
                    0 <= i < j < nn.letters@.len() ==> (#[trigger] nn.letters@[i]).0 != (
                    #[trigger] nn.letters@[j]).0);
            }
            assert(distinct_keys(nn.bigrams@)) by {
                assert(forall|i: int, j: int|
                    0 <= i < j < nn.bigrams@.len() ==> (#[trigger] nn.bigrams@[i]).0 != (
                    #[trigger] nn.bigrams@[j]).0);
            }
            assert(distinct_keys(nn.trigrams@)) by {
                assert(forall|i: int, j: int|
                    0 <= i < j < nn.trigrams@.len() ==> (#[trigger] nn.trigrams@[i]).0 != (
                    #[trigger] nn.trigrams@[j]).0);
            }
        }
        proof {
            assert(raw_tables_match(sources@[si as int], raw.letters@, raw.bigrams@, raw.trigrams@));
            assert(normalized_from(
                raw.letters@,
                raw.bigrams@,
                raw.trigrams@,
                sources@[si as int].weight,
                nn,
            ));
            assert(source_normalizes_to(sources@[si as int], nn));
        }
        let ghost pre = normalized@;
        proof {
            lemma_weights_prefix_step(sources@, si as int);
        }
        weight_sum = weight_sum + nn.weight;
        normalized.push(nn);
        proof {
            assert(normalized@ =~= pre.push(normalized@[pre.len() as int]));
        }
        si += 1;
    }
    proof {
        assert(sources_normalize_to(sources@, normalized@));
    }
    Ok(collect_normalized_ngrams(normalized))
}


/// Variant rank of a gram, for the sorting tie-break.
pub open spec fn gram_rank(g: Gram) -> int {
    match g {
        Gram::One(_) => 0,
        Gram::Two(_, _) => 1,
        Gram::Three(_, _, _) => 2,
    }
}

/// First character of a gram, as a code point.
pub open spec fn gram_c1(g: Gram) -> int {
    match g {
        Gram::One(a) => (a as u32) as int,
        Gram::Two(a, _) => (a as u32) as int,
        Gram::Three(a, _, _) => (a as u32) as int,
    }
}

/// Second character of a gram, zero where there is none.
pub open spec fn gram_c2(g: Gram) -> int {
    match g {
        Gram::One(_) => 0,
        Gram::Two(_, b) => (b as u32) as int,
        Gram::Three(_, b, _) => (b as u32) as int,
    }
}

/// Third character of a gram, zero where there is none.
pub open spec fn gram_c3(g: Gram) -> int {
    match g {
        Gram::One(_) => 0,
        Gram::Two(_, _) => 0,
        Gram::Three(_, _, c) => (c as u32) as int,
    }
}

/// A fixed total order on grams: variant rank first, then the code
/// points in order. Used only to break score ties reproducibly.
pub open spec fn gram_lt(x: Gram, y: Gram) -> bool {
    ||| gram_rank(x) < gram_rank(y)
    ||| (gram_rank(x) == gram_rank(y) && gram_c1(x) < gram_c1(y))
    ||| (gram_rank(x) == gram_rank(y) && gram_c1(x) == gram_c1(y) && gram_c2(x) < gram_c2(y))
    ||| (gram_rank(x) == gram_rank(y) && gram_c1(x) == gram_c1(y) && gram_c2(x) == gram_c2(y)
        && gram_c3(x) < gram_c3(y))
}

/// Two distinct grams are ordered one way or the other.
pub proof fn lemma_gram_lt_total(x: Gram, y: Gram)
    requires
        x != y,
    ensures
        gram_lt(x, y) || gram_lt(y, x),
{
    if gram_rank(x) == gram_rank(y) && gram_c1(x) == gram_c1(y) && gram_c2(x) == gram_c2(y)
        && gram_c3(x) == gram_c3(y) {
        match x {
            Gram::One(a) => {
                let b = y->One_0;
                vstd::utf8::char_u32_cast(a, a as u32);
                vstd::utf8::char_u32_cast(b, b as u32);
            },
            Gram::Two(a1, a2) => {
                let b1 = y->Two_0;
                let b2 = y->Two_1;
                vstd::utf8::char_u32_cast(a1, a1 as u32);
                vstd::utf8::char_u32_cast(b1, b1 as u32);
                vstd::utf8::char_u32_cast(a2, a2 as u32);
                vstd::utf8::char_u32_cast(b2, b2 as u32);
            },
            Gram::Three(a1, a2, a3) => {
                let b1 = y->Three_0;
                let b2 = y->Three_1;
                let b3 = y->Three_2;
                vstd::utf8::char_u32_cast(a1, a1 as u32);
                vstd::utf8::char_u32_cast(b1, b1 as u32);
                vstd::utf8::char_u32_cast(a2, a2 as u32);
                vstd::utf8::char_u32_cast(b2, b2 as u32);
                vstd::utf8::char_u32_cast(a3, a3 as u32);
                vstd::utf8::char_u32_cast(b3, b3 as u32);
            },
        }
    }
}

/// One entry comes before another in a table sorted by descending
/// score, score ties broken by the fixed gram order.
pub open spec fn entry_before(a: (Gram, u64), b: (Gram, u64)) -> bool {
    ||| a.1 > b.1
    ||| (a.1 == b.1 && (a.0 == b.0 || gram_lt(a.0, b.0)))
}

/// The order is total.
pub proof fn lemma_entry_before_total(a: (Gram, u64), b: (Gram, u64))
    ensures
        entry_before(a, b) || entry_before(b, a),
{
    if a.1 == b.1 && a.0 != b.0 {
        lemma_gram_lt_total(a.0, b.0);
    }
}

/// The order is transitive.
pub proof fn lemma_entry_before_trans(a: (Gram, u64), b: (Gram, u64), c: (Gram, u64))
    requires
        entry_before(a, b),
        entry_before(b, c),
    ensures
        entry_before(a, c),
{
}

/// The table is sorted by descending score, ties broken by the fixed
/// gram order.
pub open spec fn sorted_desc(t: Seq<(Gram, u64)>) -> bool {
    forall|i: int, j: int| 0 <= i < j < t.len() ==> entry_before(#[trigger] t[i], #[trigger] t[j])
}

/// Whether `a` comes before `b` in a descending table.
fn entry_before_exec(a: &(Gram, u64), b: &(Gram, u64)) -> (r: bool)
    ensures
        r == entry_before(*a, *b),
{
    if a.1 > b.1 {
        return true;
    }
    if a.1 < b.1 {
        return false;
    }
    let (ra, c1a, c2a, c3a): (u32, u32, u32, u32) = match a.0 {
        Gram::One(x) => (0, x as u32, 0, 0),
        Gram::Two(x, y) => (1, x as u32, y as u32, 0),
        Gram::Three(x, y, z) => (2, x as u32, y as u32, z as u32),
    };
    let (rb, c1b, c2b, c3b): (u32, u32, u32, u32) = match b.0 {
        Gram::One(x) => (0, x as u32, 0, 0),
        Gram::Two(x, y) => (1, x as u32, y as u32, 0),
        Gram::Three(x, y, z) => (2, x as u32, y as u32, z as u32),
    };
    if ra != rb {
        return ra < rb;
    }
    if c1a != c1b {
        return c1a < c1b;
    }
    if c2a != c2b {
        return c2a < c2b;
    }
    if c3a != c3b {
        return c3a < c3b;
    }
    proof {
        match a.0 {
            Gram::One(x) => {
                vstd::utf8::char_u32_cast(x, x as u32);
                vstd::utf8::char_u32_cast(b.0->One_0, b.0->One_0 as u32);
            },
            Gram::Two(x, y) => {
                vstd::utf8::char_u32_cast(x, x as u32);
                vstd::utf8::char_u32_cast(y, y as u32);
                vstd::utf8::char_u32_cast(b.0->Two_0, b.0->Two_0 as u32);
                vstd::utf8::char_u32_cast(b.0->Two_1, b.0->Two_1 as u32);
            },
            Gram::Three(x, y, z) => {
                vstd::utf8::char_u32_cast(x, x as u32);
                vstd::utf8::char_u32_cast(y, y as u32);
                vstd::utf8::char_u32_cast(z, z as u32);
                vstd::utf8::char_u32_cast(b.0->Three_0, b.0->Three_0 as u32);
                vstd::utf8::char_u32_cast(b.0->Three_1, b.0->Three_1 as u32);
                vstd::utf8::char_u32_cast(b.0->Three_2, b.0->Three_2 as u32);
            },
        }
        assert(a.0 == b.0);
    }
    true
}

/// Inserting an entry adds its score to the total.
proof fn lemma_sum_values_insert(s: Seq<(Gram, u64)>, k: int, x: (Gram, u64))
    requires
        0 <= k <= s.len(),
    ensures
        sum_values(s.insert(k, x)) == sum_values(s) + x.1,
    decreases k,
{
    let t = s.insert(k, x);
    if k == 0 {
        assert(t[0] == x);
        assert(t.drop_first() =~= s);
    } else {
        assert(t[0] == s[0]);
        assert(t.drop_first() =~= s.drop_first().insert(k - 1, x));
        lemma_sum_values_insert(s.drop_first(), k - 1, x);
    }
}

/// Inserting an entry adds it to the table's multiset.
proof fn lemma_to_multiset_insert(s: Seq<(Gram, u64)>, k: int, x: (Gram, u64))
    requires
        0 <= k <= s.len(),
    ensures
        s.insert(k, x).to_multiset() == s.to_multiset().insert(x),
{
    broadcast use vstd::seq_lib::group_to_multiset_ensures;

    let t = s.insert(k, x);
    assert(t.remove(k) =~= s);
    assert(t.remove(k).to_multiset() =~= t.to_multiset().remove(t[k]));
    assert(t[k] == x);
    assert(t.to_multiset().contains(x)) by {
        assert(t.contains(x));
    }
    assert(t.to_multiset() =~= t.to_multiset().remove(x).insert(x));
    assert(t.to_multiset() =~= s.to_multiset().insert(x));
}

/// Sorts a score table by descending score, score ties broken by the
/// fixed gram order: the result is the same entries, reordered so that
/// a prefix holds the highest-scored ones.
pub fn sort_table(t: Vec<(Gram, u64)>) -> (r: Vec<(Gram, u64)>)
    ensures
        sorted_desc(r@),
        r@.to_multiset() == t@.to_multiset(),
        r@.len() == t@.len(),
        sum_values(r@) == sum_values(t@),
{
    broadcast use vstd::seq_lib::group_to_multiset_ensures;

    let mut out: Vec<(Gram, u64)> = Vec::new();
    let mut i: usize = 0;
    proof {
        assert(t@.take(0) =~= Seq::<(Gram, u64)>::empty());
        assert(out@ =~= Seq::<(Gram, u64)>::empty());
    }
    while i < t.len()
        invariant
            i <= t@.len(),
            out@.len() == i,
            sorted_desc(out@),
            out@.to_multiset() == t@.take(i as int).to_multiset(),
            sum_values(out@) == sum_values(t@.take(i as int)),
        decreases t@.len() - i,
    {
        broadcast use vstd::seq_lib::group_to_multiset_ensures;

        let x = t[i];
        let mut k: usize = 0;
        while k < out.len() && entry_before_exec(&out[k], &x)
            invariant
                k <= out@.len(),
                forall|m: int| 0 <= m < k ==> entry_before(#[trigger] out@[m], x),
            decreases out@.len() - k,
        {
            k += 1;
        }
        proof {
            if k < out@.len() {
                lemma_entry_before_total(out@[k as int], x);
                assert(entry_before(x, out@[k as int]));
            }
        }
        let ghost pre = out@;
        out.insert(k, x);
        proof {
            assert(out@ == pre.insert(k as int, x));
            assert forall|i2: int, j2: int|
                0 <= i2 < j2 < out@.len() implies entry_before(
                #[trigger] out@[i2],
                #[trigger] out@[j2],
            ) by {
                if j2 < k {
                    assert(out@[i2] == pre[i2] && out@[j2] == pre[j2]);
                } else if j2 == k {
                    assert(out@[i2] == pre[i2]);
                    assert(entry_before(pre[i2], x));
                } else if i2 == k {
                    assert(out@[j2] == pre[j2 - 1]);
                    assert(entry_before(x, pre[k as int]));
                    if j2 - 1 > k {
                        assert(entry_before(pre[k as int], pre[j2 - 1]));
                        lemma_entry_before_trans(x, pre[k as int], pre[j2 - 1]);
                    }
                } else if i2 < k {
                    assert(out@[i2] == pre[i2] && out@[j2] == pre[j2 - 1]);
                    if i2 < j2 - 1 {
                        assert(entry_before(pre[i2], pre[j2 - 1]));
                    } else {
                        assert(entry_before(pre[i2], x));
                        assert(entry_before(x, pre[k as int]));
                        lemma_entry_before_trans(pre[i2], x, pre[k as int]);
                    }
                } else {
                    assert(out@[i2] == pre[i2 - 1] && out@[j2] == pre[j2 - 1]);
                }
            }
            lemma_to_multiset_insert(pre, k as int, x);
            assert(t@.take(i + 1) =~= t@.take(i as int).push(t@[i as int]));
            assert(t@.take(i + 1).to_multiset() =~= t@.take(i as int).to_multiset().insert(
                t@[i as int],
            ));
            lemma_sum_values_insert(pre, k as int, x);
            crate::assoc::lemma_sum_values_take_step(t@, i as int);
        }
        i += 1;
    }
    proof {
        assert(t@.take(t@.len() as int) =~= t@);
    }
    out
}

} // verus!
