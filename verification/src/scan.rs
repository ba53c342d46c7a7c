//! Exact text scanning: splitting on separators, whitespace tokens,
//! and fixed-point decimal numbers.

use vstd::prelude::*;
use vstd::string::StrSliceExecFns;

verus! {

/// Index of the first occurrence of `sep`, or the length when absent.
pub open spec fn seg_len(s: Seq<char>, sep: char) -> int
    decreases s.len(),
{
    if s.len() == 0 {
        0
    } else if s[0] == sep {
        0
    } else {
        1 + seg_len(s.drop_first(), sep)
    }
}

/// The segments of `s` between occurrences of `sep`, empty segments
/// kept: there is always one segment more than there are separators.
pub open spec fn split_keep(s: Seq<char>, sep: char) -> Seq<Seq<char>>
    decreases s.len(),
{
    let k = seg_len(s, sep);
    if 0 <= k < s.len() {
        seq![s.take(k)] + split_keep(s.skip(k + 1), sep)
    } else {
        seq![s]
    }
}

/// The non-empty tokens of `s`: segments between spaces, blanks dropped.
pub open spec fn tokens(s: Seq<char>) -> Seq<Seq<char>> {
    split_keep(s, ' ').filter(|t: Seq<char>| t.len() > 0)
}

/// A scan that saw no separator in `[i, j)` and a separator (or the
/// end) at `j` has found the segment length.
pub proof fn lemma_seg_len_determined(s: Seq<char>, sep: char, j: int)
    requires
        0 <= j <= s.len(),
        forall|k: int| 0 <= k < j ==> s[k] != sep,
        j == s.len() || s[j] == sep,
    ensures
        seg_len(s, sep) == j,
    decreases j,
{
    if j > 0 {
        assert(s[0] != sep);
        assert forall|k: int| 0 <= k < j - 1 implies s.drop_first()[k] != sep by {
            assert(s[k + 1] != sep);
        }
        if j - 1 < s.drop_first().len() {
            assert(s.drop_first()[j - 1] == s[j]);
        }
        lemma_seg_len_determined(s.drop_first(), sep, j - 1);
    }
}

/// Collects the characters of `s` into a vector.
pub fn chars_of(s: &str) -> (r: Vec<char>)
    ensures
        r@ == s@,
{
    let n: usize = s.unicode_len();
    let mut out: Vec<char> = Vec::new();
    let mut i: usize = 0;
    while i < n
        invariant
            i <= n,
            n == s@.len(),
            out@ =~= s@.take(i as int),
        decreases n - i,
    {
        out.push(s.get_char(i));
        proof {
            assert(out@ =~= s@.take(i + 1));
        }
        i += 1;
    }
    proof {
        assert(out@ =~= s@);
    }
    out
}

/// Splits `line` at every occurrence of `sep`, keeping empty segments.
pub fn split_chars(line: &Vec<char>, sep: char) -> (r: Vec<Vec<char>>)
    ensures
        r.deep_view() == split_keep(line@, sep),
{
    let mut out: Vec<Vec<char>> = Vec::new();
    let n: usize = line.len();
    let mut i: usize = 0;
    proof {
        assert(line@.skip(0) =~= line@);
    }
    loop
        invariant
            i <= n,
            n == line@.len(),
            split_keep(line@, sep) =~~= out.deep_view() + split_keep(line@.skip(i as int), sep),
        decreases n - i,
    {
        // scan one segment starting at i
        let mut j: usize = i;
        let mut seg: Vec<char> = Vec::new();
        while j < n && line[j] != sep
            invariant
                i <= j <= n,
                n == line@.len(),
                seg@ =~= line@.subrange(i as int, j as int),
                forall|k: int| i <= k < j ==> line@[k] != sep,
            decreases n - j,
        {
            seg.push(line[j]);
            proof {
                assert(seg@ =~= line@.subrange(i as int, j + 1));
            }
            j += 1;
        }
        proof {
            let rest = line@.skip(i as int);
            assert forall|k: int| 0 <= k < j - i implies rest[k] != sep by {
                assert(rest[k] == line@[i + k]);
            }
            if j < n {
                assert(rest[j - i] == line@[j as int]);
            }
            lemma_seg_len_determined(rest, sep, j - i);
            assert(seg@ =~= rest.take(j - i));
        }
        let ghost pre = out.deep_view();
        out.push(seg);
        if j == n {
            proof {
                let rest = line@.skip(i as int);
                assert(seg_len(rest, sep) == rest.len());
                assert(split_keep(rest, sep) =~~= seq![rest]);
                assert(seg@ =~= rest);
                assert(out.deep_view() =~~= pre.push(rest));
                assert(split_keep(line@, sep) =~~= out.deep_view());
            }
            return out;
        }
        proof {
            let rest = line@.skip(i as int);
            assert(seg_len(rest, sep) == j - i < rest.len());
            assert(split_keep(rest, sep) =~~= seq![rest.take(j - i)] + split_keep(
                rest.skip(j - i + 1),
                sep,
            ));
            assert(rest.skip(j - i + 1) =~= line@.skip(j + 1));
            assert(out.deep_view() =~~= pre.push(seg@));
            assert(out.deep_view() + split_keep(line@.skip(j + 1), sep) =~~= pre + split_keep(
                rest,
                sep,
            ));
        }
        i = j + 1;
    }
}

/// The non-empty tokens of `line`: maximal runs of non-space characters.
pub fn tokenize(line: &Vec<char>) -> (r: Vec<Vec<char>>)
    ensures
        r.deep_view() == tokens(line@),
{
    let parts = split_chars(line, ' ');
    let mut out: Vec<Vec<char>> = Vec::new();
    let mut i: usize = 0;
    proof {
        reveal(Seq::filter);
        assert(parts.deep_view().take(0) =~~= Seq::<Seq<char>>::empty());
        assert(Seq::<Seq<char>>::empty().filter(|t: Seq<char>| t.len() > 0)
            =~~= Seq::<Seq<char>>::empty());
    }
    while i < parts.len()
        invariant
            i <= parts.len(),
            parts.deep_view() == split_keep(line@, ' '),
            parts.deep_view().len() == parts@.len(),
            out.deep_view() =~~= parts.deep_view().take(i as int).filter(
                |t: Seq<char>| t.len() > 0,
            ),
        decreases parts.len() - i,
    {
        let ghost pre = out.deep_view();
        let ghost prefix = parts.deep_view().take(i as int);
        if parts[i].len() > 0 {
            let tok = parts[i].clone();
            proof {
                assert(tok@ =~= parts.deep_view()[i as int]);
            }
            out.push(tok);
        }
        proof {
            reveal(Seq::filter);
            let elt = parts.deep_view()[i as int];
            let ext = parts.deep_view().take(i + 1);
            assert(ext.drop_last() =~~= prefix);
            assert(ext.last() == elt);
            assert(ext.filter(|t: Seq<char>| t.len() > 0) =~~= prefix.filter(
                |t: Seq<char>| t.len() > 0,
            ) + (if elt.len() > 0 {
                seq![elt]
            } else {
                Seq::<Seq<char>>::empty()
            }));
        }
        i += 1;
    }
    proof {
        assert(parts.deep_view().take(parts@.len() as int) =~~= parts.deep_view());
    }
    out
}


/// A decimal digit.
pub open spec fn is_digit(c: char) -> bool {
    48 <= (c as u32) <= 57
}

/// The numeric value of a decimal digit.
pub open spec fn digit_val(c: char) -> int {
    (c as u32) - 48
}

/// Every character is a decimal digit.
pub open spec fn all_digits(s: Seq<char>) -> bool {
    forall|i: int| 0 <= i < s.len() ==> is_digit(#[trigger] s[i])
}

/// The value of a run of decimal digits, most significant first.
pub open spec fn digits_val(s: Seq<char>) -> int
    decreases s.len(),
{
    if s.len() == 0 {
        0
    } else {
        digits_val(s.drop_last()) * 10 + digit_val(s.last())
    }
}

/// Ten to the power `e` (one for non-positive `e`).
pub open spec fn pow10(e: int) -> int
    decreases e,
{
    if e <= 0 {
        1
    } else {
        10 * pow10(e - 1)
    }
}

/// The integer and fractional digit runs of a decimal text: what
/// stands before the first dot, and what stands after it.
pub open spec fn int_part(s: Seq<char>) -> Seq<char> {
    s.take(seg_len(s, '.'))
}

/// The digits after the first dot, empty when there is no dot.
pub open spec fn frac_part(s: Seq<char>) -> Seq<char> {
    if seg_len(s, '.') < s.len() {
        s.skip(seg_len(s, '.') + 1)
    } else {
        Seq::empty()
    }
}

/// The text is a plain decimal number: digits, at most one dot, and
/// at least one digit somewhere.
pub open spec fn is_fixed_text(s: Seq<char>) -> bool {
    &&& all_digits(int_part(s))
    &&& all_digits(frac_part(s))
    &&& int_part(s).len() + frac_part(s).len() >= 1
}

/// The value of a decimal text in `1 / SCORE_ONE` units, the
/// fractional part read to nine places (further places are cut off).
pub open spec fn fixed_value(s: Seq<char>) -> int {
    let fp = frac_part(s);
    let frl = if fp.len() <= 9 {
        fp.len() as int
    } else {
        9
    };
    digits_val(int_part(s)) * (crate::SCORE_ONE as int) + digits_val(fp.take(frl)) * pow10(9 - frl)
}

/// What parsing a decimal text yields: its fixed-point value, if the
/// text is a plain decimal number whose value fits.
pub open spec fn spec_parse_fixed(s: Seq<char>) -> Option<u64> {
    if is_fixed_text(s) && fixed_value(s) <= u64::MAX {
        Some(fixed_value(s) as u64)
    } else {
        None
    }
}

/// A digit run's value is never negative.
pub proof fn lemma_digits_val_nonneg(s: Seq<char>)
    requires
        all_digits(s),
    ensures
        digits_val(s) >= 0,
    decreases s.len(),
{
    if s.len() > 0 {
        assert(all_digits(s.drop_last())) by {
            assert(forall|i: int| 0 <= i < s.len() - 1 ==> is_digit(#[trigger] s.drop_last()[i])
                == is_digit(s[i]));
        }
        lemma_digits_val_nonneg(s.drop_last());
    }
}

/// A digit run's value stays below ten to its length.
pub proof fn lemma_digits_val_bound(s: Seq<char>)
    requires
        all_digits(s),
    ensures
        0 <= digits_val(s) < pow10(s.len() as int),
    decreases s.len(),
{
    if s.len() == 0 {
    } else {
        assert(all_digits(s.drop_last())) by {
            assert(forall|i: int| 0 <= i < s.len() - 1 ==> is_digit(#[trigger] s.drop_last()[i])
                == is_digit(s[i]));
        }
        lemma_digits_val_bound(s.drop_last());
        assert(digit_val(s.last()) <= 9);
    }
}

/// Ten to the power is positive and grows with the exponent.
pub proof fn lemma_pow10_le(a: int, b: int)
    requires
        a <= b,
    ensures
        1 <= pow10(a) <= pow10(b),
    decreases b,
{
    if b <= 0 {
    } else if a == b {
        lemma_pow10_le(a - 1, b - 1);
    } else {
        lemma_pow10_le(a, b - 1);
    }
}

/// Reading one more digit multiplies by ten and adds it.
pub proof fn lemma_digits_val_step(s: Seq<char>, k: int)
    requires
        0 <= k < s.len(),
    ensures
        digits_val(s.take(k + 1)) == digits_val(s.take(k)) * 10 + digit_val(s[k]),
{
    assert(s.take(k + 1).drop_last() =~= s.take(k));
    assert(s.take(k + 1).last() == s[k]);
}

/// Parses a plain decimal number into `1 / SCORE_ONE` units. Returns
/// nothing when the text is not a decimal number or its value does
/// not fit.
pub fn parse_fixed(tok: &Vec<char>) -> (r: Option<u64>)
    ensures
        r == spec_parse_fixed(tok@),
{
    let n: usize = tok.len();
    let mut d: usize = 0;
    while d < n && tok[d] != '.'
        invariant
            d <= n,
            n == tok@.len(),
            forall|k: int| 0 <= k < d ==> tok@[k] != '.',
        decreases n - d,
    {
        d += 1;
    }
    proof {
        lemma_seg_len_determined(tok@, '.', d as int);
    }
    let fstart: usize = if d < n {
        d + 1
    } else {
        n
    };
    let ghost ip = int_part(tok@);
    let ghost fp = frac_part(tok@);
    proof {
        assert(ip =~= tok@.take(d as int));
        if d < n {
            assert(fp =~= tok@.skip(d + 1));
        } else {
            assert(fp =~= Seq::<char>::empty());
        }
    }
    if d == 0 && fstart == n {
        proof {
            assert(ip.len() + fp.len() == 0);
        }
        return None;
    }
    // Integer digits, saturating once the value can no longer fit.
    let cap: u128 = 0x1_0000_0000_0000_0000;
    let mut acc: u128 = 0;
    let mut i: usize = 0;
    proof {
        assert(ip.take(0) =~= Seq::<char>::empty());
    }
    while i < d
        invariant
            i <= d <= n,
            n == tok@.len(),
            d == seg_len(tok@, '.'),
            ip == int_part(tok@),
            ip =~= tok@.take(d as int),
            ip.len() == d,
            cap == 0x1_0000_0000_0000_0000,
            all_digits(ip.take(i as int)),
            acc <= cap,
            digits_val(ip.take(i as int)) < cap ==> acc == digits_val(ip.take(i as int)),
            digits_val(ip.take(i as int)) >= cap ==> acc == cap,
        decreases d - i,
    {
        let c = tok[i];
        proof {
            assert(ip[i as int] == tok@[i as int]);
        }
        if !((c as u32) >= 48 && (c as u32) <= 57) {
            proof {
                assert(!is_digit(ip[i as int]));
            }
            return None;
        }
        let dv: u128 = ((c as u32) - 48) as u128;
        let ghost before = digits_val(ip.take(i as int));
        proof {
            lemma_digits_val_step(ip, i as int);
            assert(is_digit(ip[i as int]));
            assert forall|q: int| 0 <= q < i + 1 implies is_digit(#[trigger] ip.take(i + 1)[q]) by {
                assert(ip.take(i + 1)[q] == ip[q]);
                if q < i {
                    assert(is_digit(ip.take(i as int)[q]));
                    assert(ip.take(i as int)[q] == ip[q]);
                }
            }
            assert(all_digits(ip.take(i + 1)));
            lemma_digits_val_nonneg(ip.take(i as int));
        }
        if acc >= cap {
            acc = cap;
            proof {
                assert(digits_val(ip.take(i + 1)) == before * 10 + digit_val(ip[i as int]));
                assert(before * 10 >= before) by (nonlinear_arith)
                    requires
                        before >= 0,
                ;
            }
        } else {
            acc = acc * 10 + dv;
            if acc >= cap {
                acc = cap;
            }
            proof {
                assert(digits_val(ip.take(i + 1)) == before * 10 + digit_val(ip[i as int]));
            }
        }
        i += 1;
    }
    proof {
        assert(ip.take(d as int) =~= ip);
    }
    // Fractional digits: the first nine carry value, the rest only
    // have to be digits.
    let flen: usize = n - fstart;
    let mut fr: u64 = 0;
    let mut k: usize = 0;
    proof {
        assert(fp.take(0) =~= Seq::<char>::empty());
    }
    while k < flen
        invariant
            k <= flen,
            flen == fp.len(),
            n == tok@.len(),
            fstart == n - flen,
            fp == frac_part(tok@),
            forall|q: int| 0 <= q < flen ==> fp[q] == tok@[fstart + q],
            all_digits(fp.take(k as int)),
            fr == digits_val(fp.take(if k <= 9 { k as int } else { 9 })),
            fr < 1_000_000_000,
        decreases flen - k,
    {
        let c = tok[fstart + k];
        proof {
            assert(fp[k as int] == tok@[fstart + k]);
        }
        if !((c as u32) >= 48 && (c as u32) <= 57) {
            proof {
                assert(!is_digit(fp[k as int]));
            }
            return None;
        }
        proof {
            assert(is_digit(fp[k as int]));
            assert forall|q: int| 0 <= q < k + 1 implies is_digit(#[trigger] fp.take(k + 1)[q]) by {
                assert(fp.take(k + 1)[q] == fp[q]);
                if q < k {
                    assert(is_digit(fp.take(k as int)[q]));
                    assert(fp.take(k as int)[q] == fp[q]);
                }
            }
            assert(all_digits(fp.take(k + 1)));
        }
        if k < 9 {
            proof {
                lemma_digits_val_step(fp, k as int);
                lemma_digits_val_bound(fp.take(k as int));
                lemma_pow10_le(k as int, 8);
                assert(pow10(8) == 100_000_000) by {
                reveal_with_fuel(pow10, 10);
            }
            }
            fr = fr * 10 + ((c as u32) - 48) as u64;
        } else {
            proof {
                assert(fp.take(if k + 1 <= 9 { k + 1 } else { 9 }) =~= fp.take(9));
            }
        }
        k += 1;
    }
    proof {
        assert(fp.take(flen as int) =~= fp);
        assert(is_fixed_text(tok@));
    }
    // Scale the fractional digits out to nine places.
    let frl: usize = if flen <= 9 {
        flen
    } else {
        9
    };
    let mut mult: u64 = 1;
    let mut e: usize = 0;
    while e < 9 - frl
        invariant
            frl <= 9,
            e <= 9 - frl,
            mult == pow10(e as int),
            mult <= 1_000_000_000,
        decreases 9 - frl - e,
    {
        proof {
            lemma_pow10_le(e as int, 8);
            assert(pow10(8) == 100_000_000) by {
                reveal_with_fuel(pow10, 10);
            }
        }
        mult = mult * 10;
        e += 1;
    }
    let ghost v = fixed_value(tok@);
    if acc >= cap {
        proof {
            lemma_digits_val_nonneg(fp.take(frl as int));
            vstd::arithmetic::mul::lemma_mul_nonnegative(
                digits_val(fp.take(frl as int)),
                pow10(9 - frl as int),
            );
            lemma_pow10_le(0, 9 - frl as int);
            assert(digits_val(ip) * (crate::SCORE_ONE as int) >= digits_val(ip))
                by (nonlinear_arith)
                requires
                    digits_val(ip) >= 0,
                    crate::SCORE_ONE >= 1,
            ;
            assert(v > u64::MAX);
        }
        return None;
    }
    proof {
        lemma_digits_val_bound(ip);
        lemma_pow10_le(9 - frl as int, 9);
        assert(pow10(9) == 1_000_000_000) by {
            reveal_with_fuel(pow10, 11);
        }
        lemma_digits_val_nonneg(fp.take(frl as int));
        vstd::arithmetic::mul::lemma_mul_upper_bound(
            acc as int,
            0xffff_ffff_ffff_ffff,
            crate::SCORE_ONE as int,
            0x3b9a_ca00,
        );
        vstd::arithmetic::mul::lemma_mul_upper_bound(
            digits_val(fp.take(frl as int)),
            0x3b9a_ca00,
            pow10(9 - frl as int),
            0x3b9a_ca00,
        );
        vstd::arithmetic::mul::lemma_mul_nonnegative(
            digits_val(fp.take(frl as int)),
            pow10(9 - frl as int),
        );
    }
    let total: u128 = acc * (crate::SCORE_ONE as u128) + (fr as u128) * (mult as u128);
    proof {
        assert(total == v);
    }
    if total <= 0xffff_ffff_ffff_ffff {
        Some(total as u64)
    } else {
        None
    }
}


/// The text with every occurrence of `bad` removed.
pub open spec fn strip_char(s: Seq<char>, bad: char) -> Seq<char>
    decreases s.len(),
{
    if s.len() == 0 {
        Seq::empty()
    } else if s[0] == bad {
        strip_char(s.drop_first(), bad)
    } else {
        seq![s[0]] + strip_char(s.drop_first(), bad)
    }
}

/// One more character either vanishes or lands at the end.
pub proof fn lemma_strip_char_take_step(s: Seq<char>, bad: char, i: int)
    requires
        0 <= i < s.len(),
    ensures
        strip_char(s.take(i + 1), bad) == strip_char(s.take(i), bad) + (if s[i] == bad {
            Seq::<char>::empty()
        } else {
            seq![s[i]]
        }),
    decreases i,
{
    reveal_with_fuel(strip_char, 3);
    if i == 0 {
        assert(s.take(1)[0] == s[0]);
        assert(s.take(1).drop_first() =~= Seq::<char>::empty());
        assert(s.take(0) =~= Seq::<char>::empty());
        if s[0] == bad {
            assert(strip_char(s.take(1), bad) =~= Seq::<char>::empty());
        } else {
            assert(strip_char(s.take(1), bad) =~= seq![s[0]]);
            assert(strip_char(s.take(0), bad) + seq![s[0]] =~= seq![s[0]]);
        }
    } else {
        assert(s.take(i + 1)[0] == s[0]);
        assert(s.take(i)[0] == s[0]);
        assert(s.take(i + 1).drop_first() =~= s.drop_first().take(i));
        assert(s.take(i).drop_first() =~= s.drop_first().take(i - 1));
        assert(s.drop_first()[i - 1] == s[i]);
        lemma_strip_char_take_step(s.drop_first(), bad, i - 1);
        if s[0] == bad {
        } else {
            assert(seq![s[0]] + (strip_char(s.drop_first().take(i - 1), bad) + (if s[i] == bad {
                Seq::<char>::empty()
            } else {
                seq![s[i]]
            })) =~= (seq![s[0]] + strip_char(s.drop_first().take(i - 1), bad)) + (if s[i] == bad {
                Seq::<char>::empty()
            } else {
                seq![s[i]]
            }));
        }
    }
}

/// Removes every occurrence of `bad` from the characters.
pub fn remove_char(v: &Vec<char>, bad: char) -> (r: Vec<char>)
    ensures
        r@ == strip_char(v@, bad),
{
    let mut out: Vec<char> = Vec::new();
    let mut i: usize = 0;
    proof {
        assert(v@.take(0) =~= Seq::<char>::empty());
    }
    while i < v.len()
        invariant
            i <= v@.len(),
            out@ == strip_char(v@.take(i as int), bad),
        decreases v@.len() - i,
    {
        proof {
            lemma_strip_char_take_step(v@, bad, i as int);
        }
        let c = v[i];
        if c != bad {
            out.push(c);
            proof {
                assert(out@ =~= strip_char(v@.take(i + 1), bad));
            }
        } else {
            proof {
                assert(out@ =~= strip_char(v@.take(i + 1), bad));
            }
        }
        i += 1;
    }
    proof {
        assert(v@.take(v@.len() as int) =~= v@);
    }
    out
}

/// Compares a character vector against a text.
pub fn chars_eq_str(v: &Vec<char>, s: &str) -> (r: bool)
    ensures
        r == (v@ == s@),
{
    let n = s.unicode_len();
    if v.len() != n {
        proof {
            assert(v@.len() != s@.len());
        }
        return false;
    }
    let mut i: usize = 0;
    while i < n
        invariant
            i <= n,
            n == s@.len(),
            v@.len() == n,
            forall|j: int| 0 <= j < i ==> v@[j] == s@[j],
        decreases n - i,
    {
        if v[i] != s.get_char(i) {
            return false;
        }
        i += 1;
    }
    proof {
        assert(v@ =~= s@);
    }
    true
}



/// One raw file line, cleaned: a trailing carriage return dropped,
/// then every byte-order mark removed.
pub open spec fn clean_line_marks(l: Seq<char>) -> Seq<char> {
    let no_cr = if l.len() > 0 && l.last() == '\r' {
        l.drop_last()
    } else {
        l
    };
    strip_char(no_cr, '\u{feff}')
}

/// The lines of a text file: segments between line breaks, without
/// the empty segment a trailing line break leaves behind.
pub open spec fn file_lines(s: Seq<char>) -> Seq<Seq<char>> {
    let ls = split_keep(s, '\n');
    if ls.len() > 0 && ls.last().len() == 0 {
        ls.drop_last()
    } else {
        ls
    }
}



/// Relies on std's `FromIterator` for strings: collects the
/// characters into a string.
#[verifier::external_body]
pub(crate) fn string_from_chars(cs: &Vec<char>) -> (r: String)
    ensures
        r@ == cs@,
{
    cs.iter().collect()
}


} // verus!
