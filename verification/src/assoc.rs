//! Key/value tables kept as plain vectors of pairs and read through a
//! first-match lookup. The spec-side model is `assoc_find`; the lemmas
//! here say how pushing and updating entries changes that lookup and
//! the sum of the stored values.

use crate::geometry::Position;
use vstd::prelude::*;

verus! {

/// First-match lookup of `k` in a key/value sequence.
pub open spec fn assoc_find<K, V>(s: Seq<(K, V)>, k: K) -> Option<V>
    decreases s.len(),
{
    if s.len() == 0 {
        None
    } else if s[0].0 == k {
        Some(s[0].1)
    } else {
        assoc_find(s.drop_first(), k)
    }
}

/// No key occurs twice.
pub open spec fn distinct_keys<K, V>(s: Seq<(K, V)>) -> bool {
    forall|i: int, j: int| 0 <= i < j < s.len() ==> s[i].0 != s[j].0
}

/// Sum of all stored values.
pub open spec fn sum_values<K>(s: Seq<(K, u64)>) -> int
    decreases s.len(),
{
    if s.len() == 0 {
        0
    } else {
        s[0].1 + sum_values(s.drop_first())
    }
}

/// Scanning past a non-matching entry does not change the lookup.
pub proof fn lemma_assoc_find_skip_step<K, V>(s: Seq<(K, V)>, k: K, i: int)
    requires
        0 <= i < s.len(),
        s[i].0 != k,
    ensures
        assoc_find(s.skip(i), k) == assoc_find(s.skip(i + 1), k),
{
    assert(s.skip(i)[0] == s[i]);
    assert(s.skip(i).drop_first() =~= s.skip(i + 1));
}

/// A matching entry at the front of the remaining table decides the lookup.
pub proof fn lemma_assoc_find_skip_found<K, V>(s: Seq<(K, V)>, k: K, i: int)
    requires
        0 <= i < s.len(),
        s[i].0 == k,
    ensures
        assoc_find(s.skip(i), k) == Some(s[i].1),
{
    assert(s.skip(i)[0] == s[i]);
}

/// Appending an entry only affects lookups of its key, and only when
/// that key was absent.
pub proof fn lemma_assoc_find_push<K, V>(s: Seq<(K, V)>, k: K, v: V, q: K)
    ensures
        assoc_find(s.push((k, v)), q) == (match assoc_find(s, q) {
            Some(x) => Some(x),
            None => if q == k {
                Some(v)
            } else {
                None
            },
        }),
    decreases s.len(),
{
    if s.len() == 0 {
        assert(s.push((k, v))[0] == (k, v));
        assert(s.push((k, v)).drop_first() =~= Seq::<(K, V)>::empty());
    } else {
        assert(s.push((k, v))[0] == s[0]);
        assert(s.push((k, v)).drop_first() =~= s.drop_first().push((k, v)));
        lemma_assoc_find_push(s.drop_first(), k, v, q);
    }
}

/// Replacing the value of the first entry holding `k` rewrites the
/// lookup of `k` and leaves every other lookup alone.
pub proof fn lemma_assoc_find_update<K, V>(s: Seq<(K, V)>, i: int, v: V, q: K)
    requires
        0 <= i < s.len(),
        forall|j: int| 0 <= j < i ==> s[j].0 != s[i].0,
    ensures
        assoc_find(s.update(i, (s[i].0, v)), q) == (if q == s[i].0 {
            Some(v)
        } else {
            assoc_find(s, q)
        }),
    decreases s.len(),
{
    let t = s.update(i, (s[i].0, v));
    if i == 0 {
        assert(t[0] == (s[0].0, v));
        assert(t.drop_first() =~= s.drop_first());
    } else {
        assert(t[0] == s[0]);
        assert(t.drop_first() =~= s.drop_first().update(i - 1, (s[i].0, v)));
        assert(s.drop_first()[i - 1] == s[i]);
        lemma_assoc_find_update(s.drop_first(), i - 1, v, q);
    }
}

/// Appending an entry adds its value to the total.
pub proof fn lemma_sum_values_push<K>(s: Seq<(K, u64)>, k: K, v: u64)
    ensures
        sum_values(s.push((k, v))) == sum_values(s) + v,
    decreases s.len(),
{
    let t = s.push((k, v));
    assert(t.len() == s.len() + 1);
    assert(sum_values(t) == t[0].1 + sum_values(t.drop_first()));
    if s.len() == 0 {
        assert(t[0] == (k, v));
        assert(t.drop_first() =~= Seq::<(K, u64)>::empty());
        assert(sum_values(t.drop_first()) == 0);
    } else {
        assert(t[0] == s[0]);
        assert(t.drop_first() =~= s.drop_first().push((k, v)));
        lemma_sum_values_push(s.drop_first(), k, v);
    }
}

/// Replacing one entry's value moves the total by the difference.
pub proof fn lemma_sum_values_update<K>(s: Seq<(K, u64)>, i: int, v: u64)
    requires
        0 <= i < s.len(),
    ensures
        sum_values(s.update(i, (s[i].0, v))) == sum_values(s) - s[i].1 + v,
    decreases s.len(),
{
    let t = s.update(i, (s[i].0, v));
    if i == 0 {
        assert(t[0] == (s[0].0, v));
        assert(t.drop_first() =~= s.drop_first());
    } else {
        assert(t[0] == s[0]);
        assert(t.drop_first() =~= s.drop_first().update(i - 1, (s[i].0, v)));
        assert(s.drop_first()[i - 1] == s[i]);
        lemma_sum_values_update(s.drop_first(), i - 1, v);
    }
}

/// The total is never negative.
pub proof fn lemma_sum_values_nonneg<K>(s: Seq<(K, u64)>)
    ensures
        sum_values(s) >= 0,
    decreases s.len(),
{
    if s.len() > 0 {
        lemma_sum_values_nonneg(s.drop_first());
    }
}

/// Each single entry is at most the total.
pub proof fn lemma_entry_le_sum<K>(s: Seq<(K, u64)>, i: int)
    requires
        0 <= i < s.len(),
    ensures
        s[i].1 <= sum_values(s),
    decreases s.len(),
{
    lemma_sum_values_nonneg(s.drop_first());
    if i == 0 {
    } else {
        assert(s.drop_first()[i - 1] == s[i]);
        lemma_entry_le_sum(s.drop_first(), i - 1);
        assert(sum_values(s) == s[0].1 + sum_values(s.drop_first()));
    }
}

/// Keeping a prefix of the table can only shrink the total.
pub proof fn lemma_sum_values_take<K>(s: Seq<(K, u64)>, n: int)
    requires
        0 <= n <= s.len(),
    ensures
        sum_values(s.take(n)) <= sum_values(s),
        sum_values(s.take(n)) >= 0,
    decreases n,
{
    if n == 0 {
        assert(s.take(0) =~= Seq::<(K, u64)>::empty());
        lemma_sum_values_nonneg(s);
    } else {
        assert(s.take(n)[0] == s[0]);
        assert(s.take(n).drop_first() =~= s.drop_first().take(n - 1));
        lemma_sum_values_take(s.drop_first(), n - 1);
    }
}

/// Taking one more entry adds its value to the prefix total.
pub proof fn lemma_sum_values_take_step<K>(s: Seq<(K, u64)>, i: int)
    requires
        0 <= i < s.len(),
    ensures
        sum_values(s.take(i + 1)) == sum_values(s.take(i)) + s[i].1,
    decreases i,
{
    if i == 0 {
        assert(s.take(1)[0] == s[0]);
        assert(s.take(1).drop_first() =~= Seq::<(K, u64)>::empty());
        assert(s.take(0) =~= Seq::<(K, u64)>::empty());
    } else {
        assert(s.take(i + 1)[0] == s[0]);
        assert(s.take(i)[0] == s[0]);
        assert(s.take(i + 1).drop_first() =~= s.drop_first().take(i));
        assert(s.take(i).drop_first() =~= s.drop_first().take(i - 1));
        assert(s.drop_first()[i - 1] == s[i]);
        lemma_sum_values_take_step(s.drop_first(), i - 1);
    }
}

/// A failed lookup means no entry holds the key.
pub proof fn lemma_assoc_find_none_no_key<K, V>(s: Seq<(K, V)>, k: K)
    requires
        assoc_find(s, k) == None::<V>,
    ensures
        forall|i: int| 0 <= i < s.len() ==> (#[trigger] s[i]).0 != k,
    decreases s.len(),
{
    if s.len() > 0 {
        lemma_assoc_find_none_no_key(s.drop_first(), k);
        assert forall|i: int| 0 <= i < s.len() implies (#[trigger] s[i]).0 != k by {
            if i > 0 {
                assert(s.drop_first()[i - 1] == s[i]);
            }
        }
    }
}

/// A successful lookup names an entry that holds the key.
pub proof fn lemma_assoc_find_some_has_key<K, V>(s: Seq<(K, V)>, k: K)
    requires
        assoc_find(s, k).is_some(),
    ensures
        exists|i: int| 0 <= i < s.len() && (#[trigger] s[i]).0 == k,
    decreases s.len(),
{
    if s.len() > 0 {
        if s[0].0 == k {
            assert(s[0].0 == k);
        } else {
            lemma_assoc_find_some_has_key(s.drop_first(), k);
            let i = choose|i: int| 0 <= i < s.drop_first().len() && (#[trigger] s.drop_first()[i]).0 == k;
            assert(s[i + 1].0 == k);
        }
    }
}

/// Finds the index of the first entry holding `c` in a character-keyed
/// table.
pub fn find_index_by_char<V>(v: &Vec<(char, V)>, c: char) -> (r: Option<usize>)
    ensures
        match r {
            Some(i) => i < v@.len() && v@[i as int].0 == c && (forall|j: int|
                0 <= j < i ==> (#[trigger] v@[j]).0 != c) && assoc_find(v@, c) == Some(
                v@[i as int].1,
            ),
            None => assoc_find(v@, c) == None::<V>,
        },
{
    let mut i: usize = 0;
    proof {
        assert(v@.skip(0) =~= v@);
    }
    while i < v.len()
        invariant
            i <= v.len(),
            assoc_find(v@, c) == assoc_find(v@.skip(i as int), c),
            forall|j: int| 0 <= j < i ==> (#[trigger] v@[j]).0 != c,
        decreases v.len() - i,
    {
        if v[i].0 == c {
            proof {
                lemma_assoc_find_skip_found(v@, c, i as int);
            }
            return Some(i);
        }
        proof {
            lemma_assoc_find_skip_step(v@, c, i as int);
        }
        i += 1;
    }
    proof {
        assert(v@.skip(v.len() as int) =~= Seq::<(char, V)>::empty());
    }
    None
}

/// Looks `c` up in a character-keyed table.
pub fn find_by_char<V: Copy>(v: &Vec<(char, V)>, c: char) -> (r: Option<V>)
    ensures
        r == assoc_find(v@, c),
{
    let mut i: usize = 0;
    proof {
        assert(v@.skip(0) =~= v@);
    }
    while i < v.len()
        invariant
            i <= v.len(),
            assoc_find(v@, c) == assoc_find(v@.skip(i as int), c),
        decreases v.len() - i,
    {
        if v[i].0 == c {
            proof {
                lemma_assoc_find_skip_found(v@, c, i as int);
            }
            return Some(v[i].1);
        }
        proof {
            lemma_assoc_find_skip_step(v@, c, i as int);
        }
        i += 1;
    }
    proof {
        assert(v@.skip(v.len() as int) =~= Seq::<(char, V)>::empty());
    }
    None
}

/// Looks `p` up in a position-keyed table.
pub fn find_by_pos<V: Copy>(v: &Vec<(Position, V)>, p: Position) -> (r: Option<V>)
    ensures
        r == assoc_find(v@, p),
{
    let mut i: usize = 0;
    proof {
        assert(v@.skip(0) =~= v@);
    }
    while i < v.len()
        invariant
            i <= v.len(),
            assoc_find(v@, p) == assoc_find(v@.skip(i as int), p),
        decreases v.len() - i,
    {
        if v[i].0 == p {
            proof {
                lemma_assoc_find_skip_found(v@, p, i as int);
            }
            return Some(v[i].1);
        }
        proof {
            lemma_assoc_find_skip_step(v@, p, i as int);
        }
        i += 1;
    }
    proof {
        assert(v@.skip(v.len() as int) =~= Seq::<(Position, V)>::empty());
    }
    None
}

} // verus!
