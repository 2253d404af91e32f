//! Finite sums of integers, and the few facts about them that the proofs
//! about flows and potentials rest on.

use vstd::prelude::*;

verus! {

/// The sum of the entries of `s`.
pub open spec fn seq_sum(s: Seq<int>) -> int
    decreases s.len(),
{
    if s.len() == 0 {
        0
    } else {
        seq_sum(s.drop_last()) + s.last()
    }
}

/// Appending an entry adds it to the sum.
pub proof fn lemma_sum_push(s: Seq<int>, x: int)
    ensures
        seq_sum(s.push(x)) == seq_sum(s) + x,
{
    assert(s.push(x).drop_last() =~= s);
}

/// A sequence of zeros sums to zero.
pub proof fn lemma_sum_zero(s: Seq<int>)
    requires
        forall|i: int| 0 <= i < s.len() ==> s[i] == 0,
    ensures
        seq_sum(s) == 0,
    decreases s.len(),
{
    if s.len() > 0 {
        lemma_sum_zero(s.drop_last());
    }
}

/// Entry by entry smaller means smaller in sum.
pub proof fn lemma_sum_le(s: Seq<int>, t: Seq<int>)
    requires
        s.len() == t.len(),
        forall|i: int| 0 <= i < s.len() ==> s[i] <= t[i],
    ensures
        seq_sum(s) <= seq_sum(t),
    decreases s.len(),
{
    if s.len() > 0 {
        lemma_sum_le(s.drop_last(), t.drop_last());
    }
}

/// The sum of two sequences added entry by entry is the sum of their sums.
pub proof fn lemma_sum_add(s: Seq<int>, t: Seq<int>, r: Seq<int>)
    requires
        s.len() == t.len(),
        r.len() == s.len(),
        forall|i: int| 0 <= i < s.len() ==> r[i] == s[i] + t[i],
    ensures
        seq_sum(r) == seq_sum(s) + seq_sum(t),
    decreases s.len(),
{
    if s.len() > 0 {
        lemma_sum_add(s.drop_last(), t.drop_last(), r.drop_last());
    }
}

/// Replacing one entry changes the sum by the difference.
pub proof fn lemma_sum_update(s: Seq<int>, j: int, x: int)
    requires
        0 <= j < s.len(),
    ensures
        seq_sum(s.update(j, x)) == seq_sum(s) - s[j] + x,
    decreases s.len(),
{
    let t = s.update(j, x);
    if j == s.len() - 1 {
        assert(t.drop_last() =~= s.drop_last());
    } else {
        lemma_sum_update(s.drop_last(), j, x);
        assert(t.drop_last() =~= s.drop_last().update(j, x));
    }
}

/// Two sequences that differ in one place at most differ in sum by the
/// difference in that place.
pub proof fn lemma_sum_differ_at(s: Seq<int>, t: Seq<int>, j: int)
    requires
        s.len() == t.len(),
        0 <= j < s.len(),
        forall|i: int| 0 <= i < s.len() && i != j ==> s[i] == t[i],
    ensures
        seq_sum(t) == seq_sum(s) - s[j] + t[j],
{
    lemma_sum_update(s, j, t[j]);
    assert(s.update(j, t[j]) =~= t);
}

/// Two sequences that differ in two places at most.
pub proof fn lemma_sum_differ_at2(s: Seq<int>, t: Seq<int>, j: int, k: int)
    requires
        s.len() == t.len(),
        0 <= j < s.len(),
        0 <= k < s.len(),
        j != k,
        forall|i: int| 0 <= i < s.len() && i != j && i != k ==> s[i] == t[i],
    ensures
        seq_sum(t) == seq_sum(s) - s[j] + t[j] - s[k] + t[k],
{
    let m = s.update(j, t[j]);
    lemma_sum_update(s, j, t[j]);
    lemma_sum_differ_at(m, t, k);
}

/// A sum of entries none of which is negative is at least each entry.
pub proof fn lemma_sum_ge_entry(s: Seq<int>, j: int)
    requires
        0 <= j < s.len(),
        forall|i: int| 0 <= i < s.len() ==> s[i] >= 0,
    ensures
        seq_sum(s) >= s[j],
        seq_sum(s) >= 0,
    decreases s.len(),
{
    if j < s.len() - 1 {
        lemma_sum_ge_entry(s.drop_last(), j);
    } else if s.len() > 1 {
        lemma_sum_ge_entry(s.drop_last(), 0);
    } else {
        assert(s.drop_last().len() == 0);
    }
}

/// A sum of entries none of which is negative is not negative.
pub proof fn lemma_sum_nonneg(s: Seq<int>)
    requires
        forall|i: int| 0 <= i < s.len() ==> s[i] >= 0,
    ensures
        seq_sum(s) >= 0,
{
    if s.len() > 0 {
        lemma_sum_ge_entry(s, 0);
    }
}

/// Some value in a range of more values than the sequence has entries is
/// taken by none of them.
pub proof fn lemma_gap(s: Seq<int>, lo: int, size: int) -> (k: int)
    requires
        s.len() < size,
    ensures
        lo <= k < lo + size,
        forall|i: int| 0 <= i < s.len() ==> s[i] != k,
    decreases size,
{
    let top = lo + size - 1;
    if exists|j: int| 0 <= j < s.len() && s[j] == top {
        let j = choose|j: int| 0 <= j < s.len() && s[j] == top;
        let rest = s.remove(j);
        let k = lemma_gap(rest, lo, size - 1);
        assert forall|i: int| 0 <= i < s.len() implies s[i] != k by {
            if i < j {
                assert(rest[i] == s[i]);
            } else if i > j {
                assert(rest[i - 1] == s[i]);
            }
        }
        k
    } else {
        top
    }
}

/// The same with two more entries, where two of the entries lie outside the
/// range.
pub proof fn lemma_gap_but_two(s: Seq<int>, a: int, b: int, lo: int, size: int) -> (k: int)
    requires
        0 <= a < b < s.len(),
        s.len() < size + 2,
        !(lo <= s[a] < lo + size),
        !(lo <= s[b] < lo + size),
    ensures
        lo <= k < lo + size,
        forall|i: int| 0 <= i < s.len() ==> s[i] != k,
{
    let rest = s.remove(b).remove(a);
    let k = lemma_gap(rest, lo, size);
    assert forall|i: int| 0 <= i < s.len() implies s[i] != k by {
        if i < a {
            assert(rest[i] == s[i]);
        } else if a < i < b {
            assert(rest[i - 1] == s[i]);
        } else if i > b {
            assert(rest[i - 2] == s[i]);
        }
    }
    k
}

} // verus!
