//! Symbol counts of a message.
use vstd::prelude::*;

verus! {

/// Number of times `c` occurs in `s`.
pub open spec fn occurrences(s: Seq<char>, c: char) -> nat
    decreases s.len(),
{
    if s.len() == 0 {
        0
    } else {
        occurrences(s.drop_last(), c) + if s.last() == c {
            1nat
        } else {
            0nat
        }
    }
}

/// The sum of the counts of a frequency table.
pub open spec fn freq_total(t: Seq<(char, u64)>) -> nat
    decreases t.len(),
{
    if t.len() == 0 {
        0
    } else {
        freq_total(t.drop_last()) + t.last().1 as nat
    }
}

/// `t` maps each symbol of `m` to its number of occurrences: keys are unique, every
/// count is exact and positive, and every symbol of `m` has an entry.
pub open spec fn is_frequency_table(t: Seq<(char, u64)>, m: Seq<char>) -> bool {
    &&& forall|i: int, j: int| 0 <= i < j < t.len() ==> #[trigger] t[i].0 != #[trigger] t[j].0
    &&& forall|i: int|
        0 <= i < t.len() ==> #[trigger] t[i].1 == occurrences(m, t[i].0) && t[i].1 > 0
    &&& forall|c: char|
        occurrences(m, c) > 0 ==> exists|i: int| 0 <= i < t.len() && #[trigger] t[i].0 == c
}

pub proof fn lemma_occurrences_bound(s: Seq<char>, c: char)
    ensures
        occurrences(s, c) <= s.len(),
    decreases s.len(),
{
    if s.len() > 0 {
        lemma_occurrences_bound(s.drop_last(), c);
    }
}

/// A symbol at some position of `s` occurs in `s`.
pub proof fn lemma_occurs(s: Seq<char>, k: int)
    requires
        0 <= k < s.len(),
    ensures
        occurrences(s, s[k]) > 0,
    decreases s.len(),
{
    if k < s.len() - 1 {
        lemma_occurs(s.drop_last(), k);
    }
}

pub proof fn lemma_freq_total_push(t: Seq<(char, u64)>, e: (char, u64))
    ensures
        freq_total(t.push(e)) == freq_total(t) + e.1,
{
    assert(t.push(e).drop_last() =~= t);
}

pub proof fn lemma_freq_total_bump(t: Seq<(char, u64)>, j: int, e: (char, u64))
    requires
        0 <= j < t.len(),
        e.1 == t[j].1 + 1,
    ensures
        freq_total(t.update(j, e)) == freq_total(t) + 1,
    decreases t.len(),
{
    if j < t.len() - 1 {
        assert(t.update(j, e).drop_last() =~= t.drop_last().update(j, e));
        lemma_freq_total_bump(t.drop_last(), j, e);
    } else {
        assert(t.update(j, e).drop_last() =~= t.drop_last());
    }
}

} // verus!
