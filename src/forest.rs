//! Forests of trees while a Huffman tree is being built.
use crate::tree::Node;
use vstd::prelude::*;

verus! {

/// The (symbol, frequency) pairs held by the leaves of a forest.
pub open spec fn forest_leaves(s: Seq<Node>) -> Set<(char, u64)> {
    Set::new(|e: (char, u64)| exists|k: int| 0 <= k < s.len() && (#[trigger] s[k]).leaves().contains(e))
}

/// The sum of the root frequencies of a forest.
pub open spec fn forest_total(s: Seq<Node>) -> nat
    decreases s.len(),
{
    if s.len() == 0 {
        0
    } else {
        forest_total(s.drop_last()) + s.last().spec_freq() as nat
    }
}

/// The number of leaves of a forest.
pub open spec fn forest_leaf_count(s: Seq<Node>) -> nat
    decreases s.len(),
{
    if s.len() == 0 {
        0
    } else {
        forest_leaf_count(s.drop_last()) + s.last().leaf_count()
    }
}

pub proof fn lemma_forest_remove(s: Seq<Node>, i: int)
    requires
        0 <= i < s.len(),
    ensures
        forest_total(s) == forest_total(s.remove(i)) + s[i].spec_freq(),
        forest_leaf_count(s) == forest_leaf_count(s.remove(i)) + s[i].leaf_count(),
        forest_leaves(s) == forest_leaves(s.remove(i)).union(s[i].leaves()),
    decreases s.len(),
{
    let r = s.remove(i);
    if i < s.len() - 1 {
        assert(r.drop_last() =~= s.drop_last().remove(i));
        lemma_forest_remove(s.drop_last(), i);
    } else {
        assert(r =~= s.drop_last());
    }
    assert forall|e: (char, u64)| forest_leaves(s).contains(e) implies forest_leaves(r).union(
        s[i].leaves(),
    ).contains(e) by {
        let k = choose|k: int| 0 <= k < s.len() && (#[trigger] s[k]).leaves().contains(e);
        if k < i {
            assert(r[k] == s[k]);
        } else if k > i {
            assert(r[k - 1] == s[k]);
        }
    }
    assert forall|e: (char, u64)| forest_leaves(r).contains(e) implies forest_leaves(s).contains(
        e,
    ) by {
        let k = choose|k: int| 0 <= k < r.len() && (#[trigger] r[k]).leaves().contains(e);
        if k < i {
            assert(r[k] == s[k]);
        } else {
            assert(r[k] == s[k + 1]);
        }
    }
    assert(forest_leaves(s) =~= forest_leaves(r).union(s[i].leaves()));
}

pub proof fn lemma_forest_push(s: Seq<Node>, x: Node)
    ensures
        forest_total(s.push(x)) == forest_total(s) + x.spec_freq(),
        forest_leaf_count(s.push(x)) == forest_leaf_count(s) + x.leaf_count(),
        forest_leaves(s.push(x)) == forest_leaves(s).union(x.leaves()),
{
    let p = s.push(x);
    assert(p.drop_last() =~= s);
    assert forall|e: (char, u64)| forest_leaves(p).contains(e) implies forest_leaves(s).union(
        x.leaves(),
    ).contains(e) by {
        let k = choose|k: int| 0 <= k < p.len() && (#[trigger] p[k]).leaves().contains(e);
        if k < s.len() {
            assert(p[k] == s[k]);
        }
    }
    assert forall|e: (char, u64)| forest_leaves(s).union(x.leaves()).contains(e) implies forest_leaves(p).contains(e) by {
        if forest_leaves(s).contains(e) {
            let k = choose|k: int| 0 <= k < s.len() && (#[trigger] s[k]).leaves().contains(e);
            assert(p[k] == s[k]);
        } else {
            assert(p[s.len() as int] == x);
        }
    }
    assert(forest_leaves(p) =~= forest_leaves(s).union(x.leaves()));
}

pub proof fn lemma_leaf_leaves(freq: u64, symbol: char)
    ensures
        (Node::Leaf { freq, symbol }).leaves() == set![(symbol, freq)],
{
}

pub proof fn lemma_to_set_push(t: Seq<(char, u64)>, e: (char, u64))
    ensures
        t.push(e).to_set() == t.to_set().union(set![e]),
{
    let p = t.push(e);
    assert forall|x: (char, u64)| p.to_set().contains(x) <==> t.to_set().union(set![e]).contains(x) by {
        if p.contains(x) {
            let k = choose|k: int| 0 <= k < p.len() && p[k] == x;
            if k < t.len() {
                assert(t[k] == x);
            }
        }
        if t.contains(x) {
            let k = choose|k: int| 0 <= k < t.len() && t[k] == x;
            assert(p[k] == x);
        }
        if x == e {
            assert(p[t.len() as int] == x);
        }
    }
    assert(p.to_set() =~= t.to_set().union(set![e]));
}

/// `a` has the least frequency of all trees in `s`.
pub open spec fn is_least(a: Node, s: Seq<Node>) -> bool {
    forall|k: int| 0 <= k < s.len() ==> a.spec_freq() <= (#[trigger] s[k]).spec_freq()
}

/// The internal node over `a` and `b` with the sum of their frequencies.
pub open spec fn merged(a: Node, b: Node) -> Node {
    Node::Internal {
        freq: (a.spec_freq() + b.spec_freq()) as u64,
        left: Box::new(a),
        right: Box::new(b),
    }
}

/// One leaf per entry of a frequency table, in order.
pub open spec fn leaf_forest(t: Seq<(char, u64)>) -> Seq<Node> {
    Seq::new(t.len(), |k: int| leaf_of(t[k]))
}

/// The leaf for one table entry.
pub open spec fn leaf_of(e: (char, u64)) -> Node {
    Node::Leaf { freq: e.1, symbol: e.0 }
}

/// Picks `i` then `j` are a Huffman merge step on `s`: `s[i]` has the least frequency,
/// and after it is taken out, so has the `j`-th of the rest.
pub open spec fn merge_step_ok(s: Seq<Node>, i: int, j: int) -> bool {
    &&& 0 <= i < s.len()
    &&& 0 <= j < s.len() - 1
    &&& is_least(s[i], s.remove(i))
    &&& is_least(s.remove(i)[j], s.remove(i).remove(j))
}

/// The forest after the merge step: the two trees are joined, the first on the left, and
/// the new tree is put back.
pub open spec fn merge_step(s: Seq<Node>, i: int, j: int) -> Seq<Node> {
    s.remove(i).remove(j).push(merged(s[i], s.remove(i)[j]))
}

/// Replays the merge steps `picks` on `s`: the tree left at the end, or `None` when a
/// step is not a Huffman step or more than one tree is left.
pub open spec fn merge_run(s: Seq<Node>, picks: Seq<(int, int)>) -> Option<Node>
    decreases picks.len(),
{
    if picks.len() == 0 {
        if s.len() == 1 {
            Some(s[0])
        } else {
            None
        }
    } else if s.len() > 1 && merge_step_ok(s, picks[0].0, picks[0].1) {
        merge_run(merge_step(s, picks[0].0, picks[0].1), picks.skip(1))
    } else {
        None
    }
}

/// `t` is a tree the Huffman merge reaches from the forest `s`: while more than one tree
/// is left, a tree of least frequency is taken out, then a tree of least frequency among
/// the rest, and the two are joined and put back. Which of two equal trees is taken is
/// left open.
pub open spec fn huffman_from(s: Seq<Node>, t: Node) -> bool {
    exists|picks: Seq<(int, int)>| #[trigger] merge_run(s, picks) == Some(t)
}

/// Removes a node of least frequency from a non-empty forest.
pub(crate) fn take_min(forest: &mut Vec<Node>) -> (r: Node)
    requires
        old(forest).len() > 0,
    ensures
        exists|i: int|
            0 <= i < old(forest).len() && r == old(forest)@[i] && final(forest)@ == old(
                forest,
            )@.remove(i),
        forall|k: int| 0 <= k < final(forest).len() ==> r.spec_freq() <= (#[trigger] final(forest)@[k]).spec_freq(),
{
    let mut best: usize = 0;
    let mut i: usize = 1;
    while i < forest.len()
        invariant
            0 <= best < forest.len(),
            1 <= i <= forest.len(),
            best < i,
            forall|k: int| 0 <= k < i ==> forest@[best as int].spec_freq() <= (#[trigger] forest@[k]).spec_freq(),
        decreases forest.len() - i,
    {
        if forest[i].freq() < forest[best].freq() {
            best = i;
        }
        i += 1;
    }
    let ghost before = forest@;
    let r = forest.remove(best);
    proof {
        assert forall|k: int| 0 <= k < forest.len() implies r.spec_freq() <= (#[trigger] forest@[k]).spec_freq() by {
            if k < best {
                assert(forest@[k] == before[k]);
            } else {
                assert(forest@[k] == before[k + 1]);
            }
        }
    }
    r
}

} // verus!
