//! Huffman trees: the node type, the code table a tree defines, and reading codes back.
use vstd::prelude::*;

verus! {

/// A node of a Huffman tree. A leaf holds one symbol; an internal node owns its two subtrees.
/// Every node carries the total frequency of the leaves below it.
pub enum Node {
    Leaf { freq: u64, symbol: char },
    Internal { freq: u64, left: Box<Node>, right: Box<Node> },
}

/// `a` is a prefix of `b` (equal sequences included).
pub open spec fn is_prefix(a: Seq<u32>, b: Seq<u32>) -> bool {
    a.len() <= b.len() && forall|j: int| 0 <= j < a.len() ==> a[j] == b[j]
}

/// No code of the table is a prefix of the code at another position of the table.
pub open spec fn prefix_free(table: Seq<(char, Seq<u32>)>) -> bool {
    forall|i: int, j: int|
        0 <= i < table.len() && 0 <= j < table.len() && i != j ==> !is_prefix(
            #[trigger] table[i].1,
            #[trigger] table[j].1,
        )
}

impl Node {
    pub open spec fn spec_freq(&self) -> u64 {
        match self {
            Node::Leaf { freq, .. } => *freq,
            Node::Internal { freq, .. } => *freq,
        }
    }

    /// The frequency stored at this node.
    #[verifier::when_used_as_spec(spec_freq)]
    pub fn freq(&self) -> (r: u64)
        ensures
            r == self.spec_freq(),
    {
        match self {
            Node::Leaf { freq, .. } => *freq,
            Node::Internal { freq, .. } => *freq,
        }
    }

    /// A leaf holding `symbol` with frequency `freq`.
    pub fn leaf(freq: u64, symbol: char) -> (r: Node)
        ensures
            r == (Node::Leaf { freq, symbol }),
    {
        Node::Leaf { freq, symbol }
    }

    /// An internal node over `left` and `right`, carrying the sum of their frequencies.
    pub fn join(left: Node, right: Node) -> (r: Node)
        requires
            left.spec_freq() + right.spec_freq() <= u64::MAX,
        ensures
            r == (Node::Internal {
                freq: (left.spec_freq() + right.spec_freq()) as u64,
                left: Box::new(left),
                right: Box::new(right),
            }),
    {
        let freq = left.freq() + right.freq();
        Node::Internal { freq, left: Box::new(left), right: Box::new(right) }
    }

    /// Each internal node's frequency is the sum of its children's.
    pub open spec fn wf(self) -> bool
        decreases self,
    {
        match self {
            Node::Leaf { .. } => true,
            Node::Internal { freq, left, right } => {
                &&& freq == left.spec_freq() + right.spec_freq()
                &&& left.wf()
                &&& right.wf()
            },
        }
    }

    /// Below every internal node the right child's frequency is at least the left's.
    pub open spec fn siblings_ordered(self) -> bool
        decreases self,
    {
        match self {
            Node::Leaf { .. } => true,
            Node::Internal { left, right, .. } => {
                &&& left.spec_freq() <= right.spec_freq()
                &&& left.siblings_ordered()
                &&& right.siblings_ordered()
            },
        }
    }

    /// The (symbol, frequency) pairs held by the leaves.
    pub open spec fn leaves(self) -> Set<(char, u64)>
        decreases self,
    {
        match self {
            Node::Leaf { freq, symbol } => set![(symbol, freq)],
            Node::Internal { left, right, .. } => left.leaves().union(right.leaves()),
        }
    }

    /// The number of leaves.
    pub open spec fn leaf_count(self) -> nat
        decreases self,
    {
        match self {
            Node::Leaf { .. } => 1,
            Node::Internal { left, right, .. } => left.leaf_count() + right.leaf_count(),
        }
    }

    /// Some leaf holds the symbol `c`.
    pub open spec fn holds(self, c: char) -> bool {
        exists|f: u64| self.leaves().contains((c, f))
    }

    /// The codes of the leaves in depth-first order, left before right: a step to the
    /// left appends 0 to `prefix`, a step to the right appends 1.
    pub open spec fn code_list(self, prefix: Seq<u32>) -> Seq<(char, Seq<u32>)>
        decreases self,
    {
        match self {
            Node::Leaf { symbol, .. } => seq![(symbol, prefix)],
            Node::Internal { left, right, .. } => left.code_list(prefix.push(0)) + right.code_list(
                prefix.push(1),
            ),
        }
    }

    /// The path a code table starts from: a tree that is a single leaf gives its symbol
    /// the one-bit code 0, so that every symbol still takes up one bit of the stream.
    pub open spec fn root_prefix(self) -> Seq<u32> {
        match self {
            Node::Leaf { .. } => seq![0u32],
            Node::Internal { .. } => Seq::empty(),
        }
    }

    /// The code table of the tree.
    pub open spec fn code_table(self) -> Seq<(char, Seq<u32>)> {
        self.code_list(self.root_prefix())
    }

    /// Follows `bits` from position `pos` down to a leaf: 0 goes left, any other value
    /// goes right. Gives the leaf's symbol and the position after the path.
    pub open spec fn read_at(self, bits: Seq<u32>, pos: int) -> Option<(char, int)>
        decreases self,
    {
        match self {
            Node::Leaf { symbol, .. } => Some((symbol, pos)),
            Node::Internal { left, right, .. } => {
                if 0 <= pos < bits.len() {
                    if bits[pos] == 0 {
                        left.read_at(bits, pos + 1)
                    } else {
                        right.read_at(bits, pos + 1)
                    }
                } else {
                    None
                }
            },
        }
    }

    /// Reads one symbol with this node as the root; a lone leaf consumes one bit.
    pub open spec fn read_symbol_at(self, bits: Seq<u32>, pos: int) -> Option<(char, int)> {
        match self {
            Node::Leaf { symbol, .. } => {
                if 0 <= pos < bits.len() {
                    Some((symbol, pos + 1))
                } else {
                    None
                }
            },
            Node::Internal { .. } => self.read_at(bits, pos),
        }
    }

    /// Decodes `bits` from position `pos` on, appending to `acc`; `None` when the bits
    /// end inside a path.
    pub open spec fn decode_at(self, bits: Seq<u32>, pos: int, acc: Seq<char>) -> Option<
        Seq<char>,
    >
        decreases bits.len() - pos,
    {
        if pos >= bits.len() {
            Some(acc)
        } else {
            match self.read_symbol_at(bits, pos) {
                Some((c, n)) => {
                    if pos < n <= bits.len() {
                        self.decode_at(bits, n, acc.push(c))
                    } else {
                        None
                    }
                },
                None => None,
            }
        }
    }

    /// Exec form of `read_at`.
    pub fn read_code(&self, bits: &[u32], pos: usize) -> (r: Option<(char, usize)>)
        requires
            pos <= bits@.len(),
        ensures
            match r {
                Some((c, n)) => self.read_at(bits@, pos as int) == Some((c, n as int)) && pos
                    <= n <= bits@.len(),
                None => self.read_at(bits@, pos as int) is None,
            },
        decreases self,
    {
        match self {
            Node::Leaf { symbol, .. } => Some((*symbol, pos)),
            Node::Internal { left, right, .. } => {
                if pos < bits.len() {
                    if bits[pos] == 0 {
                        left.read_code(bits, pos + 1)
                    } else {
                        right.read_code(bits, pos + 1)
                    }
                } else {
                    None
                }
            },
        }
    }

    /// Exec form of `read_symbol_at`.
    pub fn read_symbol(&self, bits: &[u32], pos: usize) -> (r: Option<(char, usize)>)
        requires
            pos <= bits@.len(),
        ensures
            match r {
                Some((c, n)) => self.read_symbol_at(bits@, pos as int) == Some((c, n as int))
                    && pos <= n <= bits@.len(),
                None => self.read_symbol_at(bits@, pos as int) is None,
            },
    {
        match self {
            Node::Leaf { symbol, .. } => {
                if pos < bits.len() {
                    Some((*symbol, pos + 1))
                } else {
                    None
                }
            },
            Node::Internal { .. } => self.read_code(bits, pos),
        }
    }
}

/// Every code in `code_list(prefix)` extends `prefix`; below an internal node it is
/// strictly longer.
pub proof fn lemma_codes_extend(t: Node, prefix: Seq<u32>)
    ensures
        forall|k: int|
            0 <= k < t.code_list(prefix).len() ==> is_prefix(prefix, #[trigger] t.code_list(
                prefix,
            )[k].1),
        t is Internal ==> forall|k: int|
            0 <= k < t.code_list(prefix).len() ==> #[trigger] t.code_list(prefix)[k].1.len()
                > prefix.len(),
        t.code_list(prefix).len() >= 1,
    decreases t,
{
    match t {
        Node::Leaf { .. } => {},
        Node::Internal { left, right, .. } => {
            let p0 = prefix.push(0);
            let p1 = prefix.push(1);
            lemma_codes_extend(*left, p0);
            lemma_codes_extend(*right, p1);
            let l = left.code_list(p0);
            let r = right.code_list(p1);
            assert forall|k: int| 0 <= k < t.code_list(prefix).len() implies is_prefix(
                prefix,
                #[trigger] t.code_list(prefix)[k].1,
            ) && t.code_list(prefix)[k].1.len() > prefix.len() by {
                if k < l.len() {
                    assert(is_prefix(p0, l[k].1));
                } else {
                    assert(is_prefix(p1, r[k - l.len()].1));
                }
            }
        },
    }
}

/// Each entry of the code list is a path from the node down to the leaf of its symbol.
pub proof fn lemma_read_code(t: Node, prefix: Seq<u32>, k: int, bits: Seq<u32>, pos: int)
    requires
        0 <= k < t.code_list(prefix).len(),
        0 <= pos,
        is_prefix(prefix, t.code_list(prefix)[k].1),
        pos + t.code_list(prefix)[k].1.len() - prefix.len() <= bits.len(),
        forall|j: int|
            prefix.len() <= j < t.code_list(prefix)[k].1.len() ==> bits[pos + j - prefix.len()]
                == t.code_list(prefix)[k].1[j],
    ensures
        t.read_at(bits, pos) == Some(
            (t.code_list(prefix)[k].0, pos + t.code_list(prefix)[k].1.len() - prefix.len()),
        ),
    decreases t,
{
    match t {
        Node::Leaf { .. } => {},
        Node::Internal { left, right, .. } => {
            let p0 = prefix.push(0);
            let p1 = prefix.push(1);
            let l = left.code_list(p0);
            let r = right.code_list(p1);
            lemma_codes_extend(*left, p0);
            lemma_codes_extend(*right, p1);
            if k < l.len() {
                let path = l[k].1;
                assert(is_prefix(p0, path));
                assert(path[prefix.len() as int] == 0);
                assert(bits[pos] == 0);
                lemma_read_code(*left, p0, k, bits, pos + 1);
            } else {
                let path = r[k - l.len()].1;
                assert(is_prefix(p1, path));
                assert(path[prefix.len() as int] == 1);
                assert(bits[pos] == 1);
                lemma_read_code(*right, p1, k - l.len(), bits, pos + 1);
            }
        },
    }
}

/// Every symbol held by a leaf has an entry in the code list.
pub proof fn lemma_code_list_covers(t: Node, prefix: Seq<u32>, c: char)
    requires
        t.holds(c),
    ensures
        exists|k: int| 0 <= k < t.code_list(prefix).len() && #[trigger] t.code_list(prefix)[k].0 == c,
    decreases t,
{
    let f = choose|f: u64| t.leaves().contains((c, f));
    match t {
        Node::Leaf { .. } => {
            assert(t.code_list(prefix)[0].0 == c);
        },
        Node::Internal { left, right, .. } => {
            let l = left.code_list(prefix.push(0));
            let r = right.code_list(prefix.push(1));
            if left.leaves().contains((c, f)) {
                lemma_code_list_covers(*left, prefix.push(0), c);
                let k = choose|k: int| 0 <= k < l.len() && #[trigger] l[k].0 == c;
                assert(t.code_list(prefix)[k].0 == c);
            } else {
                assert(right.leaves().contains((c, f)));
                lemma_code_list_covers(*right, prefix.push(1), c);
                let k = choose|k: int| 0 <= k < r.len() && #[trigger] r[k].0 == c;
                assert(t.code_list(prefix)[k + l.len()].0 == c);
            }
        },
    }
}

/// The code list of any tree, from any starting path, is prefix-free.
pub proof fn lemma_code_list_prefix_free(t: Node, prefix: Seq<u32>)
    ensures
        prefix_free(t.code_list(prefix)),
    decreases t,
{
    match t {
        Node::Leaf { .. } => {},
        Node::Internal { left, right, .. } => {
            let p0 = prefix.push(0);
            let p1 = prefix.push(1);
            let l = left.code_list(p0);
            let r = right.code_list(p1);
            let all = t.code_list(prefix);
            lemma_code_list_prefix_free(*left, p0);
            lemma_code_list_prefix_free(*right, p1);
            lemma_codes_extend(*left, p0);
            lemma_codes_extend(*right, p1);
            let n = prefix.len() as int;
            assert forall|i: int, j: int|
                0 <= i < all.len() && 0 <= j < all.len() && i != j implies !is_prefix(
                #[trigger] all[i].1,
                #[trigger] all[j].1,
            ) by {
                if i < l.len() && j < l.len() {
                    assert(!is_prefix(l[i].1, l[j].1));
                } else if i >= l.len() && j >= l.len() {
                    assert(!is_prefix(r[i - l.len()].1, r[j - l.len()].1));
                } else if i < l.len() {
                    assert(is_prefix(p0, l[i].1));
                    assert(is_prefix(p1, r[j - l.len()].1));
                    assert(all[i].1[n] != all[j].1[n]);
                } else {
                    assert(is_prefix(p1, r[i - l.len()].1));
                    assert(is_prefix(p0, l[j].1));
                    assert(all[i].1[n] != all[j].1[n]);
                }
            }
        },
    }
}

/// No code of a tree's code table is a prefix of another code of the same table.
pub proof fn lemma_code_table_prefix_free(t: Node)
    ensures
        prefix_free(t.code_table()),
{
    lemma_code_list_prefix_free(t, t.root_prefix());
}

} // verus!
