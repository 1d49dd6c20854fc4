//! The Huffman session: building the tree, encoding, validating and decoding.
use crate::checksum::{
    bits_value, frame, lemma_bits_value_bound, lemma_low_bits_len, lemma_low_bits_value,
    lemma_weighted_sum_bound, lemma_weighted_sum_zeros, low_bits, padding_len, payload_sum,
    trailer_check, weighted_sum, within_tolerance, zeros, Fidelity, CHECK_BITS, CHECK_MODULUS,
    MIN_STREAM_BITS,
};
use crate::code_table::{
    encode_bits, find_code, lemma_encode_bits_append, lemma_lookup_entry, lemma_lookup_found,
    lookup, table_view,
};
use crate::forest::{
    forest_leaf_count, huffman_from, leaf_forest, merge_run, merge_step, merge_step_ok, merged, forest_leaves, forest_total, lemma_forest_push, lemma_forest_remove, lemma_leaf_leaves,
    lemma_to_set_push, take_min,
};
use crate::frequency::{
    freq_total, is_frequency_table, lemma_freq_total_bump, lemma_freq_total_push,
    lemma_occurrences_bound, lemma_occurs, occurrences,
};
use crate::tree::{lemma_code_list_covers, lemma_codes_extend, lemma_read_code, Node};
use vstd::arithmetic::power2::{
    lemma2_to64, lemma_pow2_strictly_increases, lemma_pow2_unfold, pow2,
};
use vstd::prelude::*;

verus! {

/// The characters of the string, in order.
fn chars_of(s: &str) -> (r: Vec<char>)
    ensures
        r@ == s@,
{
    let mut chars: Vec<char> = Vec::new();
    for c in it: s.chars()
        invariant
            chars@ == it.history(),
    {
        chars.push(c);
    }
    assert(chars@ =~= s@);
    chars
}

/// Relies on `String`'s `FromIterator<&char>`: the string of the given characters.
#[verifier::external_body]
fn string_of(chars: &Vec<char>) -> (r: String)
    ensures
        r@ == chars@,
{
    chars.iter().collect()
}

/// What validation finds on a received stream: under 40 bits it fails with two zero
/// sums; otherwise it compares the recomputed payload sum with the trailing checksum.
pub open spec fn validation(s: Seq<u32>) -> (bool, Fidelity) {
    if s.len() < MIN_STREAM_BITS {
        (false, Fidelity { sum: 0, check: 0 })
    } else {
        (
            within_tolerance(payload_sum(s), trailer_check(s)),
            Fidelity { sum: payload_sum(s) as u32, check: trailer_check(s) as u32 },
        )
    }
}

/// The result of decoding a received stream, as a value.
pub enum Outcome {
    /// The fidelity check passed and the payload decoded to this message.
    Validated(Seq<char>, Fidelity),
    /// The fidelity check failed.
    Invalid(Fidelity),
    /// The fidelity check passed, but the payload ends inside a code.
    Unframed(Fidelity),
    /// The fidelity check passed, but the session has no tree to decode with.
    NoTree(Fidelity),
}

/// The result of decoding a received stream.
pub enum Decoded {
    Validated { message: String, fidelity: Fidelity },
    Invalid { fidelity: Fidelity },
    Unframed { fidelity: Fidelity },
    NoTree { fidelity: Fidelity },
}

impl View for Decoded {
    type V = Outcome;

    open spec fn view(&self) -> Outcome {
        match self {
            Decoded::Validated { message, fidelity } => Outcome::Validated(message@, *fidelity),
            Decoded::Invalid { fidelity } => Outcome::Invalid(*fidelity),
            Decoded::Unframed { fidelity } => Outcome::Unframed(*fidelity),
            Decoded::NoTree { fidelity } => Outcome::NoTree(*fidelity),
        }
    }
}

/// Decoding `s` with the tree of the last encoding, if any, which appended `padding`
/// zero bits: a stream that fails validation is invalid; otherwise the checksum and the
/// padding are stripped and the rest is decoded with the tree.
pub open spec fn decode_outcome(tree: Option<Node>, padding: nat, s: Seq<u32>) -> Outcome {
    let (valid, fidelity) = validation(s);
    if !valid {
        Outcome::Invalid(fidelity)
    } else {
        match tree {
            None => Outcome::NoTree(fidelity),
            Some(t) => {
                if s.len() < CHECK_BITS + padding {
                    Outcome::Unframed(fidelity)
                } else {
                    match t.decode_at(s.take(s.len() - CHECK_BITS - padding), 0, Seq::empty()) {
                        Some(m) => Outcome::Validated(m, fidelity),
                        None => Outcome::Unframed(fidelity),
                    }
                }
            },
        }
    }
}

/// `t` is a Huffman tree of the message `m`: the Huffman merge reaches it from the leaves
/// of a frequency table of `m`.
pub open spec fn is_huffman_tree_of(t: Node, m: Seq<char>) -> bool {
    exists|table: Seq<(char, u64)>|
        #[trigger] is_frequency_table(table, m) && huffman_from(leaf_forest(table), t)
}

/// The session object: the tree built by the last `encode`, and the number of padding
/// bits that encoding appended, which `decode` strips.
pub struct HuffTree {
    root: Option<Node>,
    padding: usize,
}

impl HuffTree {
    /// The tree of the last encoding, if any.
    pub closed spec fn tree(&self) -> Option<Node> {
        self.root
    }

    /// The padding length of the last encoding.
    pub closed spec fn padding_bits(&self) -> nat {
        self.padding as nat
    }

    /// A tree is present and the padding is one of the lengths encoding produces.
    pub open spec fn ready(&self) -> bool {
        self.tree() is Some && 1 <= self.padding_bits() <= 8
    }

    /// A session with no tree yet.
    pub fn new() -> (r: HuffTree)
        ensures
            r.tree() is None,
            r.padding_bits() == 0,
    {
        HuffTree { root: None, padding: 0 }
    }

    /// Counts each symbol of the message.
    pub fn create_frequency_map(&self, message: &String) -> (r: Vec<(char, u64)>)
        ensures
            is_frequency_table(r@, message@),
            freq_total(r@) == message@.len(),
            message@.len() <= usize::MAX,
    {
        let chars = chars_of(message.as_str());
        let mut table: Vec<(char, u64)> = Vec::new();
        let n = chars.len();
        let mut i: usize = 0;
        while i < n
            invariant
                n == chars@.len(),
                chars@ == message@,
                i <= n,
                is_frequency_table(table@, chars@.take(i as int)),
                freq_total(table@) == i,
            decreases n - i,
        {
            let c = chars[i];
            let ghost before = table@;
            let ghost seen = chars@.take(i as int);
            let ghost next = chars@.take(i + 1);
            assert(next.drop_last() =~= seen);
            assert(next.last() == c);
            assert(forall|x: char|
                #[trigger] occurrences(next, x) == occurrences(seen, x) + if x == c {
                    1nat
                } else {
                    0nat
                });
            let mut j: usize = 0;
            while j < table.len() && table[j].0 != c
                invariant
                    table@ == before,
                    j <= table@.len(),
                    forall|k: int| 0 <= k < j ==> #[trigger] table@[k].0 != c,
                decreases table.len() - j,
            {
                j += 1;
            }
            if j < table.len() {
                let count = table[j].1;
                proof {
                    lemma_occurrences_bound(seen, c);
                    assert(seen.len() == i);
                }
                let e = (c, count + 1);
                table.set(j, e);
                proof {
                    lemma_freq_total_bump(before, j as int, e);
                }
            } else {
                proof {
                    lemma_freq_total_push(before, (c, 1));
                    assert(occurrences(seen, c) == 0);
                }
                table.push((c, 1));
            }
            proof {
                let t = table@;
                assert forall|k: int| 0 <= k < t.len() implies #[trigger] t[k].1 == occurrences(
                    next,
                    t[k].0,
                ) && t[k].1 > 0 by {
                    if k < before.len() && before[k].0 != c {
                        assert(t[k] == before[k]);
                    }
                }
                assert forall|x: char| occurrences(next, x) > 0 implies exists|k: int|
                    0 <= k < t.len() && #[trigger] t[k].0 == x by {
                    if x == c {
                        assert(t[j as int].0 == c);
                    } else {
                        let k = choose|k: int| 0 <= k < before.len() && #[trigger] before[k].0 == x;
                        assert(t[k].0 == x);
                    }
                }
            }
            i += 1;
        }
        assert(chars@.take(n as int) =~= chars@);
        table
    }
    /// Builds a Huffman tree from a non-empty frequency table: repeatedly the two nodes of
    /// least frequency are joined under a new node, the first taken as its left child.
    pub fn build_tree(&self, frequency_map: Vec<(char, u64)>) -> (r: Node)
        requires
            frequency_map.len() > 0,
            freq_total(frequency_map@) <= u64::MAX,
        ensures
            r.wf(),
            r.siblings_ordered(),
            r.leaves() == frequency_map@.to_set(),
            r.spec_freq() == freq_total(frequency_map@),
            huffman_from(leaf_forest(frequency_map@), r),
            r.leaf_count() == frequency_map@.len(),
    {
        let n = frequency_map.len();
        let mut forest: Vec<Node> = Vec::new();
        let mut i: usize = 0;
        while i < n
            invariant
                n == frequency_map@.len(),
                i <= n,
                forest@.len() == i,
                forall|k: int| 0 <= k < i ==> (#[trigger] forest@[k]).wf() && forest@[k].siblings_ordered(),
                forest_total(forest@) == freq_total(frequency_map@.take(i as int)),
                forest_leaves(forest@) == frequency_map@.take(i as int).to_set(),
                forest@ == leaf_forest(frequency_map@).take(i as int),
                forest_leaf_count(forest@) == i,
            decreases n - i,
        {
            let entry = frequency_map[i];
            let leaf = Node::leaf(entry.1, entry.0);
            proof {
                let t = frequency_map@.take(i + 1);
                assert(t.drop_last() =~= frequency_map@.take(i as int));
                lemma_forest_push(forest@, leaf);
                lemma_leaf_leaves(entry.1, entry.0);
                lemma_to_set_push(frequency_map@.take(i as int), entry);
                assert(frequency_map@.take(i as int).push(entry) =~= t);
                assert(entry == frequency_map@[i as int]);
                assert(leaf_forest(frequency_map@)[i as int] == leaf);
                assert(forest@.push(leaf) =~= leaf_forest(frequency_map@).take(i + 1));
            }
            forest.push(leaf);
            i += 1;
        }
        assert(frequency_map@.take(n as int) =~= frequency_map@);
        let ghost total = freq_total(frequency_map@);
        let ghost leaves = frequency_map@.to_set();
        let ghost start = leaf_forest(frequency_map@);
        let ghost mut done: Seq<(int, int)> = Seq::empty();
        assert(start.len() == n);
        assert(start.take(n as int) =~= start);
        assert(forest@ =~= start);
        assert forall|rest: Seq<(int, int)>| #[trigger] merge_run(start, done + rest) == merge_run(forest@, rest) by {
            assert(done + rest =~= rest);
        }
        while forest.len() > 1
            invariant
                forest@.len() >= 1,
                forall|rest: Seq<(int, int)>| #[trigger] merge_run(start, done + rest) == merge_run(forest@, rest),
                forall|k: int| 0 <= k < forest@.len() ==> (#[trigger] forest@[k]).wf() && forest@[k].siblings_ordered(),
                forest_total(forest@) == total,
                forest_leaf_count(forest@) == n,
                n == frequency_map@.len(),
                forest_leaves(forest@) == leaves,
                total <= u64::MAX,
            decreases forest.len(),
        {
            let ghost s0 = forest@;
            let a = take_min(&mut forest);
            let ghost s1 = forest@;
            let b = take_min(&mut forest);
            let ghost s2 = forest@;
            proof {
                let i0 = choose|i: int| 0 <= i < s0.len() && a == s0[i] && s1 == s0.remove(i);
                lemma_forest_remove(s0, i0);
                let i1 = choose|i: int| 0 <= i < s1.len() && b == s1[i] && s2 == s1.remove(i);
                lemma_forest_remove(s1, i1);
                assert(a.wf() && a.siblings_ordered());
                assert(b.wf() && b.siblings_ordered());
                assert(a.spec_freq() <= s1[i1].spec_freq());
                assert forall|k: int| 0 <= k < s2.len() implies (#[trigger] s2[k]).wf() && s2[k].siblings_ordered() by {
                    if k < i1 { assert(s2[k] == s1[k]); } else { assert(s2[k] == s1[k + 1]); }
                    let k1 = if k < i1 { k } else { k + 1 };
                    if k1 < i0 { assert(s1[k1] == s0[k1]); } else { assert(s1[k1] == s0[k1 + 1]); }
                }
            }
            let joined = Node::join(a, b);
            proof {
                lemma_forest_push(s2, joined);
                assert(forest_leaves(s2.push(joined)) =~= leaves);
                let i0 = choose|i: int| 0 <= i < s0.len() && a == s0[i] && s1 == s0.remove(i);
                let i1 = choose|i: int| 0 <= i < s1.len() && b == s1[i] && s2 == s1.remove(i);
                assert(joined == merged(s0[i0], s0.remove(i0)[i1]));
                let pick = (i0, i1);
                assert(merge_step_ok(s0, i0, i1));
                assert(merge_step(s0, i0, i1) == s2.push(joined));
                assert forall|rest: Seq<(int, int)>| #[trigger] merge_run(start, done.push(pick) + rest) == merge_run(s2.push(joined), rest) by {
                    assert(done.push(pick) + rest =~= done + (seq![pick] + rest));
                    assert((seq![pick] + rest).skip(1) =~= rest);
                    assert((seq![pick] + rest)[0] == pick);
                }
                done = done.push(pick);
            }
            forest.push(joined);
        }
        let ghost last = forest@;
        let root = forest.remove(0);
        proof {
            assert(last =~= seq![root]);
            assert(last.drop_last() =~= Seq::<Node>::empty());
            assert(forest_total(last.drop_last()) == 0);
            assert(forest_leaf_count(last.drop_last()) == 0);
            assert(last.last() == root);
            assert forall|e: (char, u64)| root.leaves().contains(e) implies forest_leaves(last).contains(e) by {
                assert(last[0] == root);
            }
            assert(forest_leaves(last) =~= root.leaves());
            assert(done + Seq::<(int, int)>::empty() =~= done);
            assert(merge_run(start, done) == Some(root));
        }
        root
    }
    /// Appends the codes of the leaves below `tree` to `code_map`, depth first and left
    /// before right, each path starting from `string`.
    pub fn assign_codes(&self, tree: &Node, code_map: &mut Vec<(char, Vec<u32>)>, string: Vec<u32>)
        ensures
            table_view(final(code_map)@) == table_view(old(code_map)@) + tree.code_list(string@),
        decreases tree,
    {
        match tree {
            Node::Leaf { symbol, .. } => {
                let ghost before = code_map@;
                code_map.push((*symbol, string));
                assert(table_view(code_map@) =~= table_view(before) + tree.code_list(string@));
            },
            Node::Internal { left, right, .. } => {
                let ghost before = code_map@;
                let mut zero = string.clone();
                assert(zero@ =~= string@);
                zero.push(0);
                self.assign_codes(left, code_map, zero);
                let mut one = string;
                one.push(1);
                self.assign_codes(right, code_map, one);
                assert(table_view(code_map@) =~= table_view(before) + tree.code_list(string@));
            },
        }
    }

    /// Expands the message through the code table, pads it with zero bits to a whole
    /// number of bytes (a full byte when it already is one), remembers the padding, and
    /// appends the 32-bit checksum of the payload, least significant bit first.
    pub fn encode_string(&mut self, message: &String, char_code_map: &Vec<(char, Vec<u32>)>) -> (r: Vec<u32>)
        requires
            forall|k: int|
                0 <= k < message@.len() ==> (#[trigger] lookup(table_view(char_code_map@), message@[k])) is Some,
        ensures
            final(self).tree() == old(self).tree(),
            final(self).padding_bits() == padding_len(encode_bits(table_view(char_code_map@), message@).len()),
            r@ == frame(encode_bits(table_view(char_code_map@), message@)),
    {
        let ghost tv = table_view(char_code_map@);
        let chars = chars_of(message.as_str());
        let n = chars.len();
        let mut encoded_message: Vec<u32> = Vec::new();
        let mut checksum: u64 = 0;
        let mut byte_index: usize = 0;
        let mut weight: u64 = 1;
        proof {
            lemma2_to64();
        }
        let mut i: usize = 0;
        while i < n
            invariant
                n == chars@.len(),
                chars@ == message@,
                i <= n,
                tv == table_view(char_code_map@),
                forall|k: int| 0 <= k < message@.len() ==> (#[trigger] lookup(tv, message@[k])) is Some,
                encoded_message@ == encode_bits(tv, chars@.take(i as int)),
                checksum == weighted_sum(encoded_message@),
                byte_index == encoded_message@.len() % 8,
                weight == pow2(byte_index as nat),
            decreases n - i,
        {
            let j = find_code(char_code_map, chars[i]).unwrap();
            let code = &char_code_map[j].1;
            let ghost start = encoded_message@;
            let mut k: usize = 0;
            while k < code.len()
                invariant
                    encoded_message@ == start + code@.take(k as int),
                    k <= code@.len(),
                    checksum == weighted_sum(encoded_message@),
                    byte_index == encoded_message@.len() % 8,
                    weight == pow2(byte_index as nat),
                decreases code.len() - k,
            {
                let bit = code[k];
                let value: u64 = if bit == 0 {
                    0
                } else {
                    1
                };
                proof {
                    lemma_weighted_sum_bound(encoded_message@);
                    lemma2_to64();
                    assert(encoded_message@.push(bit).drop_last() =~= encoded_message@);
                    assert(start + code@.take(k + 1) =~= encoded_message@.push(bit));
                }
                encoded_message.push(bit);
                checksum = (checksum + value * weight) % CHECK_MODULUS;
                if byte_index == 7 {
                    byte_index = 0;
                    weight = 1;
                } else {
                    proof {
                        lemma_pow2_unfold((byte_index + 1) as nat);
                    }
                    byte_index += 1;
                    weight = weight * 2;
                }
                k += 1;
            }
            proof {
                let m = chars@.take(i + 1);
                assert(m.drop_last() =~= chars@.take(i as int));
                assert(code@.take(k as int) =~= code@);
            }
            i += 1;
        }
        assert(chars@.take(n as int) =~= chars@);
        let ghost payload = encoded_message@;
        self.padding = 8 - (encoded_message.len() % 8);
        let mut p: usize = 0;
        while p < self.padding
            invariant
                encoded_message@ == payload + zeros(p as nat),
                p <= self.padding,
                self.padding == padding_len(payload.len()),
            decreases self.padding - p,
        {
            assert(payload + zeros((p + 1) as nat) =~= encoded_message@.push(0));
            encoded_message.push(0);
            p += 1;
        }
        let ghost padded = encoded_message@;
        let mut rest: u64 = checksum;
        let mut b: usize = 0;
        while b < CHECK_BITS
            invariant
                b <= CHECK_BITS,
                encoded_message@ + low_bits(rest as nat, (CHECK_BITS - b) as nat) == padded + low_bits(checksum as nat, CHECK_BITS as nat),
            decreases CHECK_BITS - b,
        {
            assert(low_bits(rest as nat, (CHECK_BITS - b) as nat) =~= seq![(rest % 2) as u32] + low_bits((rest / 2) as nat, (CHECK_BITS - b - 1) as nat));
            assert(encoded_message@.push((rest % 2) as u32) + low_bits((rest / 2) as nat, (CHECK_BITS - b - 1) as nat)
                =~= encoded_message@ + low_bits(rest as nat, (CHECK_BITS - b) as nat));
            encoded_message.push((rest % 2) as u32);
            rest = rest / 2;
            b += 1;
        }
        assert(encoded_message@ + low_bits(rest as nat, 0) =~= encoded_message@);
        encoded_message
    }
    /// Builds the tree of the message, derives its code table and encodes the message:
    /// the codes of its symbols, zero padding to a whole number of bytes, and the 32-bit
    /// checksum. The tree and the padding length are kept for `decode`.
    pub fn encode(&mut self, message: String) -> (r: Vec<u32>)
        requires
            message@.len() > 0,
        ensures
            final(self).ready(),
            final(self).tree()->0.wf(),
            final(self).tree()->0.siblings_ordered(),
            final(self).tree()->0.spec_freq() == message@.len(),
            is_huffman_tree_of(final(self).tree()->0, message@),
            forall|c: char, f: u64|
                #[trigger] final(self).tree()->0.leaves().contains((c, f)) <==> (occurrences(message@, c) > 0
                    && f == occurrences(message@, c)),
            r@ == frame(encode_bits(final(self).tree()->0.code_table(), message@)),
            final(self).padding_bits() == padding_len(
                encode_bits(final(self).tree()->0.code_table(), message@).len(),
            ),
    {
        let frequency_map = self.create_frequency_map(&message);
        let ghost table = frequency_map@;
        proof {
            lemma_occurs(message@, 0);
            assert(usize::MAX <= u64::MAX);
        }
        let root = self.build_tree(frequency_map);
        let mut char_code_map: Vec<(char, Vec<u32>)> = Vec::new();
        let mut start: Vec<u32> = Vec::new();
        if let Node::Leaf { .. } = &root {
            start.push(0);
        }
        assert(start@ =~= root.root_prefix());
        self.assign_codes(&root, &mut char_code_map, start);
        proof {
            let tv = table_view(char_code_map@);
            assert(tv =~= root.code_table());
            assert forall|c: char, f: u64| #[trigger] root.leaves().contains((c, f)) <==> (
                occurrences(message@, c) > 0 && f == occurrences(message@, c)) by {
                if root.leaves().contains((c, f)) {
                    assert(table.to_set().contains((c, f)));
                    let k = choose|k: int| 0 <= k < table.len() && table[k] == (c, f);
                    assert(table[k].1 == occurrences(message@, table[k].0));
                }
                if occurrences(message@, c) > 0 && f == occurrences(message@, c) {
                    let k = choose|k: int| 0 <= k < table.len() && #[trigger] table[k].0 == c;
                    assert(table[k] == (c, f));
                    assert(table.to_set().contains((c, f)));
                }
            }
            assert forall|k: int| 0 <= k < message@.len() implies (#[trigger] lookup(
                tv,
                message@[k],
            )) is Some by {
                let c = message@[k];
                lemma_occurs(message@, k);
                let i = choose|i: int| 0 <= i < table.len() && #[trigger] table[i].0 == c;
                assert(root.leaves().contains((c, table[i].1)));
                lemma_code_list_covers(root, root.root_prefix(), c);
                let j = choose|j: int| 0 <= j < tv.len() && #[trigger] tv[j].0 == c;
                lemma_lookup_found(tv, c, j);
            }
        }
        let encoded = self.encode_string(&message, &char_code_map);
        self.root = Some(root);
        encoded
    }

    /// Checks a received stream. Under 40 bits it is invalid, with both sums zero.
    /// Otherwise the payload sum (all but the last 32 bits, bit `k` weighing `2^(k % 8)`,
    /// wrapping at 2^32) is compared with the checksum in the last 32 bits (least
    /// significant first); the stream is valid when `1 - min/max` is below 0.5%, or when
    /// both are zero.
    pub fn validate(&self, data: &[u32]) -> (r: (bool, Fidelity))
        ensures
            r == validation(data@),
    {
        let data_len = data.len();
        if data_len < MIN_STREAM_BITS {
            return (false, Fidelity { sum: 0, check: 0 });
        }
        let end = data_len - CHECK_BITS;
        let ghost payload = data@.take(end as int);
        let mut sum: u64 = 0;
        let mut byte_index: usize = 0;
        let mut weight: u64 = 1;
        proof {
            lemma2_to64();
        }
        let mut k: usize = 0;
        while k < end
            invariant
                end == data@.len() - CHECK_BITS,
                payload == data@.take(end as int),
                k <= end,
                sum == weighted_sum(payload.take(k as int)),
                byte_index == k % 8,
                weight == pow2(byte_index as nat),
            decreases end - k,
        {
            let value: u64 = if data[k] == 0 {
                0
            } else {
                1
            };
            proof {
                lemma_weighted_sum_bound(payload.take(k as int));
                lemma2_to64();
                assert(payload.take(k + 1).drop_last() =~= payload.take(k as int));
            }
            sum = (sum + value * weight) % CHECK_MODULUS;
            if byte_index == 7 {
                byte_index = 0;
                weight = 1;
            } else {
                proof {
                    lemma_pow2_unfold((byte_index + 1) as nat);
                }
                byte_index += 1;
                weight = weight * 2;
            }
            k += 1;
        }
        assert(payload.take(end as int) =~= payload);
        let ghost trailer = data@.skip(end as int);
        let mut check: u64 = 0;
        let mut i: usize = CHECK_BITS;
        proof {
            assert(trailer.skip(CHECK_BITS as int) =~= Seq::<u32>::empty());
        }
        while i > 0
            invariant
                i <= CHECK_BITS,
                data_len == data@.len(),
                end + CHECK_BITS == data@.len(),
                trailer == data@.skip(end as int),
                check == bits_value(trailer.skip(i as int)),
            decreases i,
        {
            i -= 1;
            let value: u64 = if data[end + i] == 0 {
                0
            } else {
                1
            };
            proof {
                assert(trailer.skip(i as int).skip(1) =~= trailer.skip(i + 1));
                lemma_bits_value_bound(trailer.skip(i + 1));
                lemma2_to64();
                if CHECK_BITS - i - 1 < 31 {
                    lemma_pow2_strictly_increases((CHECK_BITS - i - 1) as nat, 31);
                }
            }
            check = check * 2 + value;
        }
        proof {
            assert(trailer.skip(0) =~= trailer);
            lemma_bits_value_bound(trailer);
            lemma_weighted_sum_bound(payload);
            lemma2_to64();
        }
        let fidelity = Fidelity { sum: sum as u32, check: check as u32 };
        (fidelity.is_tolerable(), fidelity)
    }

    /// Decodes a payload by walking the tree from the root for each symbol: 0 goes left,
    /// any other value right, and a leaf gives its symbol. `None` when the payload ends
    /// inside a code.
    pub fn decode_string(&self, encoded_message: &[u32]) -> (r: Option<String>)
        requires
            self.tree() is Some,
        ensures
            match r {
                Some(s) => self.tree()->0.decode_at(encoded_message@, 0, Seq::empty()) == Some(s@),
                None => self.tree()->0.decode_at(encoded_message@, 0, Seq::empty()) is None,
            },
    {
        let root = match &self.root {
            Some(root) => root,
            None => return None,
        };
        assert(self.tree() == Some(*root));
        let len = encoded_message.len();
        let mut decoded_chars: Vec<char> = Vec::new();
        let mut pos: usize = 0;
        while pos < len
            invariant
                len == encoded_message@.len(),
                self.tree() == Some(*root),
                pos <= len,
                root.decode_at(encoded_message@, pos as int, decoded_chars@) == root.decode_at(
                    encoded_message@,
                    0,
                    Seq::empty(),
                ),
            decreases len - pos,
        {
            match root.read_symbol(encoded_message, pos) {
                Some((c, next)) => {
                    if next == pos {
                        assert(root.decode_at(encoded_message@, pos as int, decoded_chars@) is None);

                        return None;
                    }
                    decoded_chars.push(c);
                    pos = next;
                },
                None => {
                    assert(root.decode_at(encoded_message@, pos as int, decoded_chars@) is None);

                    return None;
                },
            }
        }
        Some(string_of(&decoded_chars))
    }

    /// Validates a received stream and, when it passes, strips the checksum and the
    /// padding of the last encoding and decodes the rest with the tree of that encoding.
    /// A stream that fails validation is reported invalid whether or not there is a tree.
    pub fn decode(&self, encoded_message: &[u32]) -> (r: Decoded)
        ensures
            r@ == decode_outcome(self.tree(), self.padding_bits(), encoded_message@),
    {
        let (valid, fidelity) = self.validate(encoded_message);
        if !valid {
            return Decoded::Invalid { fidelity };
        }
        if self.root.is_none() {
            return Decoded::NoTree { fidelity };
        }
        if encoded_message.len() - CHECK_BITS < self.padding {
            return Decoded::Unframed { fidelity };
        }
        let end = encoded_message.len() - CHECK_BITS - self.padding;
        let payload = &encoded_message[0..end];
        assert(payload@ =~= encoded_message@.take(end as int));
        match self.decode_string(payload) {
            Some(message) => Decoded::Validated { message, fidelity },
            None => Decoded::Unframed { fidelity },
        }
    }
}

} // verus!

verus! {

/// Reading from the root at the start of a code of the table gives that code's symbol
/// and moves past the code, which is never empty.
pub proof fn lemma_read_table_code(t: Node, k: int, bits: Seq<u32>, pos: int)
    requires
        0 <= k < t.code_table().len(),
        0 <= pos,
        pos + t.code_table()[k].1.len() <= bits.len(),
        bits.subrange(pos, pos + t.code_table()[k].1.len()) == t.code_table()[k].1,
    ensures
        t.code_table()[k].1.len() >= 1,
        t.read_symbol_at(bits, pos) == Some(
            (t.code_table()[k].0, pos + t.code_table()[k].1.len()),
        ),
{
    let code = t.code_table()[k].1;
    match t {
        Node::Leaf { .. } => {},
        Node::Internal { .. } => {
            lemma_codes_extend(t, Seq::empty());
            assert forall|j: int| 0 <= j < code.len() implies bits[pos + j] == code[j] by {
                assert(bits.subrange(pos, pos + code.len())[j] == bits[pos + j]);
            }
            lemma_read_code(t, Seq::empty(), k, bits, pos);
        },
    }
}

/// Decoding, from `pos` on, bits that are the encoding of `m` appends `m`.
pub proof fn lemma_decode_encoded(t: Node, m: Seq<char>, bits: Seq<u32>, pos: int, acc: Seq<char>)
    requires
        forall|k: int| 0 <= k < m.len() ==> (#[trigger] lookup(t.code_table(), m[k])) is Some,
        0 <= pos,
        bits.len() == pos + encode_bits(t.code_table(), m).len(),
        bits.subrange(pos, bits.len() as int) == encode_bits(t.code_table(), m),
    ensures
        t.decode_at(bits, pos, acc) == Some(acc + m),
    decreases m.len(),
{
    let tbl = t.code_table();
    if m.len() == 0 {
        assert(acc + m =~= acc);
    } else {
        let c = m[0];
        let rest = m.skip(1);
        assert(seq![c] + rest =~= m);
        lemma_encode_bits_append(tbl, seq![c], rest);
        assert(seq![c].drop_last() =~= Seq::<char>::empty());
        assert(lookup(tbl, m[0]) is Some);
        let code = lookup(tbl, c)->0;
        assert(seq![c].last() == c);
        assert(encode_bits(tbl, Seq::<char>::empty()) =~= Seq::<u32>::empty());
        assert(encode_bits(tbl, seq![c]) =~= code);
        lemma_lookup_entry(tbl, c);
        let k = choose|k: int| 0 <= k < tbl.len() && #[trigger] tbl[k] == (c, code);
        let enc = encode_bits(tbl, m);
        assert(bits.subrange(pos, pos + code.len()) =~= code) by {
            assert forall|j: int| 0 <= j < code.len() implies bits.subrange(pos, pos + code.len())[j]
                == code[j] by {
                assert(bits.subrange(pos, bits.len() as int)[j] == enc[j]);
            }
        }
        lemma_read_table_code(t, k, bits, pos);
        let next = pos + code.len();
        assert(bits.subrange(next, bits.len() as int) =~= encode_bits(tbl, rest)) by {
            assert forall|j: int| 0 <= j < encode_bits(tbl, rest).len() implies bits.subrange(
                next,
                bits.len() as int,
            )[j] == encode_bits(tbl, rest)[j] by {
                assert(bits.subrange(pos, bits.len() as int)[code.len() + j] == enc[code.len() + j]);
            }
        }
        assert forall|j: int| 0 <= j < rest.len() implies (#[trigger] lookup(tbl, rest[j])) is Some by {
            assert(rest[j] == m[j + 1]);
        }
        lemma_decode_encoded(t, rest, bits, next, acc.push(c));
        assert(acc.push(c) + rest =~= acc + m);
    }
}

/// Round trip: encoding a non-empty message with any tree that holds its symbols, then
/// decoding the stream with the same tree and the padding that encoding used, gives back
/// the message, validated, with the recomputed sum equal to the checksum (no loss).
pub proof fn lemma_round_trip(t: Node, m: Seq<char>)
    requires
        m.len() > 0,
        forall|k: int| 0 <= k < m.len() ==> t.holds(#[trigger] m[k]),
    ensures
        ({
            let payload = encode_bits(t.code_table(), m);
            let c = weighted_sum(payload) as u32;
            decode_outcome(Some(t), padding_len(payload.len()), frame(payload)) == Outcome::Validated(
                m,
                Fidelity { sum: c, check: c },
            )
        }),
{
    let tbl = t.code_table();
    assert forall|k: int| 0 <= k < m.len() implies (#[trigger] lookup(tbl, m[k])) is Some by {
        assert(t.holds(m[k]));
        lemma_code_list_covers(t, t.root_prefix(), m[k]);
        let j = choose|j: int| 0 <= j < tbl.len() && #[trigger] tbl[j].0 == m[k];
        lemma_lookup_found(tbl, m[k], j);
    }
    let payload = encode_bits(tbl, m);
    let pad = padding_len(payload.len());
    let c = weighted_sum(payload);
    let s = frame(payload);
    lemma_low_bits_len(c, CHECK_BITS as nat);
    let body = payload + zeros(pad);
    assert(s.len() >= MIN_STREAM_BITS);
    assert(s.take(s.len() - CHECK_BITS) =~= body);
    lemma_weighted_sum_zeros(payload, pad);
    assert(s.skip(s.len() - CHECK_BITS) =~= low_bits(c, CHECK_BITS as nat));
    lemma_weighted_sum_bound(payload);
    lemma2_to64();
    lemma_low_bits_value(c, CHECK_BITS as nat);
    assert(within_tolerance(c, c));
    assert(s.take(s.len() - CHECK_BITS - pad) =~= payload);
    assert(payload.subrange(0, payload.len() as int) =~= payload);
    lemma_decode_encoded(t, m, payload, 0, Seq::empty());
    assert(Seq::<char>::empty() + m =~= m);
}

} // verus!
