//! Code tables: lookup of a symbol's code and the concatenated codes of a message.
use vstd::prelude::*;

verus! {

/// The code table as symbols and bit sequences.
pub open spec fn table_view(t: Seq<(char, Vec<u32>)>) -> Seq<(char, Seq<u32>)> {
    t.map_values(|e: (char, Vec<u32>)| (e.0, e.1@))
}

/// The code of the first entry for `c`, if there is one.
pub open spec fn lookup(t: Seq<(char, Seq<u32>)>, c: char) -> Option<Seq<u32>>
    decreases t.len(),
{
    if t.len() == 0 {
        None
    } else if t[0].0 == c {
        Some(t[0].1)
    } else {
        lookup(t.skip(1), c)
    }
}

/// The codes of the symbols of `m`, concatenated in order.
pub open spec fn encode_bits(t: Seq<(char, Seq<u32>)>, m: Seq<char>) -> Seq<u32>
    decreases m.len(),
{
    if m.len() == 0 {
        Seq::empty()
    } else {
        encode_bits(t, m.drop_last()) + match lookup(t, m.last()) {
            Some(p) => p,
            None => Seq::empty(),
        }
    }
}

pub proof fn lemma_lookup_found(t: Seq<(char, Seq<u32>)>, c: char, k: int)
    requires
        0 <= k < t.len(),
        t[k].0 == c,
    ensures
        lookup(t, c) is Some,
    decreases t.len(),
{
    if t[0].0 != c {
        lemma_lookup_found(t.skip(1), c, k - 1);
    }
}

pub proof fn lemma_lookup_entry(t: Seq<(char, Seq<u32>)>, c: char)
    requires
        lookup(t, c) is Some,
    ensures
        exists|k: int| 0 <= k < t.len() && #[trigger] t[k] == (c, lookup(t, c)->0),
    decreases t.len(),
{
    if t[0].0 != c {
        lemma_lookup_entry(t.skip(1), c);
        let k = choose|k: int| 0 <= k < t.skip(1).len() && #[trigger] t.skip(1)[k] == (c, lookup(t, c)->0);
        assert(t[k + 1] == (c, lookup(t, c)->0));
    } else {
        assert(t[0] == (c, lookup(t, c)->0));
    }
}

/// Index of the first entry of the table for `c`.
pub(crate) fn find_code(table: &Vec<(char, Vec<u32>)>, c: char) -> (r: Option<usize>)
    ensures
        match r {
            Some(j) => j < table@.len() && lookup(table_view(table@), c) == Some(
                table@[j as int].1@,
            ),
            None => lookup(table_view(table@), c) is None,
        },
{
    let ghost tv = table_view(table@);
    let mut j: usize = 0;
    assert(tv.skip(0) =~= tv);
    while j < table.len()
        invariant
            j <= table@.len(),
            tv == table_view(table@),
            lookup(tv, c) == lookup(tv.skip(j as int), c),
        decreases table.len() - j,
    {
        assert(tv.skip(j as int)[0] == tv[j as int]);
        if table[j].0 == c {
            return Some(j);
        }
        assert(tv.skip(j as int).skip(1) =~= tv.skip(j + 1));
        j += 1;
    }
    None
}

pub proof fn lemma_encode_bits_append(t: Seq<(char, Seq<u32>)>, a: Seq<char>, b: Seq<char>)
    ensures
        encode_bits(t, a + b) == encode_bits(t, a) + encode_bits(t, b),
    decreases b.len(),
{
    if b.len() == 0 {
        assert(a + b =~= a);
        assert(encode_bits(t, a) + encode_bits(t, b) =~= encode_bits(t, a));
    } else {
        assert((a + b).drop_last() =~= a + b.drop_last());
        assert((a + b).last() == b.last());
        lemma_encode_bits_append(t, a, b.drop_last());
        assert(encode_bits(t, a + b) =~= encode_bits(t, a) + encode_bits(t, b));
    }
}

} // verus!
