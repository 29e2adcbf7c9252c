//! Cross-function laws of the library, proved over the same spec
//! functions its public contracts use.
use vstd::prelude::*;
use crate::{ColumnLabel, FALSE_COLUMN, TRUE_COLUMN};
use crate::node::{first_index, row_bit};
use crate::graph::{
    Graph, graph_wf, col_resolved, col_bit, col_in_some_node, first_node_with,
    graph_bits, canon_chars, highest_set, lemma_highest_set, adder_rows, and_gate_rows,
};

verus! {

pub open spec fn is_binary_chars(s: Seq<char>) -> bool {
    forall|i: int| 0 <= i < s.len() ==> s[i] == '0' || s[i] == '1'
}

/// The bit sequence a most-significant-first '0'/'1' string denotes,
/// least-significant bit first.
pub open spec fn bits_of_chars(s: Seq<char>) -> Seq<bool> {
    Seq::new(s.len(), |i: int| s[s.len() - 1 - i] == '1')
}

pub open spec fn strip_leading_zeros(s: Seq<char>) -> Seq<char>
    decreases s.len(),
{
    if s.len() == 0 {
        s
    } else if s[0] == '0' {
        strip_leading_zeros(s.drop_first())
    } else {
        s
    }
}

/// A binary string up to leading-zero canonicalization: leading '0'
/// digits dropped, "0" for the all-zero string.
pub open spec fn canon_str(s: Seq<char>) -> Seq<char> {
    if strip_leading_zeros(s).len() == 0 {
        seq!['0']
    } else {
        strip_leading_zeros(s)
    }
}

/// A nonempty string with no leading zero is already canonical.
pub proof fn lemma_canon_str_id(s: Seq<char>)
    requires
        s.len() > 0,
        s[0] != '0',
    ensures
        canon_str(s) == s,
{
}

/// In any initialized well-formed graph the two terminal columns are
/// resolved, to false and true respectively.
pub proof fn lemma_terminal_bits(g: Graph)
    requires
        graph_wf(g),
        g.c >= 2,
    ensures
        col_resolved(g, FALSE_COLUMN),
        col_resolved(g, TRUE_COLUMN),
        col_bit(g, FALSE_COLUMN) == false,
        col_bit(g, TRUE_COLUMN) == true,
{
    let ns = g.n@;
    assert(ns[0].c@ == seq![FALSE_COLUMN]);
    assert(ns[0].c@[0] == FALSE_COLUMN);
    assert(ns[0].c@.contains(FALSE_COLUMN));
    assert(first_node_with(ns, FALSE_COLUMN) == 0);
    assert(col_in_some_node(ns, FALSE_COLUMN));
    assert(first_index(ns[0].c@, FALSE_COLUMN) == 0);
    assert(ns[0].r@[0] == 0u16);
    assert((0u16 >> 0u16) & 1 != 1) by (bit_vector);
    assert(!ns[0].c@.contains(TRUE_COLUMN)) by {
        if ns[0].c@.contains(TRUE_COLUMN) {
            let w = choose|w: int| 0 <= w < ns[0].c@.len() && ns[0].c@[w] == TRUE_COLUMN;
            assert(false);
        }
    }
    assert(ns[1].c@[0] == TRUE_COLUMN);
    assert(ns[1].c@.contains(TRUE_COLUMN));
    assert(ns.drop_first()[0] == ns[1]);
    assert(ns.drop_first()[0].c@.contains(TRUE_COLUMN));
    assert(first_node_with(ns.drop_first(), TRUE_COLUMN) == 0);
    assert(first_node_with(ns, TRUE_COLUMN) == 1);
    assert(col_in_some_node(ns, TRUE_COLUMN));
    assert(first_index(ns[1].c@, TRUE_COLUMN) == 0);
    assert(ns[1].r@[0] == 1u16);
    assert((1u16 >> 0u16) & 1 == 1) by (bit_vector);
}

/// Dropping leading '0' characters leaves the suffix that starts at the
/// most significant true bit.
pub proof fn lemma_strip_vs_highest(s: Seq<char>)
    requires
        is_binary_chars(s),
    ensures
        strip_leading_zeros(s).len() == highest_set(bits_of_chars(s)) + 1,
        strip_leading_zeros(s).len() <= s.len(),
        forall|j: int| 0 <= j < strip_leading_zeros(s).len()
            ==> strip_leading_zeros(s)[j] == s[s.len() - strip_leading_zeros(s).len() + j],
    decreases s.len(),
{
    let bits = bits_of_chars(s);
    if s.len() == 0 {
    } else if s[0] == '0' {
        let s2 = s.drop_first();
        assert(forall|i: int| 0 <= i < s2.len() ==> s2[i] == s[i + 1]);
        assert(is_binary_chars(s2));
        assert(bits_of_chars(s2) =~= bits.drop_last()) by {
            assert forall|i: int| 0 <= i < s2.len() implies bits_of_chars(s2)[i]
                == bits.drop_last()[i] by {
                assert(s2[s2.len() - 1 - i] == s[s.len() - 1 - i]);
            }
        }
        assert(!bits.last());
        lemma_strip_vs_highest(s2);
        assert(strip_leading_zeros(s) == strip_leading_zeros(s2));
        assert forall|j: int| 0 <= j < strip_leading_zeros(s).len()
            implies strip_leading_zeros(s)[j]
            == s[s.len() - strip_leading_zeros(s).len() + j] by {
            assert(strip_leading_zeros(s2)[j]
                == s2[s2.len() - strip_leading_zeros(s2).len() + j]);
            assert(s2[s2.len() - strip_leading_zeros(s2).len() + j]
                == s[s.len() - strip_leading_zeros(s).len() + j]);
        }
    } else {
        assert(bits.last());
        assert(strip_leading_zeros(s) == s);
    }
}

/// Round trip: the columns `register_number` returns for a binary
/// string extract to exactly that string up to leading-zero
/// canonicalization.
pub proof fn lemma_register_extract_round_trip(g: Graph, s: Seq<char>, cols: Seq<ColumnLabel>)
    requires
        graph_wf(g),
        g.c >= 2,
        s.len() > 0,
        is_binary_chars(s),
        cols.len() == s.len(),
        forall|i: int| 0 <= i < cols.len() ==> cols[i]
            == (if s[s.len() - 1 - i] == '1' { TRUE_COLUMN } else { FALSE_COLUMN }),
    ensures
        forall|k: int| 0 <= k < cols.len() ==> col_resolved(g, #[trigger] cols[k]),
        canon_chars(graph_bits(g, cols)) == canon_str(s),
{
    lemma_terminal_bits(g);
    let bits = graph_bits(g, cols);
    assert forall|k: int| 0 <= k < cols.len() implies col_resolved(g, #[trigger] cols[k]) by {
        assert(cols[k] == TRUE_COLUMN || cols[k] == FALSE_COLUMN);
    }
    assert(bits =~= bits_of_chars(s)) by {
        assert forall|i: int| 0 <= i < bits.len() implies bits[i] == bits_of_chars(s)[i] by {
            assert(cols[i] == (if s[s.len() - 1 - i] == '1' { TRUE_COLUMN } else {
                FALSE_COLUMN
            }));
            assert(bits[i] == col_bit(g, cols[i]));
        }
    }
    lemma_strip_vs_highest(s);
    lemma_highest_set(bits_of_chars(s));
    let h = highest_set(bits_of_chars(s));
    if h < 0 {
        assert(canon_chars(bits) == seq!['0']);
        assert(canon_str(s) == seq!['0']);
    } else {
        let st = strip_leading_zeros(s);
        assert(st.len() == h + 1);
        assert(canon_chars(bits) =~= canon_str(s)) by {
            assert forall|i: int| 0 <= i < h + 1 implies canon_chars(bits)[i]
                == canon_str(s)[i] by {
                let x = s.len() - 1 - (h - i);
                assert(s[x] == '0' || s[x] == '1');
                assert(bits[h - i] == (s[x] == '1'));
                assert(canon_str(s)[i] == st[i]);
                assert(st[i] == s[s.len() - st.len() + i]);
            }
        }
    }
}


/// The numeric value of one bit.
pub open spec fn bit_as_int(b: bool) -> int {
    if b {
        1
    } else {
        0
    }
}

/// The full-adder table is total and correct: its eight rows replay
/// the eight input patterns in their high bits, and in every row the
/// low two bits hold the sum and carry of the three input bits.
pub proof fn lemma_adder_rows_semantics()
    ensures
        adder_rows().len() == 8,
        forall|t: int| 0 <= t < 8 ==> ((#[trigger] adder_rows()[t]) >> 2u16) == t as u16,
        forall|t: int| 0 <= t < 8 ==> bit_as_int(row_bit(#[trigger] adder_rows()[t], 0)) + 2
            * bit_as_int(row_bit(adder_rows()[t], 1)) == bit_as_int(row_bit(adder_rows()[t], 2))
            + bit_as_int(row_bit(adder_rows()[t], 3)) + bit_as_int(row_bit(adder_rows()[t], 4)),
{
    assert forall|t: int| 0 <= t < 8 implies ((#[trigger] adder_rows()[t]) >> 2u16) == t as u16
        && bit_as_int(row_bit(adder_rows()[t], 0)) + 2 * bit_as_int(row_bit(adder_rows()[t], 1))
        == bit_as_int(row_bit(adder_rows()[t], 2)) + bit_as_int(row_bit(adder_rows()[t], 3))
        + bit_as_int(row_bit(adder_rows()[t], 4)) by {
        if t == 0 {
            assert(((0u16 >> 2u16) == 0) && ((0u16 >> 0u16) & 1) == 0 && ((0u16 >> 1u16) & 1) == 0 && ((0u16 >> 2u16) & 1) == 0 && ((0u16 >> 3u16) & 1) == 0 && ((0u16 >> 4u16) & 1) == 0) by (bit_vector);
        }
        if t == 1 {
            assert(((5u16 >> 2u16) == 1) && ((5u16 >> 0u16) & 1) == 1 && ((5u16 >> 1u16) & 1) == 0 && ((5u16 >> 2u16) & 1) == 1 && ((5u16 >> 3u16) & 1) == 0 && ((5u16 >> 4u16) & 1) == 0) by (bit_vector);
        }
        if t == 2 {
            assert(((9u16 >> 2u16) == 2) && ((9u16 >> 0u16) & 1) == 1 && ((9u16 >> 1u16) & 1) == 0 && ((9u16 >> 2u16) & 1) == 0 && ((9u16 >> 3u16) & 1) == 1 && ((9u16 >> 4u16) & 1) == 0) by (bit_vector);
        }
        if t == 3 {
            assert(((14u16 >> 2u16) == 3) && ((14u16 >> 0u16) & 1) == 0 && ((14u16 >> 1u16) & 1) == 1 && ((14u16 >> 2u16) & 1) == 1 && ((14u16 >> 3u16) & 1) == 1 && ((14u16 >> 4u16) & 1) == 0) by (bit_vector);
        }
        if t == 4 {
            assert(((17u16 >> 2u16) == 4) && ((17u16 >> 0u16) & 1) == 1 && ((17u16 >> 1u16) & 1) == 0 && ((17u16 >> 2u16) & 1) == 0 && ((17u16 >> 3u16) & 1) == 0 && ((17u16 >> 4u16) & 1) == 1) by (bit_vector);
        }
        if t == 5 {
            assert(((22u16 >> 2u16) == 5) && ((22u16 >> 0u16) & 1) == 0 && ((22u16 >> 1u16) & 1) == 1 && ((22u16 >> 2u16) & 1) == 1 && ((22u16 >> 3u16) & 1) == 0 && ((22u16 >> 4u16) & 1) == 1) by (bit_vector);
        }
        if t == 6 {
            assert(((26u16 >> 2u16) == 6) && ((26u16 >> 0u16) & 1) == 0 && ((26u16 >> 1u16) & 1) == 1 && ((26u16 >> 2u16) & 1) == 0 && ((26u16 >> 3u16) & 1) == 1 && ((26u16 >> 4u16) & 1) == 1) by (bit_vector);
        }
        if t == 7 {
            assert(((31u16 >> 2u16) == 7) && ((31u16 >> 0u16) & 1) == 1 && ((31u16 >> 1u16) & 1) == 1 && ((31u16 >> 2u16) & 1) == 1 && ((31u16 >> 3u16) & 1) == 1 && ((31u16 >> 4u16) & 1) == 1) by (bit_vector);
        }
    }
}

/// The AND-gate table is total and correct: its four rows replay the
/// four input patterns in their high bits, and in every row the low
/// bit is the conjunction of the two input bits.
pub proof fn lemma_and_rows_semantics()
    ensures
        and_gate_rows().len() == 4,
        forall|t: int| 0 <= t < 4 ==> ((#[trigger] and_gate_rows()[t]) >> 1u16) == t as u16,
        forall|t: int| 0 <= t < 4 ==> row_bit(#[trigger] and_gate_rows()[t], 0) == (row_bit(
            and_gate_rows()[t],
            1,
        ) && row_bit(and_gate_rows()[t], 2)),
{
    assert forall|t: int| 0 <= t < 4 implies ((#[trigger] and_gate_rows()[t]) >> 1u16) == t
        as u16 && row_bit(and_gate_rows()[t], 0) == (row_bit(and_gate_rows()[t], 1) && row_bit(
        and_gate_rows()[t],
        2,
    )) by {
        if t == 0 {
            assert(((0u16 >> 1u16) == 0) && ((0u16 >> 0u16) & 1) == 0 && ((0u16 >> 1u16) & 1) == 0 && ((0u16 >> 2u16) & 1) == 0) by (bit_vector);
        }
        if t == 1 {
            assert(((2u16 >> 1u16) == 1) && ((2u16 >> 0u16) & 1) == 0 && ((2u16 >> 1u16) & 1) == 1 && ((2u16 >> 2u16) & 1) == 0) by (bit_vector);
        }
        if t == 2 {
            assert(((4u16 >> 1u16) == 2) && ((4u16 >> 0u16) & 1) == 0 && ((4u16 >> 1u16) & 1) == 0 && ((4u16 >> 2u16) & 1) == 1) by (bit_vector);
        }
        if t == 3 {
            assert(((7u16 >> 1u16) == 3) && ((7u16 >> 0u16) & 1) == 1 && ((7u16 >> 1u16) & 1) == 1 && ((7u16 >> 2u16) & 1) == 1) by (bit_vector);
        }
    }
}

} // verus!
