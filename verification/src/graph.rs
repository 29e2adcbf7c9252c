//! The graph: owner of the node arena, the derived link index and the
//! column counter, with the circuit-construction and extraction
//! operators.
use vstd::prelude::*;
use crate::{NodeLabel, ColumnLabel, RowEntry, FALSE_COLUMN, TRUE_COLUMN};
use crate::lists::{ColumnLabelList, RowEntryList, LinkList};
use crate::node::{Node, NodeList, row_bit, distinct_cols, first_index, lemma_first_index,
    normalize_node};

verus! {

/// Owner of the node list, the derived link list and the column counter.
pub struct Graph {
    pub n: NodeList,
    pub l: LinkList,
    pub c: ColumnLabel,
}

/// The permanent one-row node asserting the false terminal column.
pub open spec fn is_false_node(nd: Node) -> bool {
    nd.n == 0 && nd.c@ == seq![FALSE_COLUMN] && nd.r@ == seq![0u16] && nd.a
}

/// The permanent one-row node asserting the true terminal column.
pub open spec fn is_true_node(nd: Node) -> bool {
    nd.n == 1 && nd.c@ == seq![TRUE_COLUMN] && nd.r@ == seq![1u16] && nd.a
}

/// Structural invariant of one stored node: normalized scope of bounded
/// width, every scope column already allocated.
pub open spec fn node_ok(nd: Node, c: ColumnLabel) -> bool {
    &&& 1 <= nd.c@.len() <= 16
    &&& distinct_cols(nd.c@)
    &&& forall|k: int| 0 <= k < nd.c@.len() ==> nd.c@[k] < c
}

/// Well-formedness of a graph: node positions are identities, scopes are
/// normalized and name allocated columns only, and once initialized the
/// two terminal nodes sit at positions 0 and 1.
pub open spec fn graph_wf(g: Graph) -> bool {
    &&& g.n@.len() <= g.c as int
    &&& forall|i: int| 0 <= i < g.n@.len() ==> (#[trigger] g.n@[i]).n == i as u32
    &&& forall|i: int| 0 <= i < g.n@.len() ==> node_ok(#[trigger] g.n@[i], g.c)
    &&& g.c == 0 ==> g.n@.len() == 0
    &&& g.c != 0 ==> g.c >= 2 && g.n@.len() >= 2 && is_false_node(g.n@[0]) && is_true_node(g.n@[1])
}

/// The column counter after the lazy first initialization.
pub open spec fn base_c(g: Graph) -> int {
    if g.c == 0 {
        2
    } else {
        g.c as int
    }
}

/// The node count after the lazy first initialization.
pub open spec fn base_n(g: Graph) -> int {
    if g.c == 0 {
        2
    } else {
        g.n@.len() as int
    }
}

/// `h`'s nodes begin with the nodes `g` has after lazy initialization:
/// construction only ever appends nodes.
pub open spec fn extends(g: Graph, h: Graph) -> bool {
    if g.c == 0 {
        h.n@.len() >= 2 && is_false_node(h.n@[0]) && is_true_node(h.n@[1])
    } else {
        h.n@.len() >= g.n@.len() && h.n@.take(g.n@.len() as int) == g.n@
    }
}

/// The four algebraic AND shortcuts that allocate nothing: identical
/// inputs, a false input, a true input.
pub open spec fn and_is_shortcut(a: ColumnLabel, b: ColumnLabel) -> bool {
    a == b || a == FALSE_COLUMN || b == FALSE_COLUMN || a == TRUE_COLUMN || b == TRUE_COLUMN
}

/// The column an AND shortcut folds to.
pub open spec fn and_shortcut_value(a: ColumnLabel, b: ColumnLabel) -> ColumnLabel {
    if a == b {
        a
    } else if a == FALSE_COLUMN || b == FALSE_COLUMN {
        FALSE_COLUMN
    } else if a == TRUE_COLUMN {
        b
    } else {
        a
    }
}

/// Truth table of an AND gate with scope `[out, a, b]`: packed rows
/// `(e << 1) | (bit1(e) & bit0(e))` for the input pattern `e` in `0..4`.
pub open spec fn and_gate_rows() -> Seq<RowEntry> {
    seq![0u16, 2u16, 4u16, 7u16]
}

/// Truth table of a full adder with scope `[sum, carry, a, b, c]`:
/// packed rows `(e << 2) | popcount(e)` for the input pattern `e` in
/// `0..8` — the low two bits hold parity and majority of the inputs.
pub open spec fn adder_rows() -> Seq<RowEntry> {
    seq![0u16, 5u16, 9u16, 14u16, 17u16, 22u16, 26u16, 31u16]
}

/// Position of the first node whose scope mentions `cl`; `ns.len()`
/// when no node does.
pub open spec fn first_node_with(ns: Seq<Node>, cl: ColumnLabel) -> int
    decreases ns.len(),
{
    if ns.len() == 0 {
        0
    } else if ns[0].c@.contains(cl) {
        0
    } else {
        1 + first_node_with(ns.drop_first(), cl)
    }
}

pub open spec fn col_in_some_node(ns: Seq<Node>, cl: ColumnLabel) -> bool {
    exists|i: int| 0 <= i < ns.len() && (#[trigger] ns[i]).c@.contains(cl)
}

pub proof fn lemma_first_node_with(ns: Seq<Node>, cl: ColumnLabel)
    ensures
        0 <= first_node_with(ns, cl) <= ns.len(),
        col_in_some_node(ns, cl) ==> first_node_with(ns, cl) < ns.len()
            && ns[first_node_with(ns, cl)].c@.contains(cl),
        forall|j: int| 0 <= j < first_node_with(ns, cl) ==> !ns[j].c@.contains(cl),
        !col_in_some_node(ns, cl) ==> first_node_with(ns, cl) == ns.len(),
    decreases ns.len(),
{
    if ns.len() == 0 {
    } else if ns[0].c@.contains(cl) {
        assert(col_in_some_node(ns, cl));
    } else {
        let d = ns.drop_first();
        lemma_first_node_with(d, cl);
        assert(forall|j: int| 0 <= j < d.len() ==> d[j] == ns[j + 1]);
        if col_in_some_node(ns, cl) {
            let w = choose|w: int| 0 <= w < ns.len() && (#[trigger] ns[w]).c@.contains(cl);
            assert(d[w - 1] == ns[w]);
            assert(col_in_some_node(d, cl));
        }
        if col_in_some_node(d, cl) {
            let w = choose|w: int| 0 <= w < d.len() && (#[trigger] d[w]).c@.contains(cl);
            assert(ns[w + 1] == d[w]);
            assert(col_in_some_node(ns, cl));
        }
        assert forall|j: int| 0 <= j < first_node_with(ns, cl) implies !ns[j].c@.contains(cl) by {
            if j > 0 {
                assert(ns[j] == d[j - 1]);
            }
        }
    }
}

/// A column is resolved when the first node whose scope mentions it has
/// collapsed to exactly one admissible row.
pub open spec fn col_resolved(g: Graph, cl: ColumnLabel) -> bool {
    col_in_some_node(g.n@, cl) && g.n@[first_node_with(g.n@, cl)].r@.len() == 1
}

/// The value a resolved column is fixed to: the bit at the column's
/// scope offset in the single remaining row of the first node that
/// mentions it.
pub open spec fn col_bit(g: Graph, cl: ColumnLabel) -> bool {
    let nd = g.n@[first_node_with(g.n@, cl)];
    row_bit(nd.r@[0], first_index(nd.c@, cl))
}

/// The resolved values of a whole column list, positionally.
pub open spec fn graph_bits(g: Graph, cols: Seq<ColumnLabel>) -> Seq<bool> {
    Seq::new(cols.len(), |i: int| col_bit(g, cols[i]))
}

pub open spec fn char_of_bit(b: bool) -> char {
    if b {
        '1'
    } else {
        '0'
    }
}

/// Index of the most significant true bit; `-1` when all are false.
pub open spec fn highest_set(bits: Seq<bool>) -> int
    decreases bits.len(),
{
    if bits.len() == 0 {
        -1
    } else if bits.last() {
        bits.len() - 1
    } else {
        highest_set(bits.drop_last())
    }
}

pub proof fn lemma_highest_set(bits: Seq<bool>)
    ensures
        -1 <= highest_set(bits) < bits.len(),
        highest_set(bits) >= 0 ==> bits[highest_set(bits)],
        forall|j: int| highest_set(bits) < j < bits.len() ==> !bits[j],
    decreases bits.len(),
{
    if bits.len() > 0 && !bits.last() {
        lemma_highest_set(bits.drop_last());
        assert(forall|j: int| 0 <= j < bits.len() - 1 ==> bits.drop_last()[j] == bits[j]);
    }
}

/// The canonical textual form of a bit sequence given least-significant
/// first: most significant digit first, leading zeros suppressed, "0"
/// for an all-false sequence.
pub open spec fn canon_chars(bits: Seq<bool>) -> Seq<char> {
    let h = highest_set(bits);
    if h < 0 {
        seq!['0']
    } else {
        Seq::new((h + 1) as nat, |i: int| char_of_bit(bits[h - i]))
    }
}

/// The text produced after the `k` most significant positions have been
/// scanned: still empty while only false bits have been seen.
pub open spec fn partial_chars(bits: Seq<bool>, k: int) -> Seq<char> {
    let h = highest_set(bits);
    if h < bits.len() - k {
        Seq::<char>::empty()
    } else {
        Seq::new((h - (bits.len() - k) + 1) as nat, |i: int| char_of_bit(bits[h - i]))
    }
}

/// The node standing in the arena for an AND gate of `a` and `b`
/// whose output is column `out`.
pub open spec fn and_node_for(nd: Node, out: ColumnLabel, a: ColumnLabel, b: ColumnLabel) -> bool {
    nd.c@ == seq![out, a, b] && nd.r@ == and_gate_rows() && nd.a
}

/// What a switched-number call returns, pinned against the graph it
/// leaves behind: `o` false-terminal columns, then per input bit the
/// folded shortcut column, or the output column of an AND gate node
/// that now stands in the arena.
pub open spec fn switched_result_ok(
    g: Graph,
    iv: Seq<ColumnLabel>,
    s: ColumnLabel,
    o: int,
    r: Seq<ColumnLabel>,
) -> bool {
    &&& r.len() == o + iv.len()
    &&& forall|k: int| 0 <= k < o ==> r[k] == FALSE_COLUMN
    &&& forall|k: int| o <= k < r.len() && #[trigger] and_is_shortcut(iv[k - o], s)
        ==> r[k] == and_shortcut_value(iv[k - o], s)
    &&& forall|k: int| o <= k < r.len() && !(#[trigger] and_is_shortcut(iv[k - o], s))
        ==> exists|t: int| 0 <= t < g.n@.len() && #[trigger] and_node_for(
            g.n@[t],
            r[k],
            iv[k - o],
            s,
        )
}

/// How a graph changes under any construction operator: either untouched,
/// or initialized and extended, with the node arena growing append-only
/// and the column counter never shrinking.
pub open spec fn evolves(g: Graph, h: Graph) -> bool {
    ||| h == g
    ||| (extends(g, h) && h.c >= 2 && h.c as int >= base_c(g) && h.n@.len() as int >= base_n(g))
}

pub proof fn lemma_evolves_trans(a: Graph, b: Graph, c: Graph)
    requires
        evolves(a, b),
        evolves(b, c),
        graph_wf(b),
    ensures
        evolves(a, c),
{
    if b == a || c == b {
    } else {
        lemma_extends_trans(a, b, c);
        assert(base_c(b) == b.c as int);
        assert(base_n(b) == b.n@.len() as int);
    }
}

pub proof fn lemma_extends_trans(a: Graph, b: Graph, c: Graph)
    requires
        extends(a, b),
        b.c != 0,
        graph_wf(b),
        extends(b, c),
    ensures
        extends(a, c),
{
    assert(forall|i: int| 0 <= i < b.n@.len() ==> c.n@.take(b.n@.len() as int)[i] == c.n@[i]);
    if a.c == 0 {
        assert(c.n@[0] == b.n@[0]);
        assert(c.n@[1] == b.n@[1]);
    } else {
        assert(b.n@.take(a.n@.len() as int) == a.n@);
        assert forall|i: int| 0 <= i < a.n@.len() implies c.n@.take(a.n@.len() as int)[i]
            == a.n@[i] by {
            assert(c.n@[i] == b.n@[i]);
            assert(b.n@[i] == a.n@[i]);
        }
        assert(c.n@.take(a.n@.len() as int) =~= a.n@);
    }
}

impl Graph {
    /// A graph with no columns and no nodes; the terminals appear on the
    /// first allocation.
    pub fn new() -> (r: Graph)
        ensures
            r.c == 0,
            r.n@ == Seq::<Node>::empty(),
            r.l@.len() == 0,
            graph_wf(r),
    {
        Graph { n: NodeList::new(), l: LinkList::new(), c: 0 }
    }

    /// Create the two terminal columns and their one-row nodes.
    pub fn init(&mut self)
        requires
            old(self).c == 0,
            graph_wf(*old(self)),
        ensures
            graph_wf(*final(self)),
            final(self).c == 2,
            final(self).n@.len() == 2,
            is_false_node(final(self).n@[0]),
            is_true_node(final(self).n@[1]),
            final(self).l == old(self).l,
    {
        // false terminal
        let nl: NodeLabel = self.n.count() as NodeLabel;
        let mut ccl = ColumnLabelList::new();
        ccl.add(FALSE_COLUMN);
        let mut rel = RowEntryList::new();
        rel.add(0);
        self.n.add(Node { n: nl, c: ccl, r: rel, a: true });
        // true terminal
        let nl: NodeLabel = self.n.count() as NodeLabel;
        let mut ccl = ColumnLabelList::new();
        ccl.add(TRUE_COLUMN);
        let mut rel = RowEntryList::new();
        rel.add(1);
        self.n.add(Node { n: nl, c: ccl, r: rel, a: true });
        self.c = 2;
        proof {
            assert(self.n@.len() == 2);
            assert(self.n@[0] == self.n@.drop_last()[0]);
            assert(is_false_node(self.n@[0]));
            assert(is_true_node(self.n@[1]));
        }
    }

    /// Allocate the next free column label, initializing the terminals
    /// first if this is the very first allocation.
    pub fn get_new_column_label(&mut self) -> (r: ColumnLabel)
        requires
            graph_wf(*old(self)),
            old(self).c < u32::MAX,
        ensures
            graph_wf(*final(self)),
            r as int == base_c(*old(self)),
            final(self).c as int == base_c(*old(self)) + 1,
            final(self).n@.len() as int == base_n(*old(self)),
            extends(*old(self), *final(self)),
            evolves(*old(self), *final(self)),
            final(self).l == old(self).l,
            old(self).c != 0 ==> final(self).n == old(self).n,
    {
        if self.c == 0 {
            self.init();
        }
        let r = self.c;
        self.c = self.c + 1;
        proof {
            if old(self).c != 0 {
                assert(self.n@.take(old(self).n@.len() as int) =~= old(self).n@);
            }
        }
        r
    }

    /// Allocate a fresh column constrained only to be boolean: a new
    /// one-scope node with both rows admissible.
    pub fn register_var(&mut self) -> (r: ColumnLabel)
        requires
            graph_wf(*old(self)),
            old(self).c < u32::MAX,
        ensures
            graph_wf(*final(self)),
            evolves(*old(self), *final(self)),
            r as int == base_c(*old(self)),
            final(self).c as int == base_c(*old(self)) + 1,
            final(self).n@.len() as int == base_n(*old(self)) + 1,
            final(self).l == old(self).l,
            final(self).n@.last().n as int == base_n(*old(self)),
            final(self).n@.last().c@ == seq![r],
            final(self).n@.last().r@ == seq![0u16, 1u16],
            final(self).n@.last().a,
    {
        let cl = self.get_new_column_label();
        let ghost mid = *self;
        let nl: NodeLabel = self.n.count() as NodeLabel;
        let mut ccl = ColumnLabelList::new();
        ccl.add(cl);
        let mut rel = RowEntryList::new();
        rel.add(0);
        rel.add(1);
        proof {
            assert(ccl@ =~= seq![cl]);
            assert(rel@ =~= seq![0u16, 1u16]);
            assert(distinct_cols(ccl@));
        }
        self.n.add(Node { n: nl, c: ccl, r: rel, a: true });
        proof {
            assert(forall|i: int|
                0 <= i < mid.n@.len() ==> self.n@[i] == #[trigger] mid.n@[i]);
            assert(self.n@.take(mid.n@.len() as int) =~= mid.n@);
            lemma_extends_trans(*old(self), mid, *self);
            assert(node_ok(self.n@.last(), self.c));
            assert forall|i: int|
                0 <= i < self.n@.len() implies node_ok(#[trigger] self.n@[i], self.c)
                && self.n@[i].n == i as u32 by {
                if i < self.n@.len() - 1 {
                    assert(self.n@[i] == mid.n@[i]);
                    assert(node_ok(mid.n@[i], mid.c));
                }
            }
            assert(is_false_node(self.n@[0]));
            assert(is_true_node(self.n@[1]));
        }
        cl
    }

    /// The column standing for the constant bit `b`: one of the two
    /// terminal columns; allocates nothing beyond the lazy
    /// initialization.
    pub fn register_bit(&mut self, b: bool) -> (r: ColumnLabel)
        requires
            graph_wf(*old(self)),
        ensures
            graph_wf(*final(self)),
            evolves(*old(self), *final(self)),
            r == (if b { TRUE_COLUMN } else { FALSE_COLUMN }),
            final(self).c as int == base_c(*old(self)),
            final(self).n@.len() as int == base_n(*old(self)),
            final(self).l == old(self).l,
            old(self).c != 0 ==> *final(self) == *old(self),
    {
        if self.c == 0 {
            self.init();
        }
        proof {
            if old(self).c != 0 {
                assert(self.n@.take(old(self).n@.len() as int) =~= old(self).n@);
            }
        }
        if b {
            TRUE_COLUMN
        } else {
            FALSE_COLUMN
        }
    }

    /// Register a number given as a '0'/'1' string, most-significant
    /// digit first; the result lists one terminal column per digit,
    /// least-significant first.
    pub fn register_number(&mut self, n: String) -> (r: ColumnLabelList)
        requires
            graph_wf(*old(self)),
            forall|i: int| 0 <= i < n@.len() ==> n@[i] == '0' || n@[i] == '1',
        ensures
            graph_wf(*final(self)),
            evolves(*old(self), *final(self)),
            final(self).l == old(self).l,
            n@.len() == 0 ==> *final(self) == *old(self),
            n@.len() > 0 ==> final(self).c as int == base_c(*old(self))
                && final(self).n@.len() as int == base_n(*old(self)),
            r@.len() == n@.len(),
            forall|i: int| 0 <= i < r@.len() ==> r@[i]
                == (if n@[n@.len() - 1 - i] == '1' { TRUE_COLUMN } else { FALSE_COLUMN }),
    {
        let len = n.unicode_len();
        let mut l = ColumnLabelList::new();
        let mut k: usize = 0;
        while k < len
            invariant
                graph_wf(*self),
                evolves(*old(self), *self),
                self.l == old(self).l,
                len == n@.len(),
                k <= len,
                forall|i: int| 0 <= i < n@.len() ==> n@[i] == '0' || n@[i] == '1',
                k == 0 ==> *self == *old(self),
                k > 0 ==> self.c as int == base_c(*old(self))
                    && self.n@.len() as int == base_n(*old(self)),
                l@.len() == k,
                forall|i: int| 0 <= i < k ==> l@[i]
                    == (if n@[len - 1 - i] == '1' { TRUE_COLUMN } else { FALSE_COLUMN }),
            decreases len - k,
        {
            let ghost pre = *self;
            let ch = n.get_char(len - 1 - k);
            if ch == '0' {
                let cl = self.register_bit(false);
                l.add(cl);
            } else {
                let cl = self.register_bit(true);
                l.add(cl);
            }
            k = k + 1;
            proof {
                lemma_evolves_trans(*old(self), pre, *self);
            }
        }
        l
    }

    /// AND of two columns.  The four algebraic shortcuts fold without
    /// touching the graph; otherwise one fresh output column and one
    /// four-row gate node are allocated.
    pub fn register_and(&mut self, a: ColumnLabel, b: ColumnLabel) -> (r: ColumnLabel)
        requires
            graph_wf(*old(self)),
            (a as int) < base_c(*old(self)),
            (b as int) < base_c(*old(self)),
            old(self).c < u32::MAX,
        ensures
            graph_wf(*final(self)),
            evolves(*old(self), *final(self)),
            final(self).l == old(self).l,
            and_is_shortcut(a, b) ==> *final(self) == *old(self)
                && r == and_shortcut_value(a, b),
            !and_is_shortcut(a, b) ==> r == old(self).c
                && final(self).c as int == old(self).c + 1
                && final(self).n@.len() == old(self).n@.len() + 1
                && final(self).n@.last().n as int == old(self).n@.len()
                && final(self).n@.last().a
                && final(self).n@.last().c@ == seq![r, a, b]
                && final(self).n@.last().r@ == and_gate_rows(),
    {
        if a == b {
            return a;
        }
        if a == FALSE_COLUMN || b == FALSE_COLUMN {
            return FALSE_COLUMN;
        }
        if a == TRUE_COLUMN {
            return b;
        }
        if b == TRUE_COLUMN {
            return a;
        }
        let cl_o = self.get_new_column_label();
        let ghost mid = *self;
        let nl: NodeLabel = self.n.count() as NodeLabel;
        let mut ccl = ColumnLabelList::new();
        ccl.add(cl_o);
        ccl.add(a);
        ccl.add(b);
        let mut rel = RowEntryList::new();
        // (e << 1) | (bit1(e) & bit0(e)) for e in 0..4
        rel.add(0);
        rel.add(2);
        rel.add(4);
        rel.add(7);
        proof {
            assert(ccl@ =~= seq![cl_o, a, b]);
            assert(rel@ =~= and_gate_rows());
            assert(distinct_cols(ccl@));
        }
        self.n.add(Node { n: nl, c: ccl, r: rel, a: true });
        proof {
            assert(forall|i: int|
                0 <= i < mid.n@.len() ==> self.n@[i] == #[trigger] mid.n@[i]);
            assert(self.n@.take(mid.n@.len() as int) =~= mid.n@);
            lemma_extends_trans(*old(self), mid, *self);
            assert(node_ok(self.n@.last(), self.c));
            assert forall|i: int|
                0 <= i < self.n@.len() implies node_ok(#[trigger] self.n@[i], self.c)
                && self.n@[i].n == i as u32 by {
                if i < self.n@.len() - 1 {
                    assert(self.n@[i] == mid.n@[i]);
                    assert(node_ok(mid.n@[i], mid.c));
                }
            }
            assert(is_false_node(self.n@[0]));
            assert(is_true_node(self.n@[1]));
        }
        cl_o
    }

    /// Full adder over exactly three input columns; allocates the carry
    /// and sum columns and one eight-row node, and returns
    /// `[carry, sum]`.
    pub fn register_adder(&mut self, i: &ColumnLabelList) -> (r: ColumnLabelList)
        requires
            graph_wf(*old(self)),
            i@.len() == 3,
            forall|k: int| 0 <= k < i@.len() ==> (i@[k] as int) < base_c(*old(self)),
            base_c(*old(self)) + 2 <= u32::MAX as int,
        ensures
            graph_wf(*final(self)),
            evolves(*old(self), *final(self)),
            final(self).l == old(self).l,
            final(self).c as int == base_c(*old(self)) + 2,
            final(self).n@.len() as int == base_n(*old(self)) + 1,
            r@.len() == 2,
            r@[0] as int == base_c(*old(self)),
            r@[1] as int == base_c(*old(self)) + 1,
            final(self).n@.last().n as int == base_n(*old(self)),
            final(self).n@.last().a,
            distinct_cols(final(self).n@.last().c@),
            final(self).n@.last().c@.len() <= 5,
            final(self).n@.last().r@.len() <= 8,
            forall|x: ColumnLabel| final(self).n@.last().c@.contains(x)
                <==> (x == r@[1] || x == r@[0] || i@.contains(x)),
            final(self).n@.last().c@.contains(r@[0]),
            final(self).n@.last().c@.contains(r@[1]),
            forall|w: int| 0 <= w < i@.len()
                ==> final(self).n@.last().c@.contains(#[trigger] i@[w]),
            distinct_cols(i@) ==> final(self).n@.last().c@
                == seq![r@[1] as ColumnLabel, r@[0] as ColumnLabel, i@[0], i@[1], i@[2]]
                && final(self).n@.last().r@ == adder_rows(),
            final(self).n@.last().c@ == normalize_node(
                seq![r@[1] as ColumnLabel, r@[0] as ColumnLabel, i@[0], i@[1], i@[2]],
                adder_rows(),
            ).0,
            final(self).n@.last().r@ == normalize_node(
                seq![r@[1] as ColumnLabel, r@[0] as ColumnLabel, i@[0], i@[1], i@[2]],
                adder_rows(),
            ).1,
    {
        let cl_c = self.get_new_column_label();
        let ghost mid1 = *self;
        let cl_s = self.get_new_column_label();
        proof {
            lemma_evolves_trans(*old(self), mid1, *self);
        }
        let ghost mid = *self;
        let nl: NodeLabel = self.n.count() as NodeLabel;
        let mut ccl = ColumnLabelList::new();
        ccl.add(cl_s);
        ccl.add(cl_c);
        ccl.add(i.get(0));
        ccl.add(i.get(1));
        ccl.add(i.get(2));
        let mut rel = RowEntryList::new();
        // (e << 2) | popcount(e) for e in 0..8
        rel.add(0);
        rel.add(5);
        rel.add(9);
        rel.add(14);
        rel.add(17);
        rel.add(22);
        rel.add(26);
        rel.add(31);
        let ghost cv = ccl@;
        proof {
            assert(cv =~= seq![cl_s, cl_c, i@[0], i@[1], i@[2]]);
            assert(rel@ =~= adder_rows());
        }
        self.n.add(Node { n: nl, c: ccl, r: rel, a: true });
        let mut o = ColumnLabelList::new();
        o.add(cl_c);
        o.add(cl_s);
        proof {
            assert(forall|i: int|
                0 <= i < mid.n@.len() ==> self.n@[i] == #[trigger] mid.n@[i]);
            assert(self.n@.take(mid.n@.len() as int) =~= mid.n@);
            assert(extends(mid, *self));
            lemma_evolves_trans(*old(self), mid, *self);
            let nd = self.n@.last();
            assert forall|x: ColumnLabel| nd.c@.contains(x)
                implies (x == cl_s || x == cl_c || i@.contains(x)) by {
                assert(cv.contains(x));
                let w2 = choose|w2: int| 0 <= w2 < cv.len() && cv[w2] == x;
                if w2 >= 2 {
                    assert(i@[w2 - 2] == x);
                }
            }
            assert forall|x: ColumnLabel| (x == cl_s || x == cl_c || i@.contains(x))
                implies nd.c@.contains(x) by {
                if i@.contains(x) {
                    let w = choose|w: int| 0 <= w < i@.len() && i@[w] == x;
                    assert(cv[w + 2] == x);
                }
                assert(cv.contains(x));
            }
            if distinct_cols(i@) {
                assert(distinct_cols(cv));
            }
            assert(o@ =~= seq![cl_c, cl_s]);
            assert(cv[0] == cl_s && cv.contains(cl_s));
            assert(cv[1] == cl_c && cv.contains(cl_c));
            assert(self.n@.last().c@.contains(cl_s));
            assert(self.n@.last().c@.contains(cl_c));
            assert forall|w: int| 0 <= w < i@.len()
                implies self.n@.last().c@.contains(#[trigger] i@[w]) by {
                assert(cv[w + 2] == i@[w]);
                assert(cv.contains(i@[w]));
            }
            assert forall|k: int| 0 <= k < nd.c@.len() implies (#[trigger] nd.c@[k]) < self.c by {
                let x = nd.c@[k];
                assert(nd.c@.contains(x));
                if !(x == cl_s || x == cl_c) {
                    assert(i@.contains(x));
                    let w = choose|w: int| 0 <= w < i@.len() && i@[w] == x;
                    assert((i@[w] as int) < base_c(*old(self)));
                }
            }
            assert(nd.c@.contains(cl_s));
            assert(node_ok(nd, self.c));
            assert forall|j: int|
                0 <= j < self.n@.len() implies node_ok(#[trigger] self.n@[j], self.c)
                && self.n@[j].n == j as u32 by {
                if j < self.n@.len() - 1 {
                    assert(self.n@[j] == mid.n@[j]);
                    assert(node_ok(mid.n@[j], mid.c));
                }
            }
            assert(is_false_node(self.n@[0]));
            assert(is_true_node(self.n@[1]));
        }
        o
    }

    /// One multiplication partial product: `o` false-terminal columns of
    /// left shift, then one AND gate of each input column with the
    /// selector `s`.
    pub fn register_switched_number(&mut self, i: &ColumnLabelList, s: ColumnLabel, o: usize)
        -> (r: ColumnLabelList)
        requires
            graph_wf(*old(self)),
            forall|k: int| 0 <= k < i@.len() ==> (i@[k] as int) < base_c(*old(self)),
            (s as int) < base_c(*old(self)),
            base_c(*old(self)) + i@.len() <= u32::MAX as int,
            o + i@.len() <= usize::MAX,
        ensures
            graph_wf(*final(self)),
            evolves(*old(self), *final(self)),
            final(self).l == old(self).l,
            old(self).c as int <= final(self).c as int,
            base_c(*final(self)) <= base_c(*old(self)) + i@.len(),
            r@.len() == o + i@.len(),
            forall|k: int| 0 <= k < o ==> r@[k] == FALSE_COLUMN,
            forall|k: int| 0 <= k < r@.len() ==> (r@[k] as int) < base_c(*final(self)),
            forall|k: int| o <= k < r@.len() && and_is_shortcut(i@[k - o], s)
                ==> r@[k] == and_shortcut_value(i@[k - o], s),
            switched_result_ok(*final(self), i@, s, o as int, r@),
            (forall|k: int| 0 <= k < i@.len() ==> and_is_shortcut(#[trigger] i@[k], s))
                ==> *final(self) == *old(self),
    {
        let mut l = ColumnLabelList::new();
        let mut z: usize = 0;
        while z < o
            invariant
                z <= o,
                l@.len() == z,
                forall|k: int| 0 <= k < z ==> l@[k] == FALSE_COLUMN,
            decreases o - z,
        {
            l.add(FALSE_COLUMN);
            z = z + 1;
        }
        let len = i.count();
        let mut k: usize = 0;
        while k < len
            invariant
                graph_wf(*self),
                evolves(*old(self), *self),
                self.l == old(self).l,
                len == i@.len(),
                k <= len,
                o + len <= usize::MAX,
                forall|j: int| 0 <= j < i@.len() ==> (i@[j] as int) < base_c(*old(self)),
                (s as int) < base_c(*old(self)),
                base_c(*old(self)) + i@.len() <= u32::MAX as int,
                old(self).c as int <= self.c as int,
                base_c(*self) <= base_c(*old(self)) + k,
                l@.len() == o + k,
                forall|j: int| 0 <= j < o ==> l@[j] == FALSE_COLUMN,
                forall|j: int| 0 <= j < l@.len() ==> (l@[j] as int) < base_c(*self),
                forall|j: int| o <= j < l@.len() && and_is_shortcut(i@[j - o], s)
                    ==> l@[j] == and_shortcut_value(i@[j - o], s),
                forall|j: int| o <= j < l@.len() && !(#[trigger] and_is_shortcut(i@[j - o], s))
                    ==> exists|t: int| 0 <= t < self.n@.len() && #[trigger] and_node_for(
                        self.n@[t],
                        l@[j],
                        i@[j - o],
                        s,
                    ),
                (forall|j: int| 0 <= j < k ==> and_is_shortcut(#[trigger] i@[j], s))
                    ==> *self == *old(self),
            decreases len - k,
        {
            let ghost pre = *self;
            let cl = self.register_and(i.get(k), s);
            l.add(cl);
            k = k + 1;
            proof {
                lemma_evolves_trans(*old(self), pre, *self);
                assert(base_c(*self) <= base_c(pre) + 1);
                if !and_is_shortcut(i@[k - 1], s) {
                    assert(pre.c != 0);
                    assert(self.n@.take(pre.n@.len() as int) == pre.n@);
                    assert(forall|t: int|
                        0 <= t < pre.n@.len() ==> self.n@[t] == #[trigger] pre.n@[t]);
                    assert(and_node_for(self.n@[self.n@.len() - 1], cl, i@[k - 1], s));
                } else {
                    assert(*self == pre);
                }
                assert forall|j: int| o <= j < l@.len() && !(#[trigger] and_is_shortcut(
                    i@[j - o],
                    s,
                )) implies exists|t: int| 0 <= t < self.n@.len() && #[trigger] and_node_for(
                    self.n@[t],
                    l@[j],
                    i@[j - o],
                    s,
                ) by {
                    if j < l@.len() - 1 {
                        let t0 = choose|t0: int|
                            0 <= t0 < pre.n@.len() && #[trigger] and_node_for(
                                pre.n@[t0],
                                l@[j],
                                i@[j - o],
                                s,
                            );
                        assert(self.n@[t0] == pre.n@[t0]);
                        assert(and_node_for(self.n@[t0], l@[j], i@[j - o], s));
                    } else {
                        assert(l@[j] == cl);
                        assert(j - o == k - 1);
                        assert(and_node_for(self.n@[self.n@.len() - 1], l@[j], i@[j - o], s));
                    }
                }
            }
        }
        l
    }

    /// The resolved truth value of one column: the bit the first node
    /// mentioning the column fixes it to.
    pub fn extract_bit(&self, cl: ColumnLabel) -> (r: bool)
        requires
            graph_wf(*self),
            col_resolved(*self, cl),
        ensures
            r == col_bit(*self, cl),
    {
        let count = self.n.count();
        let mut i: usize = 0;
        while i < count
            invariant
                graph_wf(*self),
                col_resolved(*self, cl),
                count == self.n@.len(),
                i <= count,
                forall|j: int| 0 <= j < i ==> !(#[trigger] self.n@[j]).c@.contains(cl),
            decreases count - i,
        {
            let nd = self.n.get(i);
            let clen = nd.c.count();
            let mut offset: usize = 0;
            while offset < clen
                invariant
                    *nd == self.n@[i as int],
                    i < count,
                    count == self.n@.len(),
                    graph_wf(*self),
                    col_resolved(*self, cl),
                    forall|j: int| 0 <= j < i ==> !(#[trigger] self.n@[j]).c@.contains(cl),
                    clen == nd.c@.len(),
                    offset <= clen,
                    forall|k: int| 0 <= k < offset ==> nd.c@[k] != cl,
                decreases clen - offset,
            {
                if nd.c.get(offset) == cl {
                    proof {
                        assert(nd.c@[offset as int] == cl);
                        assert(nd.c@.contains(cl));
                        lemma_first_node_with(self.n@, cl);
                        assert(first_node_with(self.n@, cl) == i as int);
                        lemma_first_index(nd.c@, cl);
                        assert(first_index(nd.c@, cl) == offset as int);
                    }
                    let re = nd.r.get(0);
                    let off16: u16 = offset as u16;
                    proof {
                        assert(((re & (1u16 << off16)) != 0) == (((re >> off16) & 1) == 1))
                            by (bit_vector)
                            requires
                                off16 < 16,
                        ;
                    }
                    return (re & (1u16 << off16)) != 0;
                }
                offset = offset + 1;
            }
            proof {
                assert(!self.n@[i as int].c@.contains(cl)) by {
                    if self.n@[i as int].c@.contains(cl) {
                        let w = choose|w: int|
                            0 <= w < nd.c@.len() && nd.c@[w] == cl;
                        assert(false);
                    }
                }
            }
            i = i + 1;
        }
        proof {
            lemma_first_node_with(self.n@, cl);
            assert(false);
        }
        vstd::pervasive::unreached()
    }

    /// Read a number back out of the graph: the columns are given
    /// least-significant first, the text comes out most-significant
    /// first with leading zeros suppressed, "0" for zero.
    pub fn extract_number(&self, l: &ColumnLabelList) -> (r: String)
        requires
            graph_wf(*self),
            l@.len() > 0,
            forall|k: int| 0 <= k < l@.len() ==> col_resolved(*self, #[trigger] l@[k]),
        ensures
            r@ == canon_chars(graph_bits(*self, l@)),
    {
        let ghost bits = graph_bits(*self, l@);
        let mut s = String::from_str("");
        let mut started = false;
        proof {
            reveal_strlit("");
            assert(s@ =~= Seq::<char>::empty());
            lemma_highest_set(bits);
        }
        let len = l.count();
        let mut k: usize = 0;
        while k < len
            invariant
                graph_wf(*self),
                forall|j: int| 0 <= j < l@.len() ==> col_resolved(*self, #[trigger] l@[j]),
                len == l@.len(),
                len > 0,
                k <= len,
                bits == graph_bits(*self, l@),
                bits.len() == len,
                started == (s@.len() > 0),
                s@ == partial_chars(bits, k as int),
            decreases len - k,
        {
            let col = len - 1 - k;
            let cl = l.get(col);
            let v = self.extract_bit(cl);
            proof {
                lemma_highest_set(bits);
                assert(v == bits[col as int]);
            }
            if v || started {
                if v {
                    s.append("1");
                } else {
                    s.append("0");
                }
                started = true;
                proof {
                    reveal_strlit("1");
                    reveal_strlit("0");
                    assert(s@ =~= partial_chars(bits, k + 1));
                }
            } else {
                proof {
                    let h = highest_set(bits);
                    if h == col as int {
                        assert(bits[h]);
                        assert(false);
                    }
                    assert(s@ =~= partial_chars(bits, k + 1));
                }
            }
            k = k + 1;
        }
        if !started {
            proof {
                reveal_strlit("0");
                lemma_highest_set(bits);
            }
            s.append("0");
            proof {
                assert(s@ =~= canon_chars(bits));
            }
        } else {
            proof {
                lemma_highest_set(bits);
                assert(s@ =~= canon_chars(bits));
            }
        }
        s
    }
}

} // verus!
