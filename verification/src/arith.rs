//! Arithmetic composition: ripple-carry addition and partial-product
//! multiplication over transient column sequences (least-significant
//! bit first).
use vstd::prelude::*;
use crate::{ColumnLabel, FALSE_COLUMN};
use crate::lists::ColumnLabelList;
use crate::node::{Node, distinct_cols, normalize_node};
use crate::graph::{
    Graph, graph_wf, base_c, base_n, evolves, extends, lemma_evolves_trans, adder_rows,
    switched_result_ok,
};

verus! {

pub open spec fn max_int(a: int, b: int) -> int {
    if a >= b {
        a
    } else {
        b
    }
}

pub open spec fn min_int(a: int, b: int) -> int {
    if a <= b {
        a
    } else {
        b
    }
}

/// Columns `mul_numbers` may allocate at most: one AND gate per partial
/// product bit, plus two columns per adder position over all pairwise
/// reduction rounds.
pub open spec fn mul_budget(al: int, bl: int) -> int {
    let x = max_int(al, bl);
    let y = min_int(al, bl);
    x * y + 2 * (x + 2 * y + 1) * y
}

/// The first adder input at position `k` of a ripple-carry chain: the
/// available operand bit, the other operand standing in once exhausted.
pub open spec fn chain_in1(av: Seq<ColumnLabel>, bv: Seq<ColumnLabel>, k: int) -> ColumnLabel {
    if k < av.len() {
        av[k]
    } else {
        bv[k]
    }
}

/// The second adder input at position `k`: the second operand's bit
/// while both operands still have one, the false terminal afterwards.
pub open spec fn chain_in2(av: Seq<ColumnLabel>, bv: Seq<ColumnLabel>, k: int) -> ColumnLabel {
    if k < av.len() && k < bv.len() {
        bv[k]
    } else {
        FALSE_COLUMN
    }
}

/// The carry column feeding position `k`: the false terminal at the
/// least significant position, the previous adder's carry above it.
pub open spec fn chain_carry(basec: int, k: int) -> ColumnLabel {
    if k == 0 {
        FALSE_COLUMN
    } else {
        (basec + 2 * (k - 1)) as ColumnLabel
    }
}

/// The node position `k` of a ripple-carry chain holds: a full adder
/// over the position's two operand bits and incoming carry, its sum
/// and carry columns fresh; with the exact five-column scope and
/// eight-row table whenever the three inputs are distinct.
pub open spec fn adder_node_ok(
    nd: Node,
    basec: int,
    basen: int,
    av: Seq<ColumnLabel>,
    bv: Seq<ColumnLabel>,
    k: int,
) -> bool {
    let s = (basec + 2 * k + 1) as ColumnLabel;
    let cc = (basec + 2 * k) as ColumnLabel;
    let i1 = chain_in1(av, bv, k);
    let i2 = chain_in2(av, bv, k);
    let i3 = chain_carry(basec, k);
    &&& nd.n as int == basen + k
    &&& nd.a
    &&& forall|x: ColumnLabel| nd.c@.contains(x)
        <==> (x == s || x == cc || x == i1 || x == i2 || x == i3)
    &&& (i1 != i2 && i1 != i3 && i2 != i3) ==> nd.c@ == seq![s, cc, i1, i2, i3]
        && nd.r@ == adder_rows()
    &&& nd.c@ == normalize_node(seq![s, cc, i1, i2, i3], adder_rows()).0
    &&& nd.r@ == normalize_node(seq![s, cc, i1, i2, i3], adder_rows()).1
}

/// The operand that drives the partial-product offsets: the wider of
/// the two (ties keep the first).
pub open spec fn longer_operand(av: Seq<ColumnLabel>, bv: Seq<ColumnLabel>) -> Seq<ColumnLabel> {
    if av.len() < bv.len() {
        bv
    } else {
        av
    }
}

/// The operand whose bits select the partial products: the shorter of
/// the two.
pub open spec fn shorter_operand(av: Seq<ColumnLabel>, bv: Seq<ColumnLabel>) -> Seq<ColumnLabel> {
    if av.len() < bv.len() {
        av
    } else {
        bv
    }
}

/// A column sequence that came out of a ripple-carry addition whose
/// chain still stands in the arena: fresh sum columns below a final
/// carry, one pinned adder node per position, over some earlier-built
/// operand sequences.
pub open spec fn last_add_shape(
    g0: Graph,
    g: Graph,
    r: Seq<ColumnLabel>,
    bc: int,
    bn: int,
    opa: Seq<ColumnLabel>,
    opb: Seq<ColumnLabel>,
) -> bool {
    &&& base_c(g0) <= bc
    &&& bn >= 0
    &&& opa.len() > 0
    &&& opb.len() > 0
    &&& r.len() == max_int(opa.len() as int, opb.len() as int) + 1
    &&& bn + r.len() - 1 <= g.n@.len()
    &&& forall|k: int| 0 <= k < r.len() - 1 ==> (#[trigger] r[k]) as int == bc + 2 * k + 1
    &&& r.last() as int == bc + 2 * (r.len() - 1) - 2
    &&& forall|k: int| 0 <= k < r.len() - 1 ==> adder_node_ok(
        #[trigger] g.n@[bn + k],
        bc,
        bn,
        opa,
        opb,
        k,
    )
}

pub open spec fn from_last_add(g0: Graph, g: Graph, r: Seq<ColumnLabel>) -> bool {
    exists|bc: int, bn: int, opa: Seq<ColumnLabel>, opb: Seq<ColumnLabel>|
        #[trigger] last_add_shape(g0, g, r, bc, bn, opa, opb)
}

/// Appending nodes does not disturb an addition chain already built.
pub proof fn lemma_from_last_add_grow(g0: Graph, g1: Graph, g2: Graph, r: Seq<ColumnLabel>)
    requires
        from_last_add(g0, g1, r),
        graph_wf(g1),
        g1.c != 0,
        extends(g1, g2),
    ensures
        from_last_add(g0, g2, r),
{
    let (bc, bn, opa, opb) = choose|bc: int, bn: int, opa: Seq<ColumnLabel>, opb: Seq<
        ColumnLabel,
    >| #[trigger] last_add_shape(g0, g1, r, bc, bn, opa, opb);
    assert(forall|t: int| 0 <= t < g1.n@.len() ==> g2.n@[t] == #[trigger] g1.n@[t]);
    assert forall|k: int| 0 <= k < r.len() - 1 implies adder_node_ok(
        #[trigger] g2.n@[bn + k],
        bc,
        bn,
        opa,
        opb,
        k,
    ) by {
        assert(g2.n@[bn + k] == g1.n@[bn + k]);
    }
    assert(last_add_shape(g0, g2, r, bc, bn, opa, opb));
}

/// One operand sequence during multiplication reduction: wide enough,
/// narrow enough, and naming allocated columns only.
pub open spec fn number_ok(n: ColumnLabelList, cbound: int, minlen: int, lenbound: int) -> bool {
    &&& n@.len() >= minlen
    &&& n@.len() <= lenbound
    &&& forall|t: int| 0 <= t < n@.len() ==> (n@[t] as int) < cbound
}

impl Graph {
    /// Ripple-carry addition of two numbers of possibly unequal width;
    /// the missing bits of the shorter operand read the false terminal.
    /// The result is one column wider than the wider operand and ends
    /// with the final carry.
    pub fn add_numbers(&mut self, a: &ColumnLabelList, b: &ColumnLabelList) -> (r: ColumnLabelList)
        requires
            graph_wf(*old(self)),
            a@.len() > 0,
            b@.len() > 0,
            forall|k: int| 0 <= k < a@.len() ==> (a@[k] as int) < base_c(*old(self)),
            forall|k: int| 0 <= k < b@.len() ==> (b@[k] as int) < base_c(*old(self)),
            base_c(*old(self)) + 2 * (a@.len() + b@.len()) <= u32::MAX as int,
        ensures
            graph_wf(*final(self)),
            evolves(*old(self), *final(self)),
            final(self).l == old(self).l,
            final(self).c != 0,
            r@.len() == max_int(a@.len() as int, b@.len() as int) + 1,
            final(self).c as int == base_c(*old(self))
                + 2 * max_int(a@.len() as int, b@.len() as int),
            final(self).n@.len() as int == base_n(*old(self))
                + max_int(a@.len() as int, b@.len() as int),
            forall|k: int| 0 <= k < r@.len() - 1 ==> r@[k] as int
                == base_c(*old(self)) + 2 * k + 1,
            r@.last() as int == base_c(*old(self)) + 2 * (r@.len() - 1) - 2,
            forall|k: int| 0 <= k < r@.len() ==> (r@[k] as int) < final(self).c as int,
            forall|k: int| 0 <= k < max_int(a@.len() as int, b@.len() as int)
                ==> adder_node_ok(
                #[trigger] final(self).n@[base_n(*old(self)) + k],
                base_c(*old(self)),
                base_n(*old(self)),
                a@,
                b@,
                k,
            ),
    {
        let ghost alen = a@.len() as int;
        let ghost blen = b@.len() as int;
        let mut ia: usize = 0;
        let mut ib: usize = 0;
        let mut l = ColumnLabelList::new();
        let mut c: ColumnLabel = FALSE_COLUMN;
        while ia < a.count() || ib < b.count()
            invariant
                graph_wf(*self),
                evolves(*old(self), *self),
                self.l == old(self).l,
                alen == a@.len(),
                blen == b@.len(),
                alen > 0,
                blen > 0,
                ia <= alen,
                ib <= blen,
                ia == ib || (ia > ib && ib == blen) || (ib > ia && ia == alen),
                forall|k: int| 0 <= k < a@.len() ==> (a@[k] as int) < base_c(*old(self)),
                forall|k: int| 0 <= k < b@.len() ==> (b@[k] as int) < base_c(*old(self)),
                base_c(*old(self)) + 2 * (alen + blen) <= u32::MAX as int,
                max_int(ia as int, ib as int) == 0 ==> *self == *old(self)
                    && c == FALSE_COLUMN,
                max_int(ia as int, ib as int) > 0 ==> self.c as int
                    == base_c(*old(self)) + 2 * max_int(ia as int, ib as int)
                    && self.n@.len() as int == base_n(*old(self)) + max_int(ia as int, ib as int)
                    && c as int == base_c(*old(self)) + 2 * max_int(ia as int, ib as int) - 2,
                l@.len() == max_int(ia as int, ib as int),
                forall|k: int| 0 <= k < l@.len() ==> l@[k] as int
                    == base_c(*old(self)) + 2 * k + 1,
                forall|k: int| 0 <= k < max_int(ia as int, ib as int) ==> adder_node_ok(
                    #[trigger] self.n@[base_n(*old(self)) + k],
                    base_c(*old(self)),
                    base_n(*old(self)),
                    a@,
                    b@,
                    k,
                ),
            decreases alen + blen - ia - ib,
        {
            let ghost pre = *self;
            let mut i = ColumnLabelList::new();
            if ia < a.count() && ib < b.count() {
                i.add(a.get(ia));
                i.add(b.get(ib));
                ia = ia + 1;
                ib = ib + 1;
            } else if ia < a.count() {
                i.add(a.get(ia));
                i.add(FALSE_COLUMN);
                ia = ia + 1;
            } else {
                i.add(b.get(ib));
                i.add(FALSE_COLUMN);
                ib = ib + 1;
            }
            i.add(c);
            let ghost k0 = max_int(ia as int, ib as int) - 1;
            let ghost iv = i@;
            proof {
                assert(iv =~= seq![
                    chain_in1(a@, b@, k0),
                    chain_in2(a@, b@, k0),
                    chain_carry(base_c(*old(self)), k0),
                ]);
            }
            let o = self.register_adder(&i);
            c = o.get(0);
            l.add(o.get(1));
            proof {
                lemma_evolves_trans(*old(self), pre, *self);
                let basec = base_c(*old(self));
                let basen = base_n(*old(self));
                assert(forall|t: int|
                    0 <= t < pre.n@.len() ==> self.n@[t] == #[trigger] pre.n@[t]);
                let nd = self.n@[basen + k0];
                assert(nd == self.n@.last());
                assert(o@[0] as int == basec + 2 * k0);
                assert(o@[1] as int == basec + 2 * k0 + 1);
                assert forall|x: ColumnLabel| nd.c@.contains(x) implies (x == (basec + 2 * k0
                    + 1) as ColumnLabel || x == (basec + 2 * k0) as ColumnLabel || x
                    == chain_in1(a@, b@, k0) || x == chain_in2(a@, b@, k0) || x == chain_carry(
                    basec,
                    k0,
                )) by {
                    if x != o@[1] && x != o@[0] {
                        assert(iv.contains(x));
                        let w = choose|w: int| 0 <= w < iv.len() && iv[w] == x;
                        assert(x == iv[0] || x == iv[1] || x == iv[2]);
                    }
                }
                assert forall|x: ColumnLabel| (x == (basec + 2 * k0 + 1) as ColumnLabel || x
                    == (basec + 2 * k0) as ColumnLabel || x == chain_in1(a@, b@, k0) || x
                    == chain_in2(a@, b@, k0) || x == chain_carry(basec, k0)) implies nd.c@
                    .contains(x) by {
                    if x == o@[1] || x == o@[0] {
                        assert(self.n@.last().c@.contains(x));
                    } else if x == chain_in1(a@, b@, k0) {
                        assert(x == iv[0]);
                        assert(self.n@.last().c@.contains(iv[0]));
                    } else if x == chain_in2(a@, b@, k0) {
                        assert(x == iv[1]);
                        assert(self.n@.last().c@.contains(iv[1]));
                    } else {
                        assert(x == iv[2]);
                        assert(self.n@.last().c@.contains(iv[2]));
                    }
                }
                if chain_in1(a@, b@, k0) != chain_in2(a@, b@, k0) && chain_in1(a@, b@, k0)
                    != chain_carry(basec, k0) && chain_in2(a@, b@, k0) != chain_carry(
                    basec,
                    k0,
                ) {
                    assert(distinct_cols(iv));
                }
                assert(seq![
                    (basec + 2 * k0 + 1) as ColumnLabel,
                    (basec + 2 * k0) as ColumnLabel,
                    chain_in1(a@, b@, k0),
                    chain_in2(a@, b@, k0),
                    chain_carry(basec, k0),
                ] =~= seq![o@[1] as ColumnLabel, o@[0] as ColumnLabel, iv[0], iv[1], iv[2]]);
                assert(adder_node_ok(nd, basec, basen, a@, b@, k0));
                assert forall|k: int| 0 <= k < max_int(ia as int, ib as int)
                    implies adder_node_ok(
                    #[trigger] self.n@[basen + k],
                    basec,
                    basen,
                    a@,
                    b@,
                    k,
                ) by {
                    if k < k0 {
                        assert(self.n@[basen + k] == pre.n@[basen + k]);
                    }
                }
            }
        }
        l.add(c);
        l
    }

    /// Multiplication: one gated, shifted partial product per bit of the
    /// shorter operand, reduced pairwise with `add_numbers` in repeated
    /// rounds until a single sum remains.
    pub fn mul_numbers(&mut self, a: &ColumnLabelList, b: &ColumnLabelList) -> (r: ColumnLabelList)
        requires
            graph_wf(*old(self)),
            a@.len() > 0,
            b@.len() > 0,
            forall|k: int| 0 <= k < a@.len() ==> (a@[k] as int) < base_c(*old(self)),
            forall|k: int| 0 <= k < b@.len() ==> (b@[k] as int) < base_c(*old(self)),
            base_c(*old(self)) + mul_budget(a@.len() as int, b@.len() as int)
                <= u32::MAX as int,
        ensures
            graph_wf(*final(self)),
            evolves(*old(self), *final(self)),
            final(self).l == old(self).l,
            r@.len() >= max_int(a@.len() as int, b@.len() as int),
            forall|k: int| 0 <= k < r@.len() ==> (r@[k] as int) < base_c(*final(self)),
            shorter_operand(a@, b@).len() == 1 ==> switched_result_ok(
                *final(self),
                longer_operand(a@, b@),
                shorter_operand(a@, b@)[0],
                0,
                r@,
            ),
            shorter_operand(a@, b@).len() >= 2 ==> from_last_add(
                *old(self),
                *final(self),
                r@,
            ),
    {
        let swapped = a.count() < b.count();
        let (p, q) = if swapped {
            (b, a)
        } else {
            (a, b)
        };
        let ghost x = p@.len() as int;
        let ghost y = q@.len() as int;
        let ghost sx = x + 2 * y;
        let ghost limit = base_c(*old(self)) + x * y + 2 * (sx + 1) * (y - 1);
        proof {
            assert(mul_budget(a@.len() as int, b@.len() as int) == x * y + 2 * (sx + 1) * y);
            assert(2 * (sx + 1) * y == 2 * (sx + 1) * (y - 1) + 2 * (sx + 1))
                by (nonlinear_arith);
            assert(limit + 2 * (sx + 1) <= u32::MAX as int);
        }
        let mut list: Vec<ColumnLabelList> = Vec::new();
        let mut offset: usize = 0;
        while offset < q.count()
            invariant
                graph_wf(*self),
                evolves(*old(self), *self),
                self.l == old(self).l,
                x == p@.len(),
                y == q@.len(),
                x >= y >= 1,
                sx == x + 2 * y,
                offset <= y,
                forall|k: int| 0 <= k < p@.len() ==> (p@[k] as int) < base_c(*old(self)),
                forall|k: int| 0 <= k < q@.len() ==> (q@[k] as int) < base_c(*old(self)),
                base_c(*old(self)) + x * y + 2 * (sx + 1) * y <= u32::MAX as int,
                base_c(*self) <= base_c(*old(self)) + x * (offset as int),
                list@.len() == offset,
                forall|j: int| 0 <= j < list@.len() ==> number_ok(
                    #[trigger] list@[j],
                    base_c(*self),
                    x,
                    x + j,
                ),
                p@ == longer_operand(a@, b@),
                q@ == shorter_operand(a@, b@),
                y == 1 && offset == 1 ==> switched_result_ok(*self, p@, q@[0], 0, list@[0]@),
            decreases y - offset,
        {
            let ghost pre = *self;
            proof {
                assert(x * (offset as int) + x == x * (offset as int + 1)) by (nonlinear_arith);
                assert(x * (offset as int + 1) <= x * y) by (nonlinear_arith)
                    requires
                        x >= 0,
                        offset as int + 1 <= y,
                ;
                assert(2 * (sx + 1) * y >= 0) by (nonlinear_arith)
                    requires
                        sx >= 0,
                        y >= 0,
                ;
                assert(x * y + 2 * (sx + 1) * y >= x + y) by (nonlinear_arith)
                    requires
                        x >= 1,
                        y >= 1,
                        sx >= 1,
                ;
                assert(x + y <= u32::MAX as int);
                assert(offset as int + p@.len() <= usize::MAX as int);
            }
            let pp = self.register_switched_number(p, q.get(offset), offset);
            list.push(pp);
            offset = offset + 1;
            proof {
                lemma_evolves_trans(*old(self), pre, *self);
                if y == 1 {
                    assert(list@[0]@ == pp@);
                    assert(switched_result_ok(*self, p@, q@[0], 0, pp@));
                }
            }
        }
        proof {
            assert(x * (offset as int) == x * y);
            assert(self.c as int <= base_c(*self));
            assert(2 * (sx + 1) * (y - 1) >= 0) by (nonlinear_arith)
                requires
                    sx >= 0,
                    y >= 1,
            ;
            assert(x * y + 2 * (sx + 1) * y >= x + y) by (nonlinear_arith)
                requires
                    x >= 1,
                    y >= 1,
                    sx >= 1,
            ;
            assert(y + 2 <= usize::MAX as int);
        }
        while list.len() > 1
            invariant
                graph_wf(*self),
                evolves(*old(self), *self),
                self.l == old(self).l,
                x >= 1,
                y >= 1,
                sx == x + 2 * y,
                limit + 2 * (sx + 1) <= u32::MAX as int,
                y + 2 <= usize::MAX as int,
                1 <= list@.len() <= y,
                self.c as int + 2 * (sx + 1) * (list@.len() - 1) <= limit,
                forall|j: int| 0 <= j < list@.len() ==> number_ok(
                    #[trigger] list@[j],
                    base_c(*self),
                    x,
                    sx + 1 - list@.len(),
                ),
                p@ == longer_operand(a@, b@),
                q@ == shorter_operand(a@, b@),
                y == 1 ==> list@.len() == 1 && switched_result_ok(*self, p@, q@[0], 0, list@[0]@),
                y >= 2 && list@.len() == 1 ==> from_last_add(*old(self), *self, list@[0]@),
            decreases list@.len(),
        {
            let ghost k_init = list@.len() as int;
            let mut list2: Vec<ColumnLabelList> = Vec::new();
            let mut i: usize = 0;
            while i < list.len()
                invariant
                    graph_wf(*self),
                    evolves(*old(self), *self),
                    self.l == old(self).l,
                    x >= 1,
                    y >= 1,
                    sx == x + 2 * y,
                    limit + 2 * (sx + 1) <= u32::MAX as int,
                    y + 2 <= usize::MAX as int,
                    i <= list@.len(),
                    list@.len() <= y,
                    k_init <= y,
                    k_init > 1,
                    i == 0 ==> list@.len() == k_init && list2@.len() == 0,
                    i > 0 ==> list2@.len() > 0,
                    y >= 2,
                    i > 0 ==> (list@.len() - i) + list2@.len() < k_init,
                    1 <= (list@.len() - i) + list2@.len(),
                    self.c as int + 2 * (sx + 1) * ((list@.len() - i) + list2@.len() - 1)
                        <= limit,
                    forall|j: int| i <= j < list@.len() ==> number_ok(
                        #[trigger] list@[j],
                        base_c(*self),
                        x,
                        sx + 1 - ((list@.len() - i) + list2@.len()),
                    ),
                    forall|j: int| 0 <= j < list2@.len() ==> number_ok(
                        #[trigger] list2@[j],
                        base_c(*self),
                        x,
                        sx + 1 - ((list@.len() - i) + list2@.len()),
                    ),
                    list2@.len() > 0 ==> from_last_add(*old(self), *self, list2@[0]@),
                decreases list@.len() - i,
            {
                let ghost ktot = (list@.len() - i) + list2@.len();
                if i + 2 <= list.len() {
                    let ghost pre = *self;
                    let ghost opa = list@[i as int]@;
                    let ghost opb = list@[i as int + 1]@;
                    proof {
                        assert(number_ok(list@[i as int], base_c(pre), x, sx + 1 - ktot));
                        assert(number_ok(list@[i as int + 1], base_c(pre), x, sx + 1 - ktot));
                        assert(ktot >= 2);
                        assert(2 * (sx + 1) * (ktot - 1) == 2 * (sx + 1) * (ktot - 2) + 2 * (sx
                            + 1)) by (nonlinear_arith);
                        assert(2 * (sx + 1) * (ktot - 2) >= 0) by (nonlinear_arith)
                            requires
                                sx >= 0,
                                ktot >= 2,
                        ;
                        assert(base_c(pre) <= pre.c as int + 2);
                        assert(base_c(pre) + 2 * (list@[i as int]@.len()
                            + list@[i as int + 1]@.len()) <= u32::MAX as int);
                    }
                    let sum = self.add_numbers(&list[i], &list[i + 1]);
                    list2.push(sum);
                    i = i + 2;
                    proof {
                        lemma_evolves_trans(*old(self), pre, *self);
                        let la = list@[i as int - 2]@.len() as int;
                        let lb = list@[i as int - 1]@.len() as int;
                        assert(self.c as int == base_c(pre) + 2 * max_int(la, lb));
                        assert(2 * (sx + 1) * (ktot - 1 - 1) <= 2 * (sx + 1) * (ktot - 1) - 2
                            * (sx + 1)) by (nonlinear_arith)
                            requires
                                sx >= 0,
                        ;
                        assert forall|j: int| i <= j < list@.len() implies number_ok(
                            #[trigger] list@[j],
                            base_c(*self),
                            x,
                            sx + 1 - ((list@.len() - i) + list2@.len()),
                        ) by {
                            assert(number_ok(list@[j], base_c(pre), x, sx + 1 - ktot));
                        }
                        assert(base_c(pre) >= base_c(*old(self)));
                        assert(last_add_shape(
                            *old(self),
                            *self,
                            sum@,
                            base_c(pre),
                            base_n(pre),
                            opa,
                            opb,
                        ));
                        assert(from_last_add(*old(self), *self, sum@));
                        if list2@.len() > 1 {
                            let hd = list2@[0]@;
                            let (bc0, bn0, opa0, opb0) = choose|bc0: int, bn0: int, opa0: Seq<
                                ColumnLabel,
                            >, opb0: Seq<ColumnLabel>| #[trigger] last_add_shape(
                                *old(self),
                                pre,
                                hd,
                                bc0,
                                bn0,
                                opa0,
                                opb0,
                            );
                            assert(hd.len() >= 2);
                            assert(pre.n@.len() >= 1);
                            assert(pre.c != 0);
                            assert(extends(pre, *self));
                            lemma_from_last_add_grow(*old(self), pre, *self, hd);
                        }
                    }
                } else {
                    proof {
                        if i == 0 {
                            assert(list@.len() == k_init);
                            assert(i + 2 <= list@.len());
                            assert(false);
                        }
                    }
                    let moved = list.remove(i);
                    list2.push(moved);
                    proof {
                        assert(number_ok(moved, base_c(*self), x, sx + 1 - ktot));
                    }
                }
            }
            list = list2;
        }
        proof {
            assert(list@.len() == 1);
            assert(number_ok(list@[0], base_c(*self), x, sx));
            assert(y == shorter_operand(a@, b@).len());
        }
        let r = list.remove(0);
        r
    }
}

} // verus!
