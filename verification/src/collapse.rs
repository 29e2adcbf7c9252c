//! The derived reverse index and the forward unit-propagation fixpoint:
//! rows inconsistent with columns already fixed by a one-row node are
//! deleted until a full pass deletes nothing.
use vstd::prelude::*;
use crate::{NodeLabel, ColumnLabel, RowEntry};
use crate::lists::{Link, LinkList, NodeLabelList};
use crate::node::{Node, row_bit, first_index, lemma_first_index};
use crate::graph::{Graph, graph_wf, node_ok};

verus! {

/// Position in `ls` of the first listed node that has exactly one row;
/// `ls.len()` when none has.
pub open spec fn first_single_pos(ns: Seq<Node>, ls: Seq<NodeLabel>) -> int
    decreases ls.len(),
{
    if ls.len() == 0 {
        0
    } else if ns[ls[0] as int].r@.len() == 1 {
        0
    } else {
        1 + first_single_pos(ns, ls.drop_first())
    }
}

pub proof fn lemma_first_single_pos(ns: Seq<Node>, ls: Seq<NodeLabel>)
    ensures
        0 <= first_single_pos(ns, ls) <= ls.len(),
        first_single_pos(ns, ls) < ls.len()
            ==> ns[ls[first_single_pos(ns, ls)] as int].r@.len() == 1,
        forall|j: int| 0 <= j < first_single_pos(ns, ls) ==> ns[ls[j] as int].r@.len() != 1,
    decreases ls.len(),
{
    if ls.len() > 0 && ns[ls[0] as int].r@.len() != 1 {
        let d = ls.drop_first();
        lemma_first_single_pos(ns, d);
        assert(forall|j: int| 0 <= j < d.len() ==> d[j] == ls[j + 1]);
        assert forall|j: int| 0 <= j < first_single_pos(ns, ls)
            implies ns[ls[j] as int].r@.len() != 1 by {
            if j > 0 {
                assert(ls[j] == d[j - 1]);
            }
        }
    }
}

/// Every admissible row of `nd` holds value `v` at the scope offset of
/// column `cl`.
pub open spec fn node_rows_agree(nd: Node, cl: ColumnLabel, v: bool) -> bool {
    forall|t: int| 0 <= t < nd.r@.len()
        ==> row_bit(#[trigger] nd.r@[t], first_index(nd.c@, cl)) == v
}

/// The value forward propagation fixes column `cl` to: the bit held by
/// the first one-row node in the incident list `ls`.
pub open spec fn unit_value_of(ns: Seq<Node>, cl: ColumnLabel, ls: Seq<NodeLabel>) -> bool {
    let src = ns[ls[first_single_pos(ns, ls)] as int];
    row_bit(src.r@[0], first_index(src.c@, cl))
}

/// The unit-propagation fixpoint at one column: if some incident node
/// has collapsed to one row, every row of every multi-row incident node
/// agrees with the value the first such node fixes.
pub open spec fn unit_clean_cols(ns: Seq<Node>, cl: ColumnLabel, ls: Seq<NodeLabel>) -> bool {
    first_single_pos(ns, ls) < ls.len() ==> forall|q: int|
        0 <= q < ls.len() && ns[(#[trigger] ls[q]) as int].r@.len() != 1
            ==> node_rows_agree(ns[ls[q] as int], cl, unit_value_of(ns, cl, ls))
}

/// The fixpoint property of one column over its canonical incident
/// list.
pub open spec fn col_clean(ns: Seq<Node>, cl: ColumnLabel) -> bool {
    unit_clean_cols(ns, cl, incident_upto(ns, cl, ns.len() as int))
}

/// Every allocated column is at the unit-propagation fixpoint.
pub open spec fn all_clean(g: Graph) -> bool {
    forall|k: int| 0 <= k < g.c as int ==> #[trigger] col_clean(g.n@, k as u32)
}

/// The links are the canonical incident lists of the arena `g0`.
pub open spec fn links_canonical(g0: Graph, g: Graph) -> bool {
    forall|k: int| 0 <= k < g.l@.len() ==> (#[trigger] g.l@[k]).n@
        == incident_upto(g0.n@, k as u32, g0.n@.len() as int)
}

/// Incidence depends on scopes only.
pub proof fn lemma_incident_same_scopes(a: Seq<Node>, b: Seq<Node>, cl: ColumnLabel, m: int)
    requires
        b.len() == a.len(),
        forall|i: int| 0 <= i < a.len() ==> (#[trigger] b[i]).c@ == a[i].c@,
        m <= a.len(),
    ensures
        incident_upto(b, cl, m) == incident_upto(a, cl, m),
    decreases m,
{
    if m > 0 {
        lemma_incident_same_scopes(a, b, cl, m - 1);
    }
}

/// Node positions below `m` whose scope mentions `cl`, in increasing
/// order.
pub open spec fn incident_upto(ns: Seq<Node>, cl: ColumnLabel, m: int) -> Seq<NodeLabel>
    decreases m,
{
    if m <= 0 {
        Seq::<NodeLabel>::empty()
    } else if ns[m - 1].c@.contains(cl) {
        incident_upto(ns, cl, m - 1).push((m - 1) as NodeLabel)
    } else {
        incident_upto(ns, cl, m - 1)
    }
}

pub proof fn lemma_incident_upto(ns: Seq<Node>, cl: ColumnLabel, m: int)
    requires
        0 <= m <= ns.len(),
        m <= u32::MAX,
    ensures
        forall|p: int| 0 <= p < incident_upto(ns, cl, m).len()
            ==> (#[trigger] incident_upto(ns, cl, m)[p]) < m
                && ns[incident_upto(ns, cl, m)[p] as int].c@.contains(cl),
        forall|p: int, q: int| 0 <= p < q < incident_upto(ns, cl, m).len()
            ==> incident_upto(ns, cl, m)[p] < incident_upto(ns, cl, m)[q],
        forall|i: int| 0 <= i < m && (#[trigger] ns[i]).c@.contains(cl)
            ==> incident_upto(ns, cl, m).contains(i as NodeLabel),
    decreases m,
{
    if m > 0 {
        lemma_incident_upto(ns, cl, m - 1);
        let s0 = incident_upto(ns, cl, m - 1);
        let s = incident_upto(ns, cl, m);
        assert forall|i: int| 0 <= i < m && (#[trigger] ns[i]).c@.contains(cl)
            implies s.contains(i as NodeLabel) by {
            if i < m - 1 {
                assert(s0.contains(i as NodeLabel));
                let w = choose|w: int| 0 <= w < s0.len() && s0[w] == i as NodeLabel;
                assert(s[w] == i as NodeLabel);
            } else {
                assert(s[s.len() - 1] == i as NodeLabel);
            }
        }
    }
}

/// One link is correct for a node arena: it lists exactly the positions
/// of the nodes whose scope mentions its column, in increasing order.
pub open spec fn link_ok(lk: Link, ns: Seq<Node>) -> bool {
    &&& forall|p: int| 0 <= p < lk.n@.len() ==> (#[trigger] lk.n@[p]) < ns.len()
        && ns[lk.n@[p] as int].c@.contains(lk.c)
    &&& forall|p: int, q: int| 0 <= p < q < lk.n@.len() ==> lk.n@[p] < lk.n@[q]
    &&& forall|i: int| 0 <= i < ns.len() && (#[trigger] ns[i]).c@.contains(lk.c)
        ==> lk.n@.contains(i as NodeLabel)
}

/// The link list is a fresh, exact reverse index: one link per column.
pub open spec fn links_wf(g: Graph) -> bool {
    &&& g.l@.len() == g.c as int
    &&& forall|k: int| 0 <= k < g.l@.len() ==> (#[trigger] g.l@[k]).c == k as u32
    &&& forall|k: int| 0 <= k < g.l@.len() ==> link_ok(#[trigger] g.l@[k], g.n@)
}

/// `f` witnesses that `b` is an order-preserving subsequence of `a`:
/// a strictly increasing index map under which every kept row keeps
/// its value.
pub open spec fn subseq_map_ok(a: Seq<RowEntry>, b: Seq<RowEntry>, f: Seq<int>) -> bool {
    &&& f.len() == b.len()
    &&& forall|t: int| 0 <= t < f.len() ==> 0 <= #[trigger] f[t] < a.len() && b[t] == a[f[t]]
    &&& forall|t: int, u: int| 0 <= t < u < f.len() ==> f[t] < f[u]
}

/// `b` arises from `a` by deleting rows only: no reordering, no
/// duplication, no alteration.
pub open spec fn rows_subseq(a: Seq<RowEntry>, b: Seq<RowEntry>) -> bool {
    exists|f: Seq<int>| #[trigger] subseq_map_ok(a, b, f)
}

pub proof fn lemma_rows_subseq_refl(a: Seq<RowEntry>)
    ensures
        rows_subseq(a, a),
{
    let f = Seq::new(a.len(), |t: int| t);
    assert(subseq_map_ok(a, a, f));
}

pub proof fn lemma_rows_subseq_remove(a: Seq<RowEntry>, i: int)
    requires
        0 <= i < a.len(),
    ensures
        rows_subseq(a, a.remove(i)),
{
    let f = Seq::new((a.len() - 1) as nat, |t: int| if t < i { t } else { t + 1 });
    assert(subseq_map_ok(a, a.remove(i), f));
}

pub proof fn lemma_rows_subseq_trans(a: Seq<RowEntry>, b: Seq<RowEntry>, c: Seq<RowEntry>)
    requires
        rows_subseq(a, b),
        rows_subseq(b, c),
    ensures
        rows_subseq(a, c),
{
    let f1 = choose|f1: Seq<int>| #[trigger] subseq_map_ok(a, b, f1);
    let f2 = choose|f2: Seq<int>| #[trigger] subseq_map_ok(b, c, f2);
    let f3 = Seq::new(c.len(), |t: int| f1[f2[t]]);
    assert(subseq_map_ok(a, c, f3));
}

/// Propagation only deletes rows: node count, positions, scopes and
/// flags are untouched, and every remaining row was admissible before.
pub open spec fn rows_shrunk(a: Seq<Node>, b: Seq<Node>) -> bool {
    &&& b.len() == a.len()
    &&& forall|i: int| 0 <= i < b.len() ==> (#[trigger] b[i]).c@ == a[i].c@
        && b[i].n == a[i].n && b[i].a == a[i].a
        && b[i].r@.len() <= a[i].r@.len()
        && forall|t: int| 0 <= t < b[i].r@.len() ==> a[i].r@.contains(#[trigger] b[i].r@[t])
}

pub proof fn lemma_rows_shrunk_refl(a: Seq<Node>)
    ensures
        rows_shrunk(a, a),
{
    assert forall|i: int| 0 <= i < a.len() implies (#[trigger] a[i]).c@ == a[i].c@
        && a[i].n == a[i].n && a[i].a == a[i].a && a[i].r@.len() <= a[i].r@.len()
        && forall|t: int| 0 <= t < a[i].r@.len() ==> a[i].r@.contains(#[trigger] a[i].r@[t]) by {
        assert forall|t: int| 0 <= t < a[i].r@.len()
            implies a[i].r@.contains(#[trigger] a[i].r@[t]) by {
            assert(a[i].r@[t] == a[i].r@[t]);
        }
    }
}

pub proof fn lemma_rows_shrunk_trans(a: Seq<Node>, b: Seq<Node>, c: Seq<Node>)
    requires
        rows_shrunk(a, b),
        rows_shrunk(b, c),
    ensures
        rows_shrunk(a, c),
{
    assert forall|i: int| 0 <= i < c.len() implies (#[trigger] c[i]).c@ == a[i].c@
        && c[i].n == a[i].n && c[i].a == a[i].a && c[i].r@.len() <= a[i].r@.len()
        && forall|t: int| 0 <= t < c[i].r@.len() ==> a[i].r@.contains(#[trigger] c[i].r@[t]) by {
        assert forall|t: int| 0 <= t < c[i].r@.len()
            implies a[i].r@.contains(#[trigger] c[i].r@[t]) by {
            assert(b[i].r@.contains(c[i].r@[t]));
            let w = choose|w: int| 0 <= w < b[i].r@.len() && b[i].r@[w] == c[i].r@[t];
            assert(a[i].r@.contains(b[i].r@[w]));
        }
    }
}

/// Total number of admissible rows over the whole arena; propagation's
/// termination measure.
pub open spec fn total_rows(ns: Seq<Node>) -> int
    decreases ns.len(),
{
    if ns.len() == 0 {
        0
    } else {
        total_rows(ns.drop_last()) + ns.last().r@.len()
    }
}

pub proof fn lemma_total_rows_nonneg(ns: Seq<Node>)
    ensures
        total_rows(ns) >= 0,
    decreases ns.len(),
{
    if ns.len() > 0 {
        lemma_total_rows_nonneg(ns.drop_last());
    }
}

pub proof fn lemma_total_rows_le(a: Seq<Node>, b: Seq<Node>)
    requires
        b.len() == a.len(),
        forall|i: int| 0 <= i < a.len() ==> (#[trigger] b[i]).r@.len() <= a[i].r@.len(),
    ensures
        total_rows(b) <= total_rows(a),
    decreases a.len(),
{
    if a.len() > 0 {
        assert(forall|i: int| 0 <= i < a.len() - 1 ==> a.drop_last()[i] == a[i]);
        assert(forall|i: int| 0 <= i < b.len() - 1 ==> b.drop_last()[i] == b[i]);
        assert(b[a.len() - 1].r@.len() <= a[a.len() - 1].r@.len());
        lemma_total_rows_le(a.drop_last(), b.drop_last());
    }
}

pub proof fn lemma_total_rows_lt(a: Seq<Node>, b: Seq<Node>, w: int)
    requires
        b.len() == a.len(),
        forall|i: int| 0 <= i < a.len() ==> (#[trigger] b[i]).r@.len() <= a[i].r@.len(),
        0 <= w < a.len(),
        b[w].r@.len() < a[w].r@.len(),
    ensures
        total_rows(b) < total_rows(a),
    decreases a.len(),
{
    assert(forall|i: int| 0 <= i < a.len() - 1 ==> a.drop_last()[i] == a[i]);
    assert(forall|i: int| 0 <= i < b.len() - 1 ==> b.drop_last()[i] == b[i]);
    if w == a.len() - 1 {
        lemma_total_rows_le(a.drop_last(), b.drop_last());
    } else {
        lemma_total_rows_lt(a.drop_last(), b.drop_last(), w);
    }
}

/// Deleting rows does not disturb the reverse index: links depend on
/// scopes only.
pub proof fn lemma_links_preserved(a: Graph, b: Graph)
    requires
        links_wf(a),
        b.l == a.l,
        b.c == a.c,
        b.n@.len() == a.n@.len(),
        forall|i: int| 0 <= i < b.n@.len() ==> (#[trigger] b.n@[i]).c@ == a.n@[i].c@,
    ensures
        links_wf(b),
{
    assert forall|k: int| 0 <= k < b.l@.len() implies link_ok(#[trigger] b.l@[k], b.n@) by {
        assert(link_ok(a.l@[k], a.n@));
        let lk = b.l@[k];
        assert forall|p: int| 0 <= p < lk.n@.len() implies (#[trigger] lk.n@[p]) < b.n@.len()
            && b.n@[lk.n@[p] as int].c@.contains(lk.c) by {
            assert(a.n@[lk.n@[p] as int].c@.contains(lk.c));
        }
        assert forall|i: int| 0 <= i < b.n@.len() && (#[trigger] b.n@[i]).c@.contains(lk.c)
            implies lk.n@.contains(i as NodeLabel) by {
            assert(a.n@[i].c@.contains(lk.c));
        }
    }
}

/// Deleting rows preserves graph well-formedness as long as the one-row
/// terminal nodes are untouched.
pub proof fn lemma_wf_rows_changed(a: Graph, b: Graph)
    requires
        graph_wf(a),
        b.c == a.c,
        b.n@.len() == a.n@.len(),
        forall|i: int| 0 <= i < b.n@.len() ==> (#[trigger] b.n@[i]).c@ == a.n@[i].c@
            && b.n@[i].n == a.n@[i].n,
        a.c != 0 ==> b.n@[0] == a.n@[0] && b.n@[1] == a.n@[1],
    ensures
        graph_wf(b),
{
    assert forall|i: int| 0 <= i < b.n@.len() implies node_ok(#[trigger] b.n@[i], b.c) by {
        assert(node_ok(a.n@[i], a.c));
        assert(b.n@[i].c@ == a.n@[i].c@);
    }
}

/// One packed row agrees with a total assignment of the columns on
/// every scope position.
pub open spec fn row_matches(asg: spec_fn(ColumnLabel) -> bool, nd: Node, t: int) -> bool {
    forall|w: int| 0 <= w < nd.c@.len() ==> row_bit(nd.r@[t], w) == asg(#[trigger] nd.c@[w])
}

/// A node's relation admits the assignment: some admissible row
/// matches it.
pub open spec fn node_sat(asg: spec_fn(ColumnLabel) -> bool, nd: Node) -> bool {
    exists|t: int| 0 <= t < nd.r@.len() && #[trigger] row_matches(asg, nd, t)
}

/// The assignment satisfies every node's relation.
pub open spec fn graph_sat(asg: spec_fn(ColumnLabel) -> bool, ns: Seq<Node>) -> bool {
    forall|i: int| 0 <= i < ns.len() ==> node_sat(asg, #[trigger] ns[i])
}

/// Deleting rows can only cut the solution set; what still satisfies
/// the shrunk arena satisfied the original.
pub proof fn lemma_sat_shrunk(asg: spec_fn(ColumnLabel) -> bool, a: Seq<Node>, b: Seq<Node>)
    requires
        rows_shrunk(a, b),
        graph_sat(asg, b),
    ensures
        graph_sat(asg, a),
{
    assert forall|i: int| 0 <= i < a.len() implies node_sat(asg, #[trigger] a[i]) by {
        assert(node_sat(asg, b[i]));
        let t = choose|t: int| 0 <= t < b[i].r@.len() && #[trigger] row_matches(asg, b[i], t);
        assert(a[i].r@.contains(b[i].r@[t]));
        let w = choose|w: int| 0 <= w < a[i].r@.len() && a[i].r@[w] == b[i].r@[t];
        assert forall|v: int| 0 <= v < a[i].c@.len() implies row_bit(a[i].r@[w], v) == asg(
            #[trigger] a[i].c@[v],
        ) by {
            assert(a[i].c@ == b[i].c@);
            assert(row_bit(b[i].r@[t], v) == asg(b[i].c@[v]));
        }
        assert(row_matches(asg, a[i], w));
    }
}

/// Invariant of one propagation run, relative to the state right after
/// the link rebuild.
pub open spec fn propagating(g0: Graph, g: Graph) -> bool {
    &&& graph_wf(g)
    &&& links_wf(g)
    &&& g.c == g0.c
    &&& g.l == g0.l
    &&& rows_shrunk(g0.n@, g.n@)
    &&& (g0.c != 0 ==> g.n@[0] == g0.n@[0] && g.n@[1] == g0.n@[1])
}

impl Graph {
    /// Rebuild the reverse index wholesale: one link per column in
    /// `[0, next-free)`, listing the incident node positions in order.
    pub fn rebuild_links(&mut self)
        requires
            graph_wf(*old(self)),
        ensures
            graph_wf(*final(self)),
            final(self).n == old(self).n,
            final(self).c == old(self).c,
            links_wf(*final(self)),
            links_canonical(*final(self), *final(self)),
    {
        self.l = LinkList::new();
        let mut cl: ColumnLabel = 0;
        while cl < self.c
            invariant
                graph_wf(*self),
                self.n == old(self).n,
                self.c == old(self).c,
                cl <= self.c,
                self.l@.len() == cl as int,
                forall|k: int| 0 <= k < cl ==> (#[trigger] self.l@[k]).c == k as u32
                    && self.l@[k].n@ == Seq::<NodeLabel>::empty(),
            decreases self.c - cl,
        {
            let link = Link { n: NodeLabelList::new(), c: cl };
            self.l.add(link);
            cl = cl + 1;
        }
        let count = self.n.count();
        let mut i: usize = 0;
        while i < count
            invariant
                graph_wf(*self),
                self.n == old(self).n,
                self.c == old(self).c,
                count == self.n@.len(),
                i <= count,
                self.l@.len() == self.c as int,
                forall|k: int| 0 <= k < self.l@.len() ==> (#[trigger] self.l@[k]).c == k as u32,
                forall|k: int| 0 <= k < self.l@.len() ==> (#[trigger] self.l@[k]).n@
                    == incident_upto(self.n@, k as u32, i as int),
            decreases count - i,
        {
            let nd_label = self.n.get(i).n;
            let clen = self.n.get(i).c.count();
            let mut j: usize = 0;
            while j < clen
                invariant
                    graph_wf(*self),
                    self.n == old(self).n,
                    self.c == old(self).c,
                    count == self.n@.len(),
                    i < count,
                    nd_label == i as u32,
                    clen == self.n@[i as int].c@.len(),
                    j <= clen,
                    self.l@.len() == self.c as int,
                    forall|k: int| 0 <= k < self.l@.len() ==> (#[trigger] self.l@[k]).c
                        == k as u32,
                    forall|k: int| 0 <= k < self.l@.len() ==> (#[trigger] self.l@[k]).n@ == (
                        if exists|t: int| 0 <= t < j && self.n@[i as int].c@[t] == k as u32 {
                            incident_upto(self.n@, k as u32, i as int).push(i as u32)
                        } else {
                            incident_upto(self.n@, k as u32, i as int)
                        }),
                decreases clen - j,
            {
                let c2 = self.n.get(i).c.get(j);
                proof {
                    assert(node_ok(self.n@[i as int], self.c));
                    assert(self.n@[i as int].c@[j as int] < self.c);
                    // the scope has no duplicates, so this column was not
                    // pushed for an earlier scope position
                    assert(!(exists|t: int| 0 <= t < j && self.n@[i as int].c@[t] == c2));
                }
                let lk = self.l.get_mut(c2 as usize);
                lk.n.add(nd_label);
                j = j + 1;
                proof {
                    assert forall|k: int| 0 <= k < self.l@.len() implies (#[trigger] self
                        .l@[k]).n@ == (
                        if exists|t: int| 0 <= t < j && self.n@[i as int].c@[t] == k as u32 {
                            incident_upto(self.n@, k as u32, i as int).push(i as u32)
                        } else {
                            incident_upto(self.n@, k as u32, i as int)
                        }) by {
                        if k == c2 as int {
                            assert(self.n@[i as int].c@[j - 1] == k as u32);
                        } else {
                            if exists|t: int| 0 <= t < j && self.n@[i as int].c@[t] == k as u32 {
                                let t = choose|t: int|
                                    0 <= t < j && self.n@[i as int].c@[t] == k as u32;
                                assert(t < j - 1);
                            }
                        }
                    }
                }
            }
            i = i + 1;
            proof {
                assert forall|k: int| 0 <= k < self.l@.len() implies (#[trigger] self.l@[k]).n@
                    == incident_upto(self.n@, k as u32, i as int) by {
                    let sc = self.n@[i as int - 1].c@;
                    if sc.contains(k as u32) {
                        let t = choose|t: int| 0 <= t < sc.len() && sc[t] == k as u32;
                        assert(exists|t2: int| 0 <= t2 < clen && sc[t2] == k as u32);
                    } else {
                        if exists|t: int| 0 <= t < clen && sc[t] == k as u32 {
                            let t = choose|t: int| 0 <= t < clen && sc[t] == k as u32;
                            assert(sc.contains(k as u32));
                            assert(false);
                        }
                    }
                }
            }
        }
        proof {
            assert forall|k: int| 0 <= k < self.l@.len() implies link_ok(
                #[trigger] self.l@[k],
                self.n@,
            ) by {
                lemma_incident_upto(self.n@, k as u32, self.n@.len() as int);
                assert(self.l@[k].n@ == incident_upto(self.n@, k as u32, self.n@.len() as int));
            }
        }
    }

    /// Forward unit propagation to a fixpoint: for each column, the
    /// first incident node that has collapsed to one row fixes the
    /// column's value, and every disagreeing row of every other
    /// incident multi-row node is deleted; full passes repeat until one
    /// deletes nothing.  Rows only ever shrink, so the loop halts.  On
    /// return every column is at the fixpoint, and a graph already at
    /// the fixpoint comes back with its rows untouched.
    pub fn collapse_fwd(&mut self)
        requires
            graph_wf(*old(self)),
        ensures
            graph_wf(*final(self)),
            links_wf(*final(self)),
            final(self).c == old(self).c,
            rows_shrunk(old(self).n@, final(self).n@),
            forall|k: int| 0 <= k < final(self).c as int
                ==> #[trigger] col_clean(final(self).n@, k as u32),
            all_clean(*old(self)) ==> final(self).n@ == old(self).n@,
            forall|asg: spec_fn(ColumnLabel) -> bool| #[trigger] graph_sat(
                asg,
                final(self).n@,
            ) <==> graph_sat(asg, old(self).n@),
            forall|i: int| 0 <= i < final(self).n@.len() ==> rows_subseq(
                old(self).n@[i].r@,
                (#[trigger] final(self).n@[i]).r@,
            ),
    {
        self.rebuild_links();
        let ghost g1 = *self;
        proof {
            lemma_rows_shrunk_refl(g1.n@);
        }
        let mut changed = true;
        proof {
            lemma_total_rows_nonneg(self.n@);
            assert forall|i: int| 0 <= i < self.n@.len() implies rows_subseq(
                g1.n@[i].r@,
                (#[trigger] self.n@[i]).r@,
            ) by {
                lemma_rows_subseq_refl(g1.n@[i].r@);
            }
        }
        while changed
            invariant
                propagating(g1, *self),
                g1.n == old(self).n,
                g1.c == old(self).c,
                links_canonical(g1, *self),
                total_rows(self.n@) >= 0,
                all_clean(g1) ==> self.n@ == g1.n@,
                forall|asg: spec_fn(ColumnLabel) -> bool| #[trigger] graph_sat(asg, g1.n@)
                    ==> graph_sat(asg, self.n@),
                forall|i: int| 0 <= i < self.n@.len() ==> rows_subseq(
                    g1.n@[i].r@,
                    (#[trigger] self.n@[i]).r@,
                ),
                !changed ==> forall|k: int| 0 <= k < self.l@.len() ==> unit_clean_cols(
                    self.n@,
                    k as u32,
                    (#[trigger] self.l@[k]).n@,
                ),
            decreases total_rows(self.n@) + (if changed { 1int } else { 0int }),
        {
            changed = false;
            let ghost pass0 = *self;
            proof {
                lemma_rows_shrunk_refl(pass0.n@);
            }
            let lcount = self.l.count();
            let mut li: usize = 0;
            while li < lcount
                invariant
                    propagating(g1, *self),
                    propagating(g1, pass0),
                    g1.n == old(self).n,
                    g1.c == old(self).c,
                    links_canonical(g1, *self),
                    lcount == self.l@.len(),
                    li <= lcount,
                    rows_shrunk(pass0.n@, self.n@),
                    changed ==> total_rows(self.n@) < total_rows(pass0.n@),
                    !changed ==> self.n == pass0.n,
                    all_clean(g1) ==> self.n@ == g1.n@ && !changed,
                        forall|asg: spec_fn(ColumnLabel) -> bool| #[trigger] graph_sat(
                            asg,
                            g1.n@,
                        ) ==> graph_sat(asg, self.n@),
                        forall|i: int| 0 <= i < self.n@.len() ==> rows_subseq(
                            g1.n@[i].r@,
                            (#[trigger] self.n@[i]).r@,
                        ),
                    !changed ==> forall|k: int| 0 <= k < li ==> unit_clean_cols(
                        self.n@,
                        k as u32,
                        (#[trigger] self.l@[k]).n@,
                    ),
                decreases lcount - li,
            {
                let lc = self.l.get(li).c;
                let lnc = self.l.get(li).n.count();
                proof {
                    assert(lc == li as u32);
                }
                let mut v = false;
                let mut found = false;
                let mut p: usize = 0;
                while p < lnc && !found
                    invariant
                        propagating(g1, *self),
                        propagating(g1, pass0),
                        g1.n == old(self).n,
                        g1.c == old(self).c,
                        links_canonical(g1, *self),
                        lcount == self.l@.len(),
                        li < lcount,
                        lc == self.l@[li as int].c,
                        lc == li as u32,
                        lnc == self.l@[li as int].n@.len(),
                        p <= lnc,
                        rows_shrunk(pass0.n@, self.n@),
                        changed ==> total_rows(self.n@) < total_rows(pass0.n@),
                        !changed ==> self.n == pass0.n,
                        all_clean(g1) ==> self.n@ == g1.n@ && !changed,
                        forall|asg: spec_fn(ColumnLabel) -> bool| #[trigger] graph_sat(
                            asg,
                            g1.n@,
                        ) ==> graph_sat(asg, self.n@),
                        forall|i: int| 0 <= i < self.n@.len() ==> rows_subseq(
                            g1.n@[i].r@,
                            (#[trigger] self.n@[i]).r@,
                        ),
                        !changed ==> forall|k: int| 0 <= k < li ==> unit_clean_cols(
                            self.n@,
                            k as u32,
                            (#[trigger] self.l@[k]).n@,
                        ),
                        !found ==> forall|j: int| 0 <= j < p
                            ==> self.n@[self.l@[li as int].n@[j] as int].r@.len() != 1,
                        found ==> p < lnc
                            && self.n@[self.l@[li as int].n@[p as int] as int].r@.len() == 1
                            && (forall|j: int| 0 <= j < p
                                ==> self.n@[self.l@[li as int].n@[j] as int].r@.len() != 1)
                            && v == row_bit(
                            self.n@[self.l@[li as int].n@[p as int] as int].r@[0],
                            first_index(
                                self.n@[self.l@[li as int].n@[p as int] as int].c@,
                                lc,
                            ),
                        ),
                    decreases lnc - p + (if found { 0int } else { 1int }),
                {
                    proof {
                        assert(link_ok(self.l@[li as int], self.n@));
                    }
                    let nl = self.l.get(li).n.get(p);
                    if self.n.get(nl as usize).r.count() == 1 {
                        let clen2 = self.n.get(nl as usize).c.count();
                        proof {
                            assert(node_ok(self.n@[nl as int], self.c));
                        }
                        let mut off: usize = 0;
                        while off < clen2 && !found
                            invariant
                                propagating(g1, *self),
                                propagating(g1, pass0),
                                g1.n == old(self).n,
                                g1.c == old(self).c,
                                links_canonical(g1, *self),
                                lcount == self.l@.len(),
                                li < lcount,
                                lc == self.l@[li as int].c,
                                lc == li as u32,
                                lnc == self.l@[li as int].n@.len(),
                                p < lnc,
                                nl == self.l@[li as int].n@[p as int],
                                rows_shrunk(pass0.n@, self.n@),
                                changed ==> total_rows(self.n@) < total_rows(pass0.n@),
                                !changed ==> self.n == pass0.n,
                                all_clean(g1) ==> self.n@ == g1.n@ && !changed,
                        forall|asg: spec_fn(ColumnLabel) -> bool| #[trigger] graph_sat(
                            asg,
                            g1.n@,
                        ) ==> graph_sat(asg, self.n@),
                        forall|i: int| 0 <= i < self.n@.len() ==> rows_subseq(
                            g1.n@[i].r@,
                            (#[trigger] self.n@[i]).r@,
                        ),
                                !changed ==> forall|k: int| 0 <= k < li ==> unit_clean_cols(
                                    self.n@,
                                    k as u32,
                                    (#[trigger] self.l@[k]).n@,
                                ),
                                forall|j: int| 0 <= j < p
                                    ==> self.n@[self.l@[li as int].n@[j] as int].r@.len() != 1,
                                (nl as int) < self.n@.len(),
                                self.n@[nl as int].r@.len() == 1,
                                clen2 == self.n@[nl as int].c@.len(),
                                clen2 <= 16,
                                off <= clen2,
                                forall|k: int| 0 <= k < off ==> self.n@[nl as int].c@[k] != lc,
                                found ==> off < clen2
                                    && self.n@[nl as int].c@[off as int] == lc
                                    && v == row_bit(self.n@[nl as int].r@[0], off as int),
                            decreases clen2 - off + (if found { 0int } else { 1int }),
                        {
                            if self.n.get(nl as usize).c.get(off) == lc {
                                let re = self.n.get(nl as usize).r.get(0);
                                let off16: u16 = off as u16;
                                proof {
                                    assert(((re & (1u16 << off16)) != 0) == (((re >> off16) & 1)
                                        == 1)) by (bit_vector)
                                        requires
                                            off16 < 16,
                                    ;
                                }
                                v = (re & (1u16 << off16)) != 0;
                                found = true;
                            } else {
                                off = off + 1;
                            }
                        }
                        proof {
                            if found {
                                lemma_first_index(self.n@[nl as int].c@, lc);
                                assert(self.n@[nl as int].c@.contains(lc));
                                assert(first_index(self.n@[nl as int].c@, lc) == off as int);
                            }
                        }
                    }
                    if !found {
                        p = p + 1;
                    }
                }
                if found {
                    let ghost fentry = *self;
                    let ghost sp = p as int;
                    proof {
                        lemma_rows_shrunk_refl(fentry.n@);
                    }
                    let mut p2: usize = 0;
                    while p2 < lnc
                        invariant
                            propagating(g1, *self),
                            propagating(g1, pass0),
                            g1.n == old(self).n,
                            g1.c == old(self).c,
                            links_canonical(g1, *self),
                            lcount == self.l@.len(),
                            li < lcount,
                            lc == self.l@[li as int].c,
                            lc == li as u32,
                            lnc == self.l@[li as int].n@.len(),
                            p2 <= lnc,
                            rows_shrunk(pass0.n@, self.n@),
                            rows_shrunk(fentry.n@, self.n@),
                            changed ==> total_rows(self.n@) < total_rows(pass0.n@),
                            !changed ==> self.n == pass0.n,
                            all_clean(g1) ==> self.n@ == g1.n@ && !changed,
                        forall|asg: spec_fn(ColumnLabel) -> bool| #[trigger] graph_sat(
                            asg,
                            g1.n@,
                        ) ==> graph_sat(asg, self.n@),
                        forall|i: int| 0 <= i < self.n@.len() ==> rows_subseq(
                            g1.n@[i].r@,
                            (#[trigger] self.n@[i]).r@,
                        ),
                            all_clean(g1) ==> fentry.n@ == g1.n@,
                            !changed ==> forall|k: int| 0 <= k < li ==> unit_clean_cols(
                                self.n@,
                                k as u32,
                                (#[trigger] self.l@[k]).n@,
                            ),
                            0 <= sp < lnc,
                            fentry.n@.len() == self.n@.len(),
                            fentry.n@[self.l@[li as int].n@[sp] as int].r@.len() == 1,
                            forall|j: int| 0 <= j < sp
                                ==> fentry.n@[self.l@[li as int].n@[j] as int].r@.len() != 1,
                            v == row_bit(
                                fentry.n@[self.l@[li as int].n@[sp] as int].r@[0],
                                first_index(
                                    fentry.n@[self.l@[li as int].n@[sp] as int].c@,
                                    lc,
                                ),
                            ),
                            self.n@[self.l@[li as int].n@[sp] as int]
                                == fentry.n@[self.l@[li as int].n@[sp] as int],
                            forall|q: int| 0 <= q < p2 ==> node_rows_agree(
                                self.n@[(#[trigger] self.l@[li as int].n@[q]) as int],
                                lc,
                                v,
                            ) || (self.n@[self.l@[li as int].n@[q] as int]
                                == fentry.n@[self.l@[li as int].n@[q] as int]
                                && fentry.n@[self.l@[li as int].n@[q] as int].r@.len() == 1),
                            forall|q: int| p2 <= q < lnc
                                ==> self.n@[(#[trigger] self.l@[li as int].n@[q]) as int]
                                == fentry.n@[self.l@[li as int].n@[q] as int],
                        decreases lnc - p2,
                    {
                        proof {
                            assert(link_ok(self.l@[li as int], self.n@));
                        }
                        let nl = self.l.get(li).n.get(p2);
                        if self.n.get(nl as usize).r.count() != 1 {
                            proof {
                                assert(node_ok(self.n@[nl as int], self.c));
                                if g1.c != 0 && (nl as int) < 2 {
                                    assert(self.n@[0] == g1.n@[0]);
                                    assert(self.n@[1] == g1.n@[1]);
                                    assert(false);
                                }
                                assert(g1.c != 0);
                            }
                            let clen3 = self.n.get(nl as usize).c.count();
                            let mut off: usize = 0;
                            let mut offfound = false;
                            while off < clen3 && !offfound
                                invariant
                                    (nl as int) < self.n@.len(),
                                    clen3 == self.n@[nl as int].c@.len(),
                                    off <= clen3,
                                    offfound ==> off < clen3
                                        && self.n@[nl as int].c@[off as int] == lc,
                                    forall|k: int| 0 <= k < off
                                        ==> self.n@[nl as int].c@[k] != lc,
                                    propagating(g1, *self),
                                    propagating(g1, pass0),
                                    g1.n == old(self).n,
                                    g1.c == old(self).c,
                                    links_canonical(g1, *self),
                                    lcount == self.l@.len(),
                                    li < lcount,
                                    lc == self.l@[li as int].c,
                                    lc == li as u32,
                                    lnc == self.l@[li as int].n@.len(),
                                    p2 < lnc,
                                    nl == self.l@[li as int].n@[p2 as int],
                                    rows_shrunk(pass0.n@, self.n@),
                                    rows_shrunk(fentry.n@, self.n@),
                                    changed ==> total_rows(self.n@) < total_rows(pass0.n@),
                                    !changed ==> self.n == pass0.n,
                                    all_clean(g1) ==> self.n@ == g1.n@ && !changed,
                        forall|asg: spec_fn(ColumnLabel) -> bool| #[trigger] graph_sat(
                            asg,
                            g1.n@,
                        ) ==> graph_sat(asg, self.n@),
                        forall|i: int| 0 <= i < self.n@.len() ==> rows_subseq(
                            g1.n@[i].r@,
                            (#[trigger] self.n@[i]).r@,
                        ),
                                    all_clean(g1) ==> fentry.n@ == g1.n@,
                                    !changed ==> forall|k: int| 0 <= k < li
                                        ==> unit_clean_cols(
                                        self.n@,
                                        k as u32,
                                        (#[trigger] self.l@[k]).n@,
                                    ),
                                    0 <= sp < lnc,
                                    fentry.n@.len() == self.n@.len(),
                                    fentry.n@[self.l@[li as int].n@[sp] as int].r@.len() == 1,
                                    forall|j: int| 0 <= j < sp
                                        ==> fentry.n@[self.l@[li as int].n@[j] as int].r@.len()
                                        != 1,
                                    v == row_bit(
                                        fentry.n@[self.l@[li as int].n@[sp] as int].r@[0],
                                        first_index(
                                            fentry.n@[self.l@[li as int].n@[sp] as int].c@,
                                            lc,
                                        ),
                                    ),
                                    self.n@[self.l@[li as int].n@[sp] as int]
                                        == fentry.n@[self.l@[li as int].n@[sp] as int],
                                    forall|q: int| 0 <= q < p2 ==> node_rows_agree(
                                        self.n@[(#[trigger] self.l@[li as int].n@[q]) as int],
                                        lc,
                                        v,
                                    ) || (self.n@[self.l@[li as int].n@[q] as int]
                                        == fentry.n@[self.l@[li as int].n@[q] as int]
                                        && fentry.n@[self.l@[li as int].n@[q] as int].r@.len()
                                        == 1),
                                    forall|q: int| p2 <= q < lnc
                                        ==> self.n@[(#[trigger] self.l@[li as int].n@[q]) as int]
                                        == fentry.n@[self.l@[li as int].n@[q] as int],
                                decreases clen3 - off + (if offfound { 0int } else { 1int }),
                            {
                                if self.n.get(nl as usize).c.get(off) == lc {
                                    offfound = true;
                                } else {
                                    off = off + 1;
                                }
                            }
                            proof {
                                if !offfound {
                                    assert(self.n@[nl as int].c@.contains(lc));
                                    let w = choose|w: int|
                                        0 <= w < self.n@[nl as int].c@.len()
                                            && self.n@[nl as int].c@[w] == lc;
                                    assert(false);
                                }
                                lemma_first_index(self.n@[nl as int].c@, lc);
                                assert(self.n@[nl as int].c@.contains(lc));
                                assert(first_index(self.n@[nl as int].c@, lc) == off as int);
                                assert(node_ok(self.n@[nl as int], self.c));
                            }
                            let mut row: usize = 0;
                            while row < self.n.get(nl as usize).r.count()
                                invariant
                                    propagating(g1, *self),
                                    propagating(g1, pass0),
                                    g1.n == old(self).n,
                                    g1.c == old(self).c,
                                    links_canonical(g1, *self),
                                    lcount == self.l@.len(),
                                    li < lcount,
                                    lc == self.l@[li as int].c,
                                    lc == li as u32,
                                    lnc == self.l@[li as int].n@.len(),
                                    p2 < lnc,
                                    nl == self.l@[li as int].n@[p2 as int],
                                    rows_shrunk(pass0.n@, self.n@),
                                    rows_shrunk(fentry.n@, self.n@),
                                    changed ==> total_rows(self.n@) < total_rows(pass0.n@),
                                    !changed ==> self.n == pass0.n,
                                    all_clean(g1) ==> self.n@ == g1.n@ && !changed,
                        forall|asg: spec_fn(ColumnLabel) -> bool| #[trigger] graph_sat(
                            asg,
                            g1.n@,
                        ) ==> graph_sat(asg, self.n@),
                        forall|i: int| 0 <= i < self.n@.len() ==> rows_subseq(
                            g1.n@[i].r@,
                            (#[trigger] self.n@[i]).r@,
                        ),
                                    all_clean(g1) ==> fentry.n@ == g1.n@,
                                    !changed ==> forall|k: int| 0 <= k < li
                                        ==> unit_clean_cols(
                                        self.n@,
                                        k as u32,
                                        (#[trigger] self.l@[k]).n@,
                                    ),
                                    0 <= sp < lnc,
                                    fentry.n@.len() == self.n@.len(),
                                    fentry.n@[self.l@[li as int].n@[sp] as int].r@.len() == 1,
                                    forall|j: int| 0 <= j < sp
                                        ==> fentry.n@[self.l@[li as int].n@[j] as int].r@.len()
                                        != 1,
                                    v == row_bit(
                                        fentry.n@[self.l@[li as int].n@[sp] as int].r@[0],
                                        first_index(
                                            fentry.n@[self.l@[li as int].n@[sp] as int].c@,
                                            lc,
                                        ),
                                    ),
                                    self.n@[self.l@[li as int].n@[sp] as int]
                                        == fentry.n@[self.l@[li as int].n@[sp] as int],
                                    forall|q: int| 0 <= q < p2 ==> node_rows_agree(
                                        self.n@[(#[trigger] self.l@[li as int].n@[q]) as int],
                                        lc,
                                        v,
                                    ) || (self.n@[self.l@[li as int].n@[q] as int]
                                        == fentry.n@[self.l@[li as int].n@[q] as int]
                                        && fentry.n@[self.l@[li as int].n@[q] as int].r@.len()
                                        == 1),
                                    forall|q: int| p2 < q < lnc
                                        ==> self.n@[(#[trigger] self.l@[li as int].n@[q]) as int]
                                        == fentry.n@[self.l@[li as int].n@[q] as int],
                                    (nl as int) < self.n@.len(),
                                    (nl as int) >= 2,
                                    g1.c != 0,
                                    fentry.n@[nl as int].r@.len() != 1,
                                    off as int == first_index(self.n@[nl as int].c@, lc),
                                    off < self.n@[nl as int].c@.len(),
                                    off <= 15,
                                    row <= self.n@[nl as int].r@.len(),
                                    forall|t: int| 0 <= t < row
                                        ==> row_bit(self.n@[nl as int].r@[t], off as int) == v,
                                decreases self.n@[nl as int].r@.len() - row,
                            {
                                let re = self.n.get(nl as usize).r.get(row);
                                let off16: u16 = off as u16;
                                proof {
                                    assert(((re & (1u16 << off16)) != 0) == (((re >> off16) & 1)
                                        == 1)) by (bit_vector)
                                        requires
                                            off16 < 16,
                                    ;
                                }
                                let v2 = (re & (1u16 << off16)) != 0;
                                if v2 != v {
                                    let ghost it0 = *self;
                                    proof {
                                        if all_clean(g1) {
                                            let ls = self.l@[li as int].n@;
                                            assert(col_clean(g1.n@, li as u32));
                                            assert(self.l@[li as int].n@ == incident_upto(
                                                g1.n@,
                                                lc,
                                                g1.n@.len() as int,
                                            ));
                                            lemma_first_single_pos(g1.n@, ls);
                                            let f = first_single_pos(g1.n@, ls);
                                            assert(g1.n@[ls[sp] as int].r@.len() == 1);
                                            if f > sp {
                                                assert(g1.n@[ls[sp] as int].r@.len() != 1);
                                            }
                                            if f < sp {
                                                assert(g1.n@[ls[f] as int].r@.len() == 1);
                                                assert(fentry.n@[ls[f] as int].r@.len() != 1);
                                            }
                                            assert(f == sp);
                                            assert(unit_value_of(g1.n@, lc, ls) == v);
                                            assert(g1.n@[ls[p2 as int] as int].r@.len() != 1);
                                            assert(node_rows_agree(
                                                g1.n@[ls[p2 as int] as int],
                                                lc,
                                                v,
                                            ));
                                            assert(row_bit(
                                                g1.n@[nl as int].r@[row as int],
                                                off as int,
                                            ) == v);
                                            assert(false);
                                        }
                                    }
                                    self.n.get_mut(nl as usize).r.remove(row);
                                    changed = true;
                                    proof {
                                        assert(self.n@.len() == it0.n@.len());
                                        assert forall|i2: int| 0 <= i2 < self.n@.len() implies
                                            (#[trigger] self.n@[i2]).c@ == it0.n@[i2].c@
                                            && self.n@[i2].n == it0.n@[i2].n
                                            && self.n@[i2].a == it0.n@[i2].a
                                            && self.n@[i2].r@.len() <= it0.n@[i2].r@.len()
                                            && forall|t: int| 0 <= t < self.n@[i2].r@.len()
                                                ==> it0.n@[i2].r@.contains(
                                                #[trigger] self.n@[i2].r@[t],
                                            ) by {
                                            if i2 == nl as int {
                                                assert forall|t: int|
                                                    0 <= t < self.n@[i2].r@.len() implies it0
                                                    .n@[i2].r@.contains(
                                                    #[trigger] self.n@[i2].r@[t],
                                                ) by {
                                                    if t < row {
                                                        assert(self.n@[i2].r@[t]
                                                            == it0.n@[i2].r@[t]);
                                                    } else {
                                                        assert(self.n@[i2].r@[t]
                                                            == it0.n@[i2].r@[t + 1]);
                                                    }
                                                }
                                            } else {
                                                assert(self.n@[i2] == it0.n@[i2]);
                                                assert forall|t: int|
                                                    0 <= t < self.n@[i2].r@.len() implies it0
                                                    .n@[i2].r@.contains(
                                                    #[trigger] self.n@[i2].r@[t],
                                                ) by {
                                                    assert(it0.n@[i2].r@[t]
                                                        == self.n@[i2].r@[t]);
                                                }
                                            }
                                        }
                                        assert(rows_shrunk(it0.n@, self.n@));
                                        lemma_rows_shrunk_trans(pass0.n@, it0.n@, self.n@);
                                        lemma_rows_shrunk_trans(g1.n@, it0.n@, self.n@);
                                        lemma_rows_shrunk_trans(fentry.n@, it0.n@, self.n@);
                                        lemma_total_rows_lt(pass0.n@, self.n@, nl as int);
                                        lemma_links_preserved(it0, *self);
                                        lemma_wf_rows_changed(it0, *self);
                                        assert(link_ok(self.l@[li as int], self.n@));
                                        assert forall|q: int| 0 <= q < lnc && q != p2 implies
                                            self.n@[(#[trigger] self.l@[li as int].n@[q]) as int]
                                            == it0.n@[self.l@[li as int].n@[q] as int] by {
                                            if q < p2 {
                                                assert(self.l@[li as int].n@[q]
                                                    < self.l@[li as int].n@[p2 as int]);
                                            } else {
                                                assert(self.l@[li as int].n@[p2 as int]
                                                    < self.l@[li as int].n@[q]);
                                            }
                                        }
                                        assert forall|asg: spec_fn(ColumnLabel) -> bool|
                                            #[trigger] graph_sat(asg, g1.n@) implies graph_sat(
                                            asg,
                                            self.n@,
                                        ) by {
                                            assert(graph_sat(asg, it0.n@));
                                            let ls = self.l@[li as int].n@;
                                            let src_idx = ls[sp] as int;
                                            assert(link_ok(self.l@[li as int], it0.n@));
                                            assert(it0.n@[src_idx].c@.contains(lc));
                                            assert(it0.n@[src_idx].r@.len() == 1);
                                            assert(node_sat(asg, it0.n@[src_idx]));
                                            let ts = choose|ts: int|
                                                0 <= ts < it0.n@[src_idx].r@.len()
                                                    && #[trigger] row_matches(
                                                    asg,
                                                    it0.n@[src_idx],
                                                    ts,
                                                );
                                            assert(ts == 0);
                                            lemma_first_index(it0.n@[src_idx].c@, lc);
                                            let fi = first_index(it0.n@[src_idx].c@, lc);
                                            assert(0 <= fi < it0.n@[src_idx].c@.len());
                                            assert(it0.n@[src_idx].c@[fi] == lc);
                                            assert(row_bit(it0.n@[src_idx].r@[0], fi) == asg(
                                                it0.n@[src_idx].c@[fi],
                                            ));
                                            assert(asg(lc) == v);
                                            assert(it0.n@[nl as int].c@.contains(lc));
                                            lemma_first_index(it0.n@[nl as int].c@, lc);
                                            assert(it0.n@[nl as int].c@[off as int] == lc);
                                            assert(node_sat(asg, it0.n@[nl as int]));
                                            let tw = choose|tw: int|
                                                0 <= tw < it0.n@[nl as int].r@.len()
                                                    && #[trigger] row_matches(
                                                    asg,
                                                    it0.n@[nl as int],
                                                    tw,
                                                );
                                            if tw == row as int {
                                                assert(row_bit(
                                                    it0.n@[nl as int].r@[tw],
                                                    off as int,
                                                ) == asg(it0.n@[nl as int].c@[off as int]));
                                                assert(false);
                                            }
                                            let tw2: int = if tw < row as int {
                                                tw
                                            } else {
                                                tw - 1
                                            };
                                            assert(self.n@[nl as int].r@[tw2]
                                                == it0.n@[nl as int].r@[tw]);
                                            assert forall|w2: int|
                                                0 <= w2 < self.n@[nl as int].c@.len()
                                                implies row_bit(self.n@[nl as int].r@[tw2], w2)
                                                == asg(
                                                #[trigger] self.n@[nl as int].c@[w2],
                                            ) by {
                                                assert(self.n@[nl as int].c@
                                                    == it0.n@[nl as int].c@);
                                                assert(row_bit(it0.n@[nl as int].r@[tw], w2)
                                                    == asg(it0.n@[nl as int].c@[w2]));
                                            }
                                            assert(row_matches(asg, self.n@[nl as int], tw2));
                                            assert(node_sat(asg, self.n@[nl as int]));
                                            assert forall|i2: int| 0 <= i2 < self.n@.len()
                                                implies node_sat(
                                                asg,
                                                #[trigger] self.n@[i2],
                                            ) by {
                                                if i2 != nl as int {
                                                    assert(self.n@[i2] == it0.n@[i2]);
                                                    assert(node_sat(asg, it0.n@[i2]));
                                                }
                                            }
                                        }
                                        assert forall|i2: int| 0 <= i2 < self.n@.len()
                                            implies rows_subseq(
                                            g1.n@[i2].r@,
                                            (#[trigger] self.n@[i2]).r@,
                                        ) by {
                                            assert(rows_subseq(g1.n@[i2].r@, it0.n@[i2].r@));
                                            if i2 == nl as int {
                                                lemma_rows_subseq_remove(
                                                    it0.n@[i2].r@,
                                                    row as int,
                                                );
                                                assert(self.n@[i2].r@ == it0.n@[i2].r@.remove(
                                                    row as int,
                                                ));
                                                lemma_rows_subseq_trans(
                                                    g1.n@[i2].r@,
                                                    it0.n@[i2].r@,
                                                    self.n@[i2].r@,
                                                );
                                            } else {
                                                assert(self.n@[i2] == it0.n@[i2]);
                                            }
                                        }
                                    }
                                } else {
                                    row = row + 1;
                                }
                            }
                            proof {
                                assert(node_rows_agree(self.n@[nl as int], lc, v));
                            }
                        }
                        p2 = p2 + 1;
                    }
                    proof {
                        let ls = self.l@[li as int].n@;
                        lemma_first_single_pos(self.n@, ls);
                        let f = first_single_pos(self.n@, ls);
                        assert(self.n@[ls[sp] as int].r@.len() == 1);
                        if f > sp {
                            assert(self.n@[ls[sp] as int].r@.len() != 1);
                        }
                        assert(f <= sp);
                        assert(f < ls.len());
                        if f < sp {
                            assert(self.n@[ls[f] as int].r@.len() == 1);
                            assert(fentry.n@[ls[f] as int].r@.len() != 1);
                            assert(node_rows_agree(self.n@[ls[f] as int], lc, v));
                            assert(row_bit(
                                self.n@[ls[f] as int].r@[0],
                                first_index(self.n@[ls[f] as int].c@, lc),
                            ) == v);
                        }
                        assert(unit_value_of(self.n@, lc, ls) == v);
                        assert forall|q: int|
                            0 <= q < ls.len() && self.n@[(#[trigger] ls[q]) as int].r@.len()
                                != 1 implies node_rows_agree(
                            self.n@[ls[q] as int],
                            lc,
                            unit_value_of(self.n@, lc, ls),
                        ) by {
                            assert(node_rows_agree(self.n@[ls[q] as int], lc, v)
                                || (self.n@[ls[q] as int] == fentry.n@[ls[q] as int]
                                    && fentry.n@[ls[q] as int].r@.len() == 1));
                        }
                        assert(unit_clean_cols(self.n@, lc, ls));
                    }
                } else {
                    proof {
                        let ls = self.l@[li as int].n@;
                        lemma_first_single_pos(self.n@, ls);
                        let f = first_single_pos(self.n@, ls);
                        if f < ls.len() {
                            assert(self.n@[ls[f] as int].r@.len() == 1);
                            assert(false);
                        }
                        assert(unit_clean_cols(self.n@, lc, ls));
                    }
                }
                li = li + 1;
            }
            proof {
                lemma_total_rows_nonneg(self.n@);
                if !changed {
                    lemma_total_rows_le(pass0.n@, self.n@);
                }
            }
        }
        proof {
            assert forall|k: int| 0 <= k < self.c as int implies #[trigger] col_clean(
                self.n@,
                k as u32,
            ) by {
                assert(unit_clean_cols(self.n@, k as u32, self.l@[k].n@));
                lemma_incident_same_scopes(g1.n@, self.n@, k as u32, g1.n@.len() as int);
                assert(self.l@[k].n@ == incident_upto(self.n@, k as u32, self.n@.len() as int));
            }
            assert forall|asg: spec_fn(ColumnLabel) -> bool| #[trigger] graph_sat(
                asg,
                self.n@,
            ) implies graph_sat(asg, g1.n@) by {
                lemma_sat_shrunk(asg, g1.n@, self.n@);
            }
        }
    }
}

} // verus!
