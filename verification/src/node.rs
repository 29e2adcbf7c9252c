//! Relation nodes: an ordered scope of column labels plus a set of
//! bit-packed admissible rows, and the append-only arena that owns them.
use vstd::prelude::*;
use crate::{NodeLabel, ColumnLabel, RowEntry};
use crate::lists::{ColumnLabelList, RowEntryList};

verus! {

/// Truth value of scope position `i` in the packed row `re`.
pub open spec fn row_bit(re: RowEntry, i: int) -> bool {
    (re >> (i as u16)) & 1 == 1
}

/// No column label occurs at two scope positions.
pub open spec fn distinct_cols(c: Seq<ColumnLabel>) -> bool {
    forall|i: int, j: int| 0 <= i < j < c.len() ==> c[i] != c[j]
}

/// First position of `cl` in `c`; equals `c.len()` when `cl` is absent.
pub open spec fn first_index(c: Seq<ColumnLabel>, cl: ColumnLabel) -> int
    decreases c.len(),
{
    if c.len() == 0 {
        0
    } else if c[0] == cl {
        0
    } else {
        1 + first_index(c.drop_first(), cl)
    }
}

pub proof fn lemma_first_index(c: Seq<ColumnLabel>, cl: ColumnLabel)
    ensures
        0 <= first_index(c, cl) <= c.len(),
        c.contains(cl) ==> first_index(c, cl) < c.len() && c[first_index(c, cl)] == cl,
        forall|j: int| 0 <= j < first_index(c, cl) ==> c[j] != cl,
        !c.contains(cl) ==> first_index(c, cl) == c.len(),
    decreases c.len(),
{
    if c.len() == 0 {
        assert(!c.contains(cl));
    } else if c[0] == cl {
        assert(c.contains(cl));
    } else {
        let d = c.drop_first();
        lemma_first_index(d, cl);
        assert(forall|j: int| 0 <= j < d.len() ==> d[j] == c[j + 1]);
        if c.contains(cl) {
            let w = choose|w: int| 0 <= w < c.len() && c[w] == cl;
            assert(d[w - 1] == cl);
            assert(d.contains(cl));
        }
        if d.contains(cl) {
            let w = choose|w: int| 0 <= w < d.len() && d[w] == cl;
            assert(c[w + 1] == cl);
            assert(c.contains(cl));
        }
        assert forall|j: int| 0 <= j < first_index(c, cl) implies c[j] != cl by {
            if j > 0 {
                assert(c[j] == d[j - 1]);
            }
        }
    }
}

/// A relation node: scope `c`, admissible rows `r`, permanent position
/// `n` in the owning list, and an activity flag `a`.
pub struct Node {
    pub n: NodeLabel,
    pub c: ColumnLabelList,
    pub r: RowEntryList,
    pub a: bool,
}

/// The packed row with scope position `j` deleted: bits below `j`
/// kept, bits above shifted down by one.
pub open spec fn low_mask(j: u16) -> u16 {
    ((1u16 << j) - 1) as u16
}

pub open spec fn drop_bit(re: RowEntry, j: u16) -> RowEntry {
    (re & low_mask(j)) | ((re & (0xffffu16 ^ (1u16 << j) ^ low_mask(j))) >> 1)
}

/// What the repacking means bit by bit: positions below `j` keep their
/// value, positions at `j` and above take the value one position up.
pub proof fn lemma_drop_bit(re: RowEntry, j: u16)
    requires
        j <= 15,
    ensures
        forall|k: int| 0 <= k < j ==> row_bit(drop_bit(re, j), k) == row_bit(re, k),
        forall|k: int| j <= k < 15 ==> row_bit(drop_bit(re, j), k) == row_bit(re, k + 1),
{
    assert forall|k: int| 0 <= k < j implies row_bit(drop_bit(re, j), k) == row_bit(re, k) by {
        let k16 = k as u16;
        assert(((drop_bit(re, j) >> k16) & 1 == 1) == ((re >> k16) & 1 == 1)) by (bit_vector)
            requires
                k16 < j,
                j <= 15,
        ;
    }
    assert forall|k: int| j <= k < 15 implies row_bit(drop_bit(re, j), k) == row_bit(
        re,
        k + 1,
    ) by {
        let k16 = k as u16;
        assert(((drop_bit(re, j) >> k16) & 1 == 1) == ((re >> (k16 + 1)) & 1 == 1))
            by (bit_vector)
            requires
                j <= k16,
                k16 < 15,
                j <= 15,
        ;
        assert((k + 1) as u16 == k16 + 1);
    }
}

/// The rows surviving the identification of scope positions `i` and
/// `j` (`i < j`): those whose two bits agree, each repacked with bit
/// `j` deleted, in order.
pub open spec fn squash_rows(rows: Seq<RowEntry>, i: int, j: int) -> Seq<RowEntry>
    decreases rows.len(),
{
    if rows.len() == 0 {
        rows
    } else {
        let rest = squash_rows(rows.drop_last(), i, j);
        if row_bit(rows.last(), i) == row_bit(rows.last(), j) {
            rest.push(drop_bit(rows.last(), j as u16))
        } else {
            rest
        }
    }
}

/// First scope position at or after `k` whose label recurs later;
/// `c.len()` when none does.
pub open spec fn first_dup_pos(c: Seq<ColumnLabel>, k: int) -> int
    decreases c.len() - k,
{
    if c.len() <= k {
        c.len() as int
    } else if c.skip(k + 1).contains(c[k]) {
        k
    } else {
        first_dup_pos(c, k + 1)
    }
}

pub proof fn lemma_first_dup_pos(c: Seq<ColumnLabel>, k: int)
    requires
        0 <= k <= c.len(),
    ensures
        k <= first_dup_pos(c, k) <= c.len(),
        first_dup_pos(c, k) < c.len() ==> c.skip(first_dup_pos(c, k) + 1).contains(
            c[first_dup_pos(c, k)],
        ),
        forall|m: int| k <= m < first_dup_pos(c, k) ==> !c.skip(m + 1).contains(c[m]),
    decreases c.len() - k,
{
    if k < c.len() && !c.skip(k + 1).contains(c[k]) {
        lemma_first_dup_pos(c, k + 1);
    }
}

/// The exact outcome of the normalization pass on any scope and row
/// set: repeatedly find the first position whose label recurs, delete
/// the first later occurrence, and keep only the repacked rows whose
/// two bits agreed.
pub open spec fn normalize_node(c: Seq<ColumnLabel>, r: Seq<RowEntry>) -> (Seq<ColumnLabel>, Seq<
    RowEntry,
>)
    decreases c.len(),
    via normalize_node_decreases
{
    let i = first_dup_pos(c, 0);
    if 0 <= i < c.len() {
        let j = i + 1 + first_index(c.skip(i + 1), c[i]);
        normalize_node(c.remove(j), squash_rows(r, i, j))
    } else {
        (c, r)
    }
}

#[via_fn]
proof fn normalize_node_decreases(c: Seq<ColumnLabel>, r: Seq<RowEntry>) {
    let i = first_dup_pos(c, 0);
    if 0 <= i < c.len() {
        lemma_first_dup_pos(c, 0);
        lemma_first_index(c.skip(i + 1), c[i]);
    }
}

/// Exactly one pair of scope positions carries a repeated label.
pub open spec fn one_dup_pair(c: Seq<ColumnLabel>, i: int, j: int) -> bool {
    &&& 0 <= i < j < c.len()
    &&& c[i] == c[j]
    &&& forall|p: int, q: int| 0 <= p < q < c.len() && !(p == i && q == j) ==> c[p] != c[q]
}

pub proof fn lemma_squash_rows_len(rows: Seq<RowEntry>, i: int, j: int)
    ensures
        squash_rows(rows, i, j).len() <= rows.len(),
    decreases rows.len(),
{
    if rows.len() > 0 {
        lemma_squash_rows_len(rows.drop_last(), i, j);
    }
}

impl Node {
    /// Identify scope positions `col` and `col2`, which carry the same
    /// column label: delete position `col2`, keep exactly the rows
    /// whose two bits agree, and repack them to close the gap.
    fn eliminate_duplicate(&mut self, col: usize, col2: usize)
        requires
            old(self).c@.len() <= 16,
            col < col2 < old(self).c@.len(),
        ensures
            final(self).n == old(self).n,
            final(self).a == old(self).a,
            final(self).c@ == old(self).c@.remove(col2 as int),
            final(self).r@ == squash_rows(old(self).r@, col as int, col2 as int),
    {
        self.c.remove(col2);
        let ghost rpre = self.r@;
        let ghost cmid = self.c@;
        let ghost i = col as int;
        let ghost j = col2 as int;
        let ghost mut k: int = 0;
        proof {
            assert(rpre.take(0) =~= Seq::<RowEntry>::empty());
            assert(rpre.skip(0) =~= rpre);
        }
        let mut row: usize = 0;
        while row < self.r.count()
            invariant
                col < col2 <= 15,
                i == col as int,
                j == col2 as int,
                0 <= k <= rpre.len(),
                self.c@ == cmid,
                self.n == old(self).n,
                self.a == old(self).a,
                row as int == squash_rows(rpre.take(k), i, j).len(),
                self.r@ == squash_rows(rpre.take(k), i, j) + rpre.skip(k),
            decreases rpre.len() - k,
        {
            proof {
                lemma_squash_rows_len(rpre.take(k), i, j);
                assert(self.r@.len() == row + rpre.skip(k).len());
                assert(k < rpre.len());
                assert(self.r@[row as int] == rpre.skip(k)[0]);
                assert(rpre.skip(k)[0] == rpre[k]);
            }
            let re = self.r.get(row);
            let c1: u16 = col as u16;
            let c2: u16 = col2 as u16;
            proof {
                assert(((re >> c1) & 1 == 0) || ((re >> c1) & 1 == 1)) by (bit_vector);
                assert(((re >> c2) & 1 == 0) || ((re >> c2) & 1 == 1)) by (bit_vector);
                assert(rpre.take(k + 1).drop_last() =~= rpre.take(k));
                assert(rpre.take(k + 1).last() == rpre[k]);
            }
            if ((re >> c1) & 1) != ((re >> c2) & 1) {
                self.r.remove(row);
                proof {
                    assert(row_bit(re, i) != row_bit(re, j));
                    assert(squash_rows(rpre.take(k + 1), i, j) =~= squash_rows(
                        rpre.take(k),
                        i,
                        j,
                    ));
                    assert(self.r@ =~= squash_rows(rpre.take(k + 1), i, j) + rpre.skip(k + 1));
                    k = k + 1;
                }
            } else {
                proof {
                    assert(1u16 << c2 >= 1) by (bit_vector)
                        requires
                            c2 <= 15,
                    ;
                }
                let mask1: u16 = (1u16 << c2) - 1;
                let mut mask2: u16 = 0xffff;
                mask2 = mask2 ^ (1u16 << c2);
                mask2 = mask2 ^ mask1;
                let m = self.r.get_mut(row);
                *m = (re & mask1) | ((re & mask2) >> 1u16);
                row = row + 1;
                proof {
                    assert(row_bit(re, i) == row_bit(re, j));
                    assert((re & mask1) | ((re & mask2) >> 1u16) == drop_bit(re, c2));
                    assert(squash_rows(rpre.take(k + 1), i, j) =~= squash_rows(
                        rpre.take(k),
                        i,
                        j,
                    ).push(drop_bit(re, c2)));
                    assert(self.r@ =~= squash_rows(rpre.take(k + 1), i, j) + rpre.skip(k + 1));
                    k = k + 1;
                }
            }
        }
        proof {
            assert(self.r@.len() == row + rpre.skip(k).len());
            assert(k == rpre.len());
            assert(rpre.take(k) =~= rpre);
        }
    }

    /// Eliminate duplicate scope columns: for each pair of positions
    /// sharing a label, drop rows whose two bits disagree, delete the
    /// later position, and repack remaining rows to close the gap.
    pub fn collapse_columns(&mut self)
        requires
            old(self).c@.len() <= 16,
        ensures
            final(self).n == old(self).n,
            final(self).a == old(self).a,
            distinct_cols(final(self).c@),
            final(self).c@.len() <= old(self).c@.len(),
            final(self).r@.len() <= old(self).r@.len(),
            forall|cl: ColumnLabel| final(self).c@.contains(cl) <==> old(self).c@.contains(cl),
            distinct_cols(old(self).c@) ==> final(self).c@ == old(self).c@
                && final(self).r@ == old(self).r@,
            forall|i: int, j: int| #[trigger] one_dup_pair(old(self).c@, i, j)
                ==> final(self).c@ == old(self).c@.remove(j)
                && final(self).r@ == squash_rows(old(self).r@, i, j),
            final(self).c@ == normalize_node(old(self).c@, old(self).r@).0,
            final(self).r@ == normalize_node(old(self).c@, old(self).r@).1,
    {
        let ghost c0 = self.c@;
        let ghost r0 = self.r@;
        let mut col: usize = 0;
        while col < self.c.count()
            invariant
                self.c@.len() <= 16,
                col <= self.c@.len(),
                self.c@.len() <= c0.len(),
                self.r@.len() <= r0.len(),
                forall|i: int, j: int| 0 <= i < j < self.c@.len() && i < col ==> self.c@[i] != self.c@[j],
                forall|cl: ColumnLabel| self.c@.contains(cl) <==> c0.contains(cl),
                distinct_cols(c0) ==> self.c@ == c0 && self.r@ == r0,
                forall|i: int, j: int| #[trigger] one_dup_pair(c0, i, j) ==> (col <= i
                    && self.c@ == c0 && self.r@ == r0) || (col > i && self.c@ == c0.remove(j)
                    && self.r@ == squash_rows(r0, i, j)),
                normalize_node(self.c@, self.r@) == normalize_node(c0, r0),
                self.n == old(self).n,
                self.a == old(self).a,
            decreases self.c@.len() - col,
        {
            let cl = self.c.get(col);
            let ghost clen_it = self.c@.len();
            let mut col2: usize = col + 1;
            while col2 < self.c.count()
                invariant
                    self.c@.len() <= clen_it,
                    self.c@.len() <= 16,
                    col < self.c@.len(),
                    col < col2 <= self.c@.len(),
                    self.c@[col as int] == cl,
                    self.c@.len() <= c0.len(),
                    self.r@.len() <= r0.len(),
                    forall|i: int, j: int| 0 <= i < j < self.c@.len() && i < col ==> self.c@[i] != self.c@[j],
                    forall|j: int| col < j < col2 ==> self.c@[j] != cl,
                    forall|x: ColumnLabel| self.c@.contains(x) <==> c0.contains(x),
                    distinct_cols(c0) ==> self.c@ == c0 && self.r@ == r0,
                    forall|i: int, j: int| #[trigger] one_dup_pair(c0, i, j) ==> (col < i
                        && self.c@ == c0 && self.r@ == r0) || (col == i && col2 <= j
                        && self.c@ == c0 && self.r@ == r0) || (col == i && col2 >= j
                        && self.c@ == c0.remove(j) && self.r@ == squash_rows(r0, i, j)) || (col
                        > i && self.c@ == c0.remove(j) && self.r@ == squash_rows(r0, i, j)),
                    normalize_node(self.c@, self.r@) == normalize_node(c0, r0),
                    self.n == old(self).n,
                    self.a == old(self).a,
                decreases self.c@.len() - col2,
            {
                let cl2 = self.c.get(col2);
                if cl == cl2 {
                    proof {
                        lemma_remove_dup_keeps_membership(self.c@, col as int, col2 as int);
                        lemma_squash_rows_len(self.r@, col as int, col2 as int);
                        if distinct_cols(c0) {
                            assert(self.c@[col as int] == self.c@[col2 as int]);
                            assert(false);
                        }
                        let cc = self.c@;
                        let ci = col as int;
                        let cj = col2 as int;
                        lemma_first_dup_pos(cc, 0);
                        assert(cc.skip(ci + 1)[cj - ci - 1] == cl);
                        assert(cc.skip(ci + 1).contains(cl));
                        assert forall|m: int| 0 <= m < ci implies !cc.skip(m + 1).contains(
                            cc[m],
                        ) by {
                            if cc.skip(m + 1).contains(cc[m]) {
                                let w = choose|w: int|
                                    0 <= w < cc.skip(m + 1).len() && #[trigger] cc.skip(
                                        m + 1,
                                    )[w] == cc[m];
                                assert(cc[m + 1 + w] == cc[m]);
                                assert(false);
                            }
                        }
                        assert(first_dup_pos(cc, 0) == ci) by {
                            let f = first_dup_pos(cc, 0);
                            if f < ci {
                                assert(!cc.skip(f + 1).contains(cc[f]));
                            }
                            if f > ci {
                                assert(!cc.skip(ci + 1).contains(cc[ci]));
                            }
                        }
                        lemma_first_index(cc.skip(ci + 1), cl);
                        assert forall|w: int| 0 <= w < cj - ci - 1 implies #[trigger] cc.skip(
                            ci + 1,
                        )[w] != cl by {
                            assert(cc.skip(ci + 1)[w] == cc[ci + 1 + w]);
                        }
                        assert(first_index(cc.skip(ci + 1), cl) == cj - ci - 1) by {
                            let fi = first_index(cc.skip(ci + 1), cl);
                            if fi < cj - ci - 1 {
                                assert(cc.skip(ci + 1)[fi] == cl);
                            }
                        }
                        assert(normalize_node(cc, self.r@) == normalize_node(
                            cc.remove(cj),
                            squash_rows(self.r@, ci, cj),
                        ));
                    }
                    self.eliminate_duplicate(col, col2);
                } else {
                    col2 = col2 + 1;
                }
            }
            col = col + 1;
        }
        proof {
            lemma_first_dup_pos(self.c@, 0);
            let f = first_dup_pos(self.c@, 0);
            if f < self.c@.len() {
                assert(self.c@.skip(f + 1).contains(self.c@[f]));
                let w = choose|w: int|
                    0 <= w < self.c@.skip(f + 1).len() && #[trigger] self.c@.skip(f + 1)[w]
                        == self.c@[f];
                assert(self.c@[f + 1 + w] == self.c@[f]);
                assert(false);
            }
            assert(normalize_node(self.c@, self.r@) == (self.c@, self.r@));
        }
    }
}

/// Removing the later of two equal scope entries keeps the set of
/// labels in the scope unchanged.
proof fn lemma_remove_dup_keeps_membership(c: Seq<ColumnLabel>, i: int, j: int)
    requires
        0 <= i < j < c.len(),
        c[i] == c[j],
    ensures
        forall|x: ColumnLabel| c.remove(j).contains(x) <==> c.contains(x),
{
    let d = c.remove(j);
    assert forall|x: ColumnLabel| d.contains(x) implies c.contains(x) by {
        let w = choose|w: int| 0 <= w < d.len() && d[w] == x;
        if w < j {
            assert(c[w] == x);
        } else {
            assert(c[w + 1] == x);
        }
    }
    assert forall|x: ColumnLabel| c.contains(x) implies d.contains(x) by {
        let w = choose|w: int| 0 <= w < c.len() && c[w] == x;
        if w < j {
            assert(d[w] == x);
        } else if w == j {
            assert(d[i] == x);
        } else {
            assert(d[w - 1] == x);
        }
    }
}

/// Append-only, position-indexed owner of all nodes; a node's position
/// is its permanent identity.
pub struct NodeList {
    pub l: Vec<Node>,
}

impl View for NodeList {
    type V = Seq<Node>;

    open spec fn view(&self) -> Seq<Node> {
        self.l@
    }
}

impl NodeList {
    pub fn new() -> (r: Self)
        ensures
            r@ == Seq::<Node>::empty(),
    {
        NodeList { l: Vec::new() }
    }

    pub fn count(&self) -> (r: usize)
        ensures
            r == self@.len(),
    {
        self.l.len()
    }

    /// Insert a node, normalizing duplicate scope columns first: the one
    /// normalization pass in the system.
    pub fn add(&mut self, n: Node)
        requires
            n.c@.len() <= 16,
        ensures
            final(self)@.len() == old(self)@.len() + 1,
            final(self)@.drop_last() == old(self)@,
            final(self)@.last().n == n.n,
            final(self)@.last().a == n.a,
            distinct_cols(final(self)@.last().c@),
            final(self)@.last().c@.len() <= n.c@.len(),
            final(self)@.last().r@.len() <= n.r@.len(),
            forall|cl: ColumnLabel| final(self)@.last().c@.contains(cl) <==> n.c@.contains(cl),
            distinct_cols(n.c@) ==> final(self)@.last().c@ == n.c@
                && final(self)@.last().r@ == n.r@,
            final(self)@.last().c@ == normalize_node(n.c@, n.r@).0,
            final(self)@.last().r@ == normalize_node(n.c@, n.r@).1,
    {
        let mut n = n;
        n.collapse_columns();
        self.l.push(n);
        proof {
            assert(self@.drop_last() =~= old(self)@);
        }
    }

    pub fn get(&self, i: usize) -> (r: &Node)
        requires
            i < self@.len(),
        ensures
            *r == self@[i as int],
    {
        &self.l[i]
    }

    pub fn get_mut(&mut self, i: usize) -> (r: &mut Node)
        requires
            i < old(self)@.len(),
        ensures
            *r == old(self)@[i as int],
            final(self)@ == old(self)@.update(i as int, *final(r)),
    {
        &mut self.l[i]
    }
}

} // verus!
