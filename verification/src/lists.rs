//! Typed positional containers: thin wrappers around `Vec` with exact
//! sequence-level contracts, one wrapper per label space so that node
//! positions, column labels and packed rows cannot be mixed up.
use vstd::prelude::*;
use crate::{NodeLabel, ColumnLabel, RowEntry};

verus! {

/// Ordered list of node positions.
pub struct NodeLabelList {
    pub l: Vec<NodeLabel>,
}

impl View for NodeLabelList {
    type V = Seq<NodeLabel>;

    open spec fn view(&self) -> Seq<NodeLabel> {
        self.l@
    }
}

impl NodeLabelList {
    pub fn new() -> (r: Self)
        ensures
            r@ == Seq::<NodeLabel>::empty(),
    {
        NodeLabelList { l: Vec::new() }
    }

    pub fn count(&self) -> (r: usize)
        ensures
            r == self@.len(),
    {
        self.l.len()
    }

    pub fn add(&mut self, l: NodeLabel)
        ensures
            final(self)@ == old(self)@.push(l),
    {
        self.l.push(l);
    }

    pub fn get(&self, i: usize) -> (r: NodeLabel)
        requires
            i < self@.len(),
        ensures
            r == self@[i as int],
    {
        self.l[i]
    }
}

/// Reverse index entry: the positions of every node whose scope mentions
/// column `c`.
pub struct Link {
    pub n: NodeLabelList,
    pub c: ColumnLabel,
}

/// Derived reverse index, one `Link` per column, rebuilt wholesale before
/// each propagation pass.
pub struct LinkList {
    pub l: Vec<Link>,
}

impl View for LinkList {
    type V = Seq<Link>;

    open spec fn view(&self) -> Seq<Link> {
        self.l@
    }
}

impl LinkList {
    pub fn new() -> (r: Self)
        ensures
            r@ == Seq::<Link>::empty(),
    {
        LinkList { l: Vec::new() }
    }

    pub fn count(&self) -> (r: usize)
        ensures
            r == self@.len(),
    {
        self.l.len()
    }

    pub fn add(&mut self, l: Link)
        ensures
            final(self)@ == old(self)@.push(l),
    {
        self.l.push(l);
    }

    pub fn get(&self, i: usize) -> (r: &Link)
        requires
            i < self@.len(),
        ensures
            *r == self@[i as int],
    {
        &self.l[i]
    }

    pub fn get_mut(&mut self, i: usize) -> (r: &mut Link)
        requires
            i < old(self)@.len(),
        ensures
            *r == old(self)@[i as int],
            final(self)@ == old(self)@.update(i as int, *final(r)),
    {
        &mut self.l[i]
    }
}

/// Ordered list of column labels; a node's scope, or a transient number
/// (least-significant bit first).
pub struct ColumnLabelList {
    pub l: Vec<ColumnLabel>,
}

impl View for ColumnLabelList {
    type V = Seq<ColumnLabel>;

    open spec fn view(&self) -> Seq<ColumnLabel> {
        self.l@
    }
}

impl ColumnLabelList {
    pub fn new() -> (r: Self)
        ensures
            r@ == Seq::<ColumnLabel>::empty(),
    {
        ColumnLabelList { l: Vec::new() }
    }

    pub fn count(&self) -> (r: usize)
        ensures
            r == self@.len(),
    {
        self.l.len()
    }

    pub fn add(&mut self, l: ColumnLabel)
        ensures
            final(self)@ == old(self)@.push(l),
    {
        self.l.push(l);
    }

    pub fn get(&self, i: usize) -> (r: ColumnLabel)
        requires
            i < self@.len(),
        ensures
            r == self@[i as int],
    {
        self.l[i]
    }

    pub fn remove(&mut self, i: usize)
        requires
            i < old(self)@.len(),
        ensures
            final(self)@ == old(self)@.remove(i as int),
    {
        self.l.remove(i);
    }
}

/// Ordered list of bit-packed admissible rows of one node.
pub struct RowEntryList {
    pub l: Vec<RowEntry>,
}

impl View for RowEntryList {
    type V = Seq<RowEntry>;

    open spec fn view(&self) -> Seq<RowEntry> {
        self.l@
    }
}

impl RowEntryList {
    pub fn new() -> (r: Self)
        ensures
            r@ == Seq::<RowEntry>::empty(),
    {
        RowEntryList { l: Vec::new() }
    }

    pub fn count(&self) -> (r: usize)
        ensures
            r == self@.len(),
    {
        self.l.len()
    }

    pub fn add(&mut self, e: RowEntry)
        ensures
            final(self)@ == old(self)@.push(e),
    {
        self.l.push(e);
    }

    pub fn get(&self, i: usize) -> (r: RowEntry)
        requires
            i < self@.len(),
        ensures
            r == self@[i as int],
    {
        self.l[i]
    }

    pub fn get_mut(&mut self, i: usize) -> (r: &mut RowEntry)
        requires
            i < old(self)@.len(),
        ensures
            *r == old(self)@[i as int],
            final(self)@ == old(self)@.update(i as int, *final(r)),
    {
        &mut self.l[i]
    }

    pub fn remove(&mut self, i: usize)
        requires
            i < old(self)@.len(),
        ensures
            final(self)@ == old(self)@.remove(i as int),
    {
        self.l.remove(i);
    }
}

} // verus!
