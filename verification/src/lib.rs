//! Boolean circuit constraint network.
//!
//! A `Graph` owns a set of relation nodes over globally numbered boolean
//! columns.  Clients compose primitive gates (constants, free variables,
//! full adders, AND gates) into binary addition and multiplication
//! circuits, run a forward unit-propagation pass to a fixpoint, and read
//! resolved bit values back out.
use vstd::prelude::*;

pub mod lists;
pub mod node;
pub mod graph;
pub mod arith;
pub mod collapse;
pub mod laws;

pub use lists::{NodeLabelList, ColumnLabelList, RowEntryList, Link, LinkList};
pub use node::{Node, NodeList};
pub use graph::Graph;

verus! {

/// Position of a node in the owning node list; a node's permanent identity.
pub type NodeLabel = u32;

/// Global identifier of one boolean signal.
pub type ColumnLabel = u32;

/// One bit-packed admissible joint assignment of a node's scope:
/// bit `i` of the word is the truth value of scope position `i`.
pub type RowEntry = u16;

/// The permanent constant-false terminal column.
pub const FALSE_COLUMN: ColumnLabel = 0;

/// The permanent constant-true terminal column.
pub const TRUE_COLUMN: ColumnLabel = 1;

} // verus!
