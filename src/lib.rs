//! Next-action labelling for a hierarchical task list.
//!
//! A flat, rank-ordered list of projects and items is rebuilt into a tree
//! from the indent level of each record ([`tree`]), and the tree is walked to
//! decide which items carry the "next action" label and which lose it
//! ([`traverse`]).
use vstd::prelude::*;

pub mod apply;
pub mod commands;
pub mod ranked;
pub mod records;
pub mod traverse;
pub mod tree;

pub use records::{Item, Label, Note, Project, TodoistResponse, User};
pub use traverse::{traverse, LabelUpdate, TraversalState};
pub use tree::{BuildError, Node, NodeType, TaskTree};

verus! {

/// Label given to the items that can be worked on now.
pub const NEXTACTION: &'static str = "nextaction";

/// Label of the items deferred on purpose.
pub const SOMEDAY: &'static str = "someday";

/// Last character of a name whose children may all be worked on at once.
pub const PARALLEL: char = '-';

/// Last character of a name whose children are worked on one after another.
pub const SEQUENTIAL: char = ':';

} // verus!
