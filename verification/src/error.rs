//! The error values returned by the multiplexer. All failures are local and
//! recoverable; no operation aborts the engine.

use vstd::prelude::*;

use crate::Id;

verus! {

/// Why a view could not be added.
#[derive(Clone, Copy, Debug, PartialEq, Eq, Structural)]
pub enum AddViewError {
    /// The anchor id is not attached to the tree, or the anchor is a full
    /// root that cannot be wrapped in place.
    GenericError {},
}

/// Why a view could not be removed.
#[derive(Clone, Copy, Debug, PartialEq, Eq, Structural)]
pub enum RemoveViewError {
    /// The id is not an attached descendant of the root.
    InvalidId { id: Id },
    /// The id names the sole remaining pane, which has no sibling to take
    /// its place.
    NoSibling {},
}

/// Why two views could not switch positions.
#[derive(Clone, Copy, Debug, PartialEq, Eq, Structural)]
pub enum SwitchError {
    /// `from` has no parent to be switched out of while exchanging it with
    /// `to`: it is the root, or it is not attached at all.
    NoParent { from: Id, to: Id },
    /// One operand is an ancestor of the other, so exchanging them would
    /// tear the tree.
    Failed {},
}

/// Why a geometry step could not be carried out.
#[derive(Clone, Copy, Debug, PartialEq, Eq, Structural)]
pub enum RenderError {
    /// A ratio offset adjustment would push a child region below the
    /// minimum extent, or no laid-out size is known yet.
    Arithmetic {},
}

} // verus!
