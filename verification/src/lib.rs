//! A pane-multiplexing layout and navigation engine for text interfaces.
//!
//! The engine owns a binary tree of rectangular regions. Each node is either
//! a split holding two ordered children, or a leaf hosting one pane. The
//! engine provides space-splitting insertion, space-collapsing removal,
//! proportional resizable geometry, directional focus movement with a
//! bounded return-path history, pane swapping, and a single-pane zoom mode.
//!
//! Panes are opaque to the engine: a [`Pane`] records only what the engine
//! reads of a hosted component, namely whether it accepts focus and which
//! size it asks for. The host owns the components themselves, keyed by the
//! [`Id`] values the engine hands out.

use vstd::prelude::*;

mod actions;
mod error;
mod id;
mod laws;
mod node;
mod path;
mod render;
mod tree;

pub use laws::lemma_children_never_one;
pub use laws::lemma_focus_attached;
pub use laws::lemma_history_reciprocity;
pub use laws::lemma_resize_keeps_minimum;
pub use laws::lemma_switch_twice_restores_shape;
pub use id::add_result_spec;
pub use id::remove_ok_spec;
pub use id::remove_sole;
pub use id::switch_ok_spec;
pub use actions::hist_goal_valid;
pub use actions::hist_hit;
pub use actions::push_evict;
pub use actions::spec_descend;
pub use actions::spec_hit_scan;
pub use actions::spec_move_outcome;
pub use actions::spec_offset_move_ok;
pub use actions::spec_resize_target;
pub use actions::spec_search_from;
pub use actions::spec_search_step;
pub use actions::spec_single_step;
pub use actions::spec_traverse;
pub use actions::spec_walk_path;
pub use node::axis_extent;
pub use node::offset_dec_ok;
pub use node::offset_inc_ok;
pub use path::spec_path_step;
pub use render::spec_first_extent;
pub use render::spec_healed_offset;
pub use render::spec_laid_node;
pub use render::spec_plan;
pub use render::spec_rec_layout;
pub use path::AwesomePath;
pub use path::SearchPath;
pub use render::cmd_ok;
pub use render::same_structure;
pub use render::split_extents;
pub use render::structure_unchanged;
pub use render::MIN_EXTENT;
pub use render::RenderCmd;

pub use error::AddViewError;
pub use error::RemoveViewError;
pub use error::RenderError;
pub use error::SwitchError;
pub use node::Node;
pub use node::Pane;
pub use tree::attached_in;
pub use tree::count_upto;
pub use tree::links_ok;
pub use tree::node_ok;
pub use tree::reaches_root;

verus! {

/// Identifier of a node in the multiplexer tree, returned when a view is
/// added. Ids stay valid while the node is attached; a removed node's id is
/// never reused, it merely stops being attached.
pub type Id = usize;

/// A two-dimensional extent or position measured in character cells.
#[derive(Clone, Copy, Debug, PartialEq, Eq, Structural)]
pub struct XY {
    pub x: usize,
    pub y: usize,
}

/// The axis along which a split divides its rectangle.
#[derive(Clone, Copy, Debug, PartialEq, Eq, Structural)]
pub enum Orientation {
    Vertical,
    Horizontal,
}

/// An absolute direction for focus movement and resizing.
#[derive(Clone, Copy, Debug, PartialEq, Eq, Structural)]
pub enum Dir {
    Left,
    Right,
    Up,
    Down,
}

impl Dir {
    /// The axis a movement in this direction crosses.
    pub open spec fn spec_orientation(self) -> Orientation {
        match self {
            Dir::Left | Dir::Right => Orientation::Horizontal,
            Dir::Up | Dir::Down => Orientation::Vertical,
        }
    }

    #[verifier::when_used_as_spec(spec_orientation)]
    pub fn orientation(self) -> (o: Orientation)
        ensures
            o == self.spec_orientation(),
    {
        match self {
            Dir::Left | Dir::Right => Orientation::Horizontal,
            Dir::Up | Dir::Down => Orientation::Vertical,
        }
    }

    /// The exact opposite direction.
    pub open spec fn spec_invert(self) -> Dir {
        match self {
            Dir::Left => Dir::Right,
            Dir::Right => Dir::Left,
            Dir::Up => Dir::Down,
            Dir::Down => Dir::Up,
        }
    }

    #[verifier::when_used_as_spec(spec_invert)]
    pub fn invert(self) -> (d: Dir)
        ensures
            d == self.spec_invert(),
    {
        match self {
            Dir::Left => Dir::Right,
            Dir::Right => Dir::Left,
            Dir::Up => Dir::Down,
            Dir::Down => Dir::Up,
        }
    }

    /// Whether this direction points at the second (right or lower) slot of
    /// a split on its own axis.
    pub open spec fn spec_is_forward(self) -> bool {
        match self {
            Dir::Right | Dir::Down => true,
            Dir::Left | Dir::Up => false,
        }
    }

    #[verifier::when_used_as_spec(spec_is_forward)]
    pub fn is_forward(self) -> (b: bool)
        ensures
            b == self.spec_is_forward(),
    {
        match self {
            Dir::Right | Dir::Down => true,
            Dir::Left | Dir::Up => false,
        }
    }
}

/// One remembered focus movement: focus went from `from` to `to` by moving
/// in `direction`.
#[derive(Clone, Copy, Debug, PartialEq, Eq, Structural)]
pub struct HistoryEntry {
    pub from: Id,
    pub to: Id,
    pub direction: Dir,
}

/// The multiplexer: a binary tree of panes together with the focused leaf,
/// the bounded movement history, and the zoom state.
pub struct Mux {
    pub nodes: Vec<Node>,
    pub root: Id,
    pub focus: Id,
    pub history: Vec<HistoryEntry>,
    pub history_length: usize,
    pub invalidated: bool,
    pub zoomed: bool,
}

impl Mux {
    /// Structural well-formedness: parent and child links agree, every node
    /// other than the root has zero or two children, and the focus is a node
    /// attached under the root.
    pub open spec fn wf(self) -> bool {
        &&& links_ok(self.nodes@, self.root)
        &&& (self.focus as int) < self.nodes@.len()
        &&& self.is_attached(self.focus)
    }

    /// Whether `i` is reachable from the root, that is, part of the tree.
    pub open spec fn is_attached(self, i: Id) -> bool {
        attached_in(self.nodes@, self.root, i)
    }

    /// The number of attached leaves (nodes hosting a pane).
    pub open spec fn leaf_count(self) -> int {
        count_upto(self.nodes@, self.root, true, self.nodes@.len() as int)
    }

    /// The number of attached splits (nodes without a pane).
    pub open spec fn split_count(self) -> int {
        count_upto(self.nodes@, self.root, false, self.nodes@.len() as int)
    }

    /// The tree shape: for every node its parent link, its ordered children,
    /// and its split orientation. Mutators describe their effect on this.
    pub open spec fn shape(self) -> Seq<(Option<Id>, Seq<Id>, Orientation)> {
        Seq::new(
            self.nodes@.len(),
            |i: int| (self.nodes@[i].parent, self.nodes@[i].children@, self.nodes@[i].orientation),
        )
    }

    /// A fresh engine holding a single empty placeholder split, which the
    /// first insertion fills.
    pub fn new() -> (m: Mux)
        ensures
            m.wf(),
            m.nodes@.len() == 1,
            m.root == 0usize,
            m.focus == 0usize,
            m.nodes@[0].pane is None,
            m.nodes@[0].children@.len() == 0,
            m.nodes@[0].orientation == Orientation::Horizontal,
            m.history@ =~= Seq::<HistoryEntry>::empty(),
            m.history_length == 50usize,
            m.invalidated,
            !m.zoomed,
            m.leaf_count() == 0,
    {
        let placeholder = Node::new_empty(Orientation::Horizontal);
        let mut nodes: Vec<Node> = Vec::new();
        nodes.push(placeholder);
        let m = Mux {
            nodes,
            root: 0,
            focus: 0,
            history: Vec::new(),
            history_length: 50,
            invalidated: true,
            zoomed: false,
        };
        proof {
            assert(reaches_root(m.nodes@, m.root, 0usize, 0nat));
            reveal_with_fuel(count_upto, 2);
        }
        m
    }

    /// The currently focused node id.
    pub fn focus(&self) -> (f: Id)
        ensures
            f == self.focus,
    {
        self.focus
    }

    /// The pane hosted by the focused node, if the focus is a leaf.
    pub fn get_current_view(&self) -> (p: Option<&Pane>)
        requires
            self.wf(),
        ensures
            match p {
                Some(pane) => self.nodes@[self.focus as int].pane == Some(*pane),
                None => self.nodes@[self.focus as int].pane is None,
            },
    {
        self.nodes[self.focus].pane.as_ref()
    }

    /// Sets the focus to `id` if `id` is attached; otherwise does nothing.
    pub fn set_focus(&mut self, id: Id)
        requires
            old(self).wf(),
        ensures
            final(self).wf(),
            old(self).is_attached(id) ==> final(self).focus == id && final(self).invalidated,
            !old(self).is_attached(id) ==> *final(self) == *old(self),
            final(self).nodes == old(self).nodes,
            final(self).root == old(self).root,
            final(self).history == old(self).history,
            final(self).zoomed == old(self).zoomed,
    {
        if self.is_attached_exec(id) {
            self.focus = id;
            self.invalidated = true;
        }
    }

    /// Chainable form of [`Mux::set_focus`].
    pub fn with_focus(self, id: Id) -> (m: Mux)
        requires
            self.wf(),
        ensures
            m.wf(),
            self.is_attached(id) ==> m.focus == id && m.invalidated,
            !self.is_attached(id) ==> m == self,
            m.nodes == self.nodes,
            m.root == self.root,
    {
        let mut m = self;
        m.set_focus(id);
        m
    }
}

impl Default for Mux {
    /// Same as [`Mux::new`].
    fn default() -> (m: Mux)
        ensures
            m.wf(),
            m.leaf_count() == 0,
    {
        Mux::new()
    }
}

} // verus!
