//! Relative steps through the tree: the side names used when inserting and
//! when recording which side a directional search ascended from.

use vstd::prelude::*;

use crate::Id;
use crate::Mux;

verus! {

/// A single step sideways or up/down relative to a split.
#[derive(Clone, Copy, Debug, PartialEq, Eq, Structural)]
pub enum SearchPath {
    Left,
    Right,
    Up,
    Down,
}

/// Whether an insertion on this side puts the new pane into the first
/// (left or upper) slot.
pub open spec fn side_first(d: SearchPath) -> bool {
    d == SearchPath::Left || d == SearchPath::Up
}

impl SearchPath {
    /// The axis this step moves along.
    pub open spec fn spec_orientation(self) -> crate::Orientation {
        match self {
            SearchPath::Left | SearchPath::Right => crate::Orientation::Horizontal,
            SearchPath::Up | SearchPath::Down => crate::Orientation::Vertical,
        }
    }

    #[verifier::when_used_as_spec(spec_orientation)]
    pub fn orientation(self) -> (o: crate::Orientation)
        ensures
            o == self.spec_orientation(),
    {
        match self {
            SearchPath::Left | SearchPath::Right => crate::Orientation::Horizontal,
            SearchPath::Up | SearchPath::Down => crate::Orientation::Vertical,
        }
    }

    /// Whether this step leaves towards the second (right or lower) slot.
    pub open spec fn spec_is_forward(self) -> bool {
        match self {
            SearchPath::Right | SearchPath::Down => true,
            SearchPath::Left | SearchPath::Up => false,
        }
    }

    #[verifier::when_used_as_spec(spec_is_forward)]
    pub fn is_forward(self) -> (b: bool)
        ensures
            b == self.spec_is_forward(),
    {
        match self {
            SearchPath::Right | SearchPath::Down => true,
            SearchPath::Left | SearchPath::Up => false,
        }
    }

    /// The step recording that a split on axis `o` was left from its first
    /// or second slot.
    pub open spec fn spec_from_side(o: crate::Orientation, first: bool) -> SearchPath {
        match (o, first) {
            (crate::Orientation::Horizontal, true) => SearchPath::Left,
            (crate::Orientation::Horizontal, false) => SearchPath::Right,
            (crate::Orientation::Vertical, true) => SearchPath::Up,
            (crate::Orientation::Vertical, false) => SearchPath::Down,
        }
    }

    #[verifier::when_used_as_spec(spec_from_side)]
    pub fn from_side(o: crate::Orientation, first: bool) -> (d: SearchPath)
        ensures
            d == SearchPath::spec_from_side(o, first),
            d.spec_orientation() == o,
            d.spec_is_forward() == !first,
    {
        match (o, first) {
            (crate::Orientation::Horizontal, true) => SearchPath::Left,
            (crate::Orientation::Horizontal, false) => SearchPath::Right,
            (crate::Orientation::Vertical, true) => SearchPath::Up,
            (crate::Orientation::Vertical, false) => SearchPath::Down,
        }
    }
}

/// Where one path step leads: an invalid cursor stays invalid, a node
/// without children is passed through untouched, a split on the requested
/// axis yields its first or second child per the step's side, and any
/// other split invalidates the path.
pub open spec fn spec_path_step(
    nodes: Seq<crate::Node>,
    cur: Option<Id>,
    direction: SearchPath,
    orit: crate::Orientation,
) -> Option<Id> {
    match cur {
        None => None,
        Some(node) => {
            let ch = nodes[node as int].children@;
            if ch.len() == 0 {
                Some(node)
            } else if nodes[node as int].orientation != orit {
                None
            } else {
                let idx: int = if side_first(direction) {
                    0
                } else {
                    1
                };
                if idx < ch.len() {
                    Some(ch[idx])
                } else {
                    None
                }
            }
        },
    }
}

/// A path from the root used to find a pane's id by walking directions:
/// steer with `up`, `down`, `left` and `right`, and finish with `build`.
pub struct AwesomePath<'a> {
    pub mux: &'a Mux,
    pub cur_id: Option<Id>,
}

impl<'a> AwesomePath<'a> {
    /// The path's cursor stays on an attached node of a well-formed tree.
    pub open spec fn wf_path(self) -> bool {
        &&& self.mux.wf()
        &&& match self.cur_id {
            Some(c) => (c as int) < self.mux.nodes@.len() && self.mux.is_attached(c),
            None => true,
        }
    }

    fn new(mux: &'a Mux, id: Id) -> (p: AwesomePath<'a>)
        requires
            mux.wf(),
            (id as int) < mux.nodes@.len(),
            mux.is_attached(id),
        ensures
            p.wf_path(),
            p.mux == mux,
            p.cur_id == Some(id),
    {
        AwesomePath { mux, cur_id: Some(id) }
    }

    /// Finishes the path. The option holds the target id: the node the
    /// path reached, provided it hosts a pane or is the still-empty
    /// placeholder; `None` where no pane fits the path.
    pub fn build(self) -> (r: Option<Id>)
        requires
            self.wf_path(),
        ensures
            match r {
                Some(id) => {
                    &&& self.cur_id == Some(id)
                    &&& self.mux.is_attached(id)
                    &&& (self.mux.nodes@[id as int].pane is Some || self.mux.nodes@[
                        id as int].children@.len() == 0)
                },
                None => match self.cur_id {
                    Some(c) => self.mux.nodes@[c as int].pane is None && self.mux.nodes@[
                        c as int].children@.len() > 0,
                    None => true,
                },
            },
    {
        match self.cur_id {
            Some(node) => {
                if self.mux.nodes[node].pane.is_some() || self.mux.nodes[node].children.len()
                    == 0 {
                    Some(node)
                } else {
                    None
                }
            },
            None => None,
        }
    }

    /// Going up from the current position.
    pub fn up(self) -> (p: AwesomePath<'a>)
        requires
            self.wf_path(),
        ensures
            p.wf_path(),
            p.mux == self.mux,
            p.cur_id == spec_path_step(self.mux.nodes@, self.cur_id, SearchPath::Up, crate::Orientation::Vertical),
    {
        self.next_node(SearchPath::Up, crate::Orientation::Vertical)
    }

    /// Going down from the current position.
    pub fn down(self) -> (p: AwesomePath<'a>)
        requires
            self.wf_path(),
        ensures
            p.wf_path(),
            p.mux == self.mux,
            p.cur_id == spec_path_step(self.mux.nodes@, self.cur_id, SearchPath::Down, crate::Orientation::Vertical),
    {
        self.next_node(SearchPath::Down, crate::Orientation::Vertical)
    }

    /// Going left from the current position.
    pub fn left(self) -> (p: AwesomePath<'a>)
        requires
            self.wf_path(),
        ensures
            p.wf_path(),
            p.mux == self.mux,
            p.cur_id == spec_path_step(self.mux.nodes@, self.cur_id, SearchPath::Left, crate::Orientation::Horizontal),
    {
        self.next_node(SearchPath::Left, crate::Orientation::Horizontal)
    }

    /// Going right from the current position.
    pub fn right(self) -> (p: AwesomePath<'a>)
        requires
            self.wf_path(),
        ensures
            p.wf_path(),
            p.mux == self.mux,
            p.cur_id == spec_path_step(self.mux.nodes@, self.cur_id, SearchPath::Right, crate::Orientation::Horizontal),
    {
        self.next_node(SearchPath::Right, crate::Orientation::Horizontal)
    }

    /// One step: into the first or second child where the split's
    /// orientation matches the requested axis, invalid otherwise. A node
    /// without children is passed through untouched.
    fn next_node(self, direction: SearchPath, orit: crate::Orientation) -> (p: AwesomePath<'a>)
        requires
            self.wf_path(),
        ensures
            p.wf_path(),
            p.mux == self.mux,
            p.cur_id == spec_path_step(self.mux.nodes@, self.cur_id, direction, orit),
    {
        let ghost nodes = self.mux.nodes@;
        let ghost root = self.mux.root;
        match self.cur_id {
            Some(node) => {
                proof {
                    assert(crate::tree::node_ok(nodes, root, node as int));
                }
                let cc = self.mux.nodes[node].children.len();
                if cc > 0 {
                    if self.mux.nodes[node].orientation == orit {
                        let idx: usize = match direction {
                            SearchPath::Up | SearchPath::Left => 0,
                            SearchPath::Right | SearchPath::Down => 1,
                        };
                        if idx < cc {
                            let c = self.mux.nodes[node].children[idx];
                            proof {
                                crate::tree::lemma_attached_step(nodes, root, c);
                                if c == root {
                                    assert(crate::tree::reaches_root(nodes, root, c, 0nat));
                                }
                            }
                            AwesomePath { mux: self.mux, cur_id: Some(c) }
                        } else {
                            AwesomePath { mux: self.mux, cur_id: None }
                        }
                    } else {
                        AwesomePath { mux: self.mux, cur_id: None }
                    }
                } else {
                    self
                }
            },
            None => self,
        }
    }
}

impl Mux {
    /// The starting path for finding a pane's id: it begins at the root
    /// and is walked with the direction methods.
    pub fn root(&self) -> (p: AwesomePath)
        requires
            self.wf(),
        ensures
            p.wf_path(),
            p.mux == self,
            p.cur_id == Some(self.root),
    {
        proof {
            assert(crate::tree::reaches_root(self.nodes@, self.root, self.root, 0nat));
        }
        AwesomePath::new(self, self.root)
    }
}

} // verus!
