//! The layout engine and the render plan: recursive distribution of the
//! rectangle over the tree, governed by the ratio offsets with a
//! self-healing minimum-extent clamp, and the flat list of paint commands
//! a host needs to draw the panes and their separators.

use vstd::prelude::*;

use crate::Id;
use crate::Mux;
use crate::Node;
use crate::Orientation;
use crate::XY;
use crate::tree::attached_in;
use crate::tree::lemma_attached_frame_all;
use crate::tree::lemma_attached_step;
use crate::tree::node_ok;
use crate::tree::parent_in_range;
use crate::tree::reaches_root;

verus! {

/// The least extent, in cells, a resize or the layout clamp leaves to
/// either child of a split.
pub const MIN_EXTENT: usize = 1;

/// The extent the first (left or upper) child of a split receives out of
/// `extent`: half plus the ratio offset, clamped into the available space.
pub open spec fn spec_first_extent(extent: int, off: int) -> int {
    let e = extent / 2 + off;
    if e < 0 {
        0
    } else if e > extent {
        extent
    } else {
        e
    }
}

/// Splits `extent` between the two children of a split with ratio offset
/// `off`. The two extents always sum back to the whole: the second child
/// takes what the first leaves.
pub fn split_extents(extent: usize, off: i16) -> (r: (usize, usize))
    ensures
        r.0 == spec_first_extent(extent as int, off as int),
        r.0 + r.1 == extent,
{
    let base = extent / 2;
    let e1: usize = if off >= 0 {
        let o = off as usize;
        if o > extent - base {
            extent
        } else {
            base + o
        }
    } else {
        let o = (-(off as i64)) as usize;
        if o > base {
            0
        } else {
            base - o
        }
    };
    (e1, extent - e1)
}

/// The stored offset after the layout pass's self-healing clamp: one step
/// back towards the center when its own side of the split has fallen
/// below the minimum extent.
pub open spec fn spec_healed_offset(extent: int, off: int) -> int {
    let e = extent / 2 + off;
    if e < MIN_EXTENT && off < 0 {
        off + 1
    } else if extent - e < MIN_EXTENT && off > 0 {
        off - 1
    } else {
        off
    }
}

/// A node as one layout visit leaves it: the allotted rectangle is
/// cached, and a pane also settles on its clamped size and its position.
pub open spec fn spec_laid_node(nd: Node, constraint: XY, start: XY) -> Node {
    Node {
        size: if nd.pane is Some {
            Some(
                XY {
                    x: vstd::math::min(
                        constraint.x as int,
                        nd.pane.unwrap().spec_measure(constraint).x as int,
                    ) as usize,
                    y: vstd::math::min(
                        constraint.y as int,
                        nd.pane.unwrap().spec_measure(constraint).y as int,
                    ) as usize,
                },
            )
        } else {
            nd.size
        },
        total_size: Some(constraint),
        total_position: if nd.pane is Some {
            Some(start)
        } else {
            nd.total_position
        },
        ..nd
    }
}

/// The whole layout pass over a subtree, as a value: a two-child split
/// heals its offset, caches its rectangle and divides the extent by
/// [`spec_first_extent`], the second child starting where the first ends;
/// a sole child inherits the whole rectangle; anything else is laid out
/// in place. The fuel matches the pass's own bound.
pub open spec fn spec_rec_layout(
    nodes: Seq<Node>,
    node: Id,
    constraint: XY,
    start: XY,
    fuel: nat,
) -> Seq<Node>
    decreases fuel,
{
    if fuel == 0 {
        nodes
    } else {
        let ch = nodes[node as int].children@;
        if ch.len() == 2 {
            let orit = nodes[node as int].orientation;
            let extent: int = match orit {
                Orientation::Horizontal => constraint.x as int,
                Orientation::Vertical => constraint.y as int,
            };
            let healed = spec_healed_offset(
                extent,
                nodes[node as int].split_ratio_offset as int,
            );
            let visited = Node {
                split_ratio_offset: healed as i16,
                ..spec_laid_node(nodes[node as int], constraint, start)
            };
            let nodes1 = nodes.update(node as int, visited);
            let e1 = spec_first_extent(extent, healed);
            let e2 = extent - e1;
            let c1 = match orit {
                Orientation::Horizontal => XY { x: e1 as usize, y: constraint.y },
                Orientation::Vertical => XY { x: constraint.x, y: e1 as usize },
            };
            let c2 = match orit {
                Orientation::Horizontal => XY { x: e2 as usize, y: constraint.y },
                Orientation::Vertical => XY { x: constraint.x, y: e2 as usize },
            };
            let start2 = match orit {
                Orientation::Horizontal => XY { x: (start.x + e1) as usize, y: start.y },
                Orientation::Vertical => XY { x: start.x, y: (start.y + e1) as usize },
            };
            let nodes2 = spec_rec_layout(nodes1, ch[0], c1, start, (fuel - 1) as nat);
            spec_rec_layout(nodes2, ch[1], c2, start2, (fuel - 1) as nat)
        } else if ch.len() == 1 {
            spec_rec_layout(nodes, ch[0], constraint, start, (fuel - 1) as nat)
        } else {
            nodes.update(node as int, spec_laid_node(nodes[node as int], constraint, start))
        }
    }
}

/// Equality of everything the tree's structure consists of: the links, the
/// pane, and the orientation; the geometry cache and the ratio offset may
/// differ.
pub open spec fn same_structure(a: Node, b: Node) -> bool {
    &&& a.parent == b.parent
    &&& a.children == b.children
    &&& a.pane == b.pane
    &&& a.orientation == b.orientation
}

/// A layout pass touches only offsets and cached geometry: the tree, the
/// focus and the history stay as they were.
pub open spec fn structure_unchanged(m0: Mux, m1: Mux) -> bool {
    &&& m1.nodes@.len() == m0.nodes@.len()
    &&& (forall|j: int|
        0 <= j < m0.nodes@.len() ==> same_structure(#[trigger] m1.nodes@[j], m0.nodes@[j]))
    &&& m1.root == m0.root
    &&& m1.focus == m0.focus
    &&& m1.history == m0.history
    &&& m1.history_length == m0.history_length
    &&& m1.zoomed == m0.zoomed
}

/// Well-formedness only reads the structure, so it survives any change
/// that keeps the structure.
pub proof fn lemma_structure_wf(m0: Mux, m1: Mux)
    requires
        m0.wf(),
        structure_unchanged(m0, m1),
    ensures
        m1.wf(),
        forall|x: Id|
            (x as int) < m0.nodes@.len() ==> #[trigger] m1.is_attached(x) == m0.is_attached(x),
{
    let nodes0 = m0.nodes@;
    let nodes1 = m1.nodes@;
    let root = m0.root;
    assert forall|i: int| 0 <= i < nodes1.len() implies node_ok(nodes1, root, i) by {
        assert(node_ok(nodes0, root, i));
        assert(same_structure(nodes1[i], nodes0[i]));
        assert forall|t: int|
            0 <= t < nodes1[i].children@.len() implies ((#[trigger] nodes1[i].children@[t] as int)
            < nodes1.len() && nodes1[nodes1[i].children@[t] as int].parent == Some(i as Id)) by {
            let c = nodes0[i].children@[t];
            assert(same_structure(nodes1[c as int], nodes0[c as int]));
        }
        match nodes1[i].parent {
            Some(q) => {
                assert(nodes0[i].parent == Some(q));
                assert(same_structure(nodes1[q as int], nodes0[q as int]));
            },
            None => {},
        }
    }
    assert forall|j: int|
        0 <= j < nodes0.len() implies parent_in_range(nodes0, j, nodes0.len() as int) by {
        assert(node_ok(nodes0, root, j));
    }
    assert forall|j: int| 0 <= j < nodes0.len() implies nodes1[j].parent == nodes0[j].parent by {
        assert(same_structure(nodes1[j], nodes0[j]));
    }
    lemma_attached_frame_all(nodes0, nodes1, root);
}

/// One paint command of the render plan. A host paints the commands in
/// order: each pane into its rectangle, then the one-cell separator lines
/// between sibling regions.
#[derive(Clone, Copy, Debug, PartialEq, Eq, Structural)]
pub enum RenderCmd {
    Pane { id: Id, pos: XY, size: XY, focused: bool },
    HLine { pos: XY, len: usize },
    VLine { pos: XY, len: usize },
}

/// What every command of a render plan satisfies: a pane command names an
/// attached leaf and carries the focus flag of exactly the focused node.
pub open spec fn cmd_ok(m: Mux, c: RenderCmd) -> bool {
    match c {
        RenderCmd::Pane { id, pos, size, focused } => {
            &&& (id as int) < m.nodes@.len()
            &&& m.is_attached(id)
            &&& m.nodes@[id as int].pane is Some
            &&& focused == (id == m.focus)
        },
        RenderCmd::HLine { pos, len } => true,
        RenderCmd::VLine { pos, len } => true,
    }
}

/// The paint plan of a subtree, as a value: a leaf is one pane command
/// over its clamped size; a split divides its extent by its offset,
/// plans both children, and, when the divided extent exceeds one cell,
/// adds the one-cell separator line at the boundary; an empty placeholder
/// paints nothing. The fuel matches the walk's own bound.
pub open spec fn spec_plan(
    nodes: Seq<Node>,
    focus: Id,
    node: Id,
    constraint: XY,
    start: XY,
    fuel: nat,
) -> Seq<RenderCmd>
    decreases fuel,
{
    if fuel == 0 {
        Seq::empty()
    } else {
        let ch = nodes[node as int].children@;
        if ch.len() == 2 {
            let orit = nodes[node as int].orientation;
            let extent: int = match orit {
                Orientation::Horizontal => constraint.x as int,
                Orientation::Vertical => constraint.y as int,
            };
            let e1 = spec_first_extent(extent, nodes[node as int].split_ratio_offset as int);
            let e2 = extent - e1;
            let c1 = match orit {
                Orientation::Horizontal => XY { x: e1 as usize, y: constraint.y },
                Orientation::Vertical => XY { x: constraint.x, y: e1 as usize },
            };
            let c2 = match orit {
                Orientation::Horizontal => XY { x: e2 as usize, y: constraint.y },
                Orientation::Vertical => XY { x: constraint.x, y: e2 as usize },
            };
            let start2 = match orit {
                Orientation::Horizontal => XY { x: (start.x + e1) as usize, y: start.y },
                Orientation::Vertical => XY { x: start.x, y: (start.y + e1) as usize },
            };
            let sep = match orit {
                Orientation::Horizontal => RenderCmd::VLine { pos: start2, len: constraint.y },
                Orientation::Vertical => RenderCmd::HLine { pos: start2, len: constraint.x },
            };
            spec_plan(nodes, focus, ch[0], c1, start, (fuel - 1) as nat).add(
                spec_plan(nodes, focus, ch[1], c2, start2, (fuel - 1) as nat),
            ).add(
                if extent > 1 {
                    seq![sep]
                } else {
                    Seq::empty()
                },
            )
        } else if ch.len() == 1 {
            spec_plan(nodes, focus, ch[0], constraint, start, (fuel - 1) as nat)
        } else {
            match nodes[node as int].pane {
                Some(p) => seq![
                    RenderCmd::Pane {
                        id: node,
                        pos: start,
                        size: XY {
                            x: vstd::math::min(
                                constraint.x as int,
                                p.spec_measure(constraint).x as int,
                            ) as usize,
                            y: vstd::math::min(
                                constraint.y as int,
                                p.spec_measure(constraint).y as int,
                            ) as usize,
                        },
                        focused: node == focus,
                    },
                ],
                None => Seq::empty(),
            }
        }
    }
}

impl Mux {
    /// The recursive layout pass: a leaf takes the rectangle, clamped to
    /// what its pane asks for; a split heals its offset, divides its
    /// extent and recurses, the second child starting where the first
    /// ends.
    fn rec_layout(&mut self, node: Id, constraint: XY, start: XY, fuel: usize)
        requires
            old(self).wf(),
            (node as int) < old(self).nodes@.len(),
            start.x + constraint.x <= usize::MAX,
            start.y + constraint.y <= usize::MAX,
        ensures
            final(self).wf(),
            structure_unchanged(*old(self), *final(self)),
            final(self).invalidated == old(self).invalidated,
            final(self).nodes@ == spec_rec_layout(
                old(self).nodes@,
                node,
                constraint,
                start,
                fuel as nat,
            ),
        decreases fuel,
    {
        if fuel == 0 {
            return ;
        }
        let ghost m0 = *self;
        proof {
            assert(node_ok(self.nodes@, self.root, node as int));
        }
        let ghost full = spec_rec_layout(m0.nodes@, node, constraint, start, fuel as nat);
        let cc = self.nodes[node].children.len();
        if cc == 2 {
            let left = self.nodes[node].children[0];
            let right = self.nodes[node].children[1];
            let orit = self.nodes[node].orientation;
            let extent: usize = match orit {
                Orientation::Horizontal => constraint.x,
                Orientation::Vertical => constraint.y,
            };
            let off0 = self.nodes[node].split_ratio_offset;
            let e1_signed: i128 = (extent / 2) as i128 + off0 as i128;
            let healed: i16 = if e1_signed < MIN_EXTENT as i128 && off0 < 0 {
                off0 + 1
            } else if (extent as i128) - e1_signed < MIN_EXTENT as i128 && off0 > 0 {
                off0 - 1
            } else {
                off0
            };
            proof {
                assert(healed as int == spec_healed_offset(
                    extent as int,
                    off0 as int,
                ));
            }
            self.nodes[node].split_ratio_offset = healed;
            self.nodes[node].layout_view(constraint);
            proof {
                assert(self.nodes@ =~= m0.nodes@.update(
                    node as int,
                    (Node {
                        split_ratio_offset: healed,
                        ..spec_laid_node(m0.nodes@[node as int], constraint, start)
                    }),
                ));
            }
            let extents = split_extents(extent, healed);
            let e1 = extents.0;
            let e2 = extents.1;
            let c1 = match orit {
                Orientation::Horizontal => XY { x: e1, y: constraint.y },
                Orientation::Vertical => XY { x: constraint.x, y: e1 },
            };
            let c2 = match orit {
                Orientation::Horizontal => XY { x: e2, y: constraint.y },
                Orientation::Vertical => XY { x: constraint.x, y: e2 },
            };
            let start2 = match orit {
                Orientation::Horizontal => XY { x: start.x + e1, y: start.y },
                Orientation::Vertical => XY { x: start.x, y: start.y + e1 },
            };
            let ghost m1 = *self;
            proof {
                assert(structure_unchanged(m0, m1));
                lemma_structure_wf(m0, m1);
            }
            self.rec_layout(left, c1, start, fuel - 1);
            let ghost m2 = *self;
            proof {
                assert forall|j: int|
                    0 <= j < m0.nodes@.len() implies same_structure(
                    #[trigger] m2.nodes@[j],
                    m0.nodes@[j],
                ) by {
                    assert(same_structure(m2.nodes@[j], m1.nodes@[j]));
                    assert(same_structure(m1.nodes@[j], m0.nodes@[j]));
                }
                assert(structure_unchanged(m0, m2));
            }
            self.rec_layout(right, c2, start2, fuel - 1);
            proof {
                assert forall|j: int|
                    0 <= j < m0.nodes@.len() implies same_structure(
                    #[trigger] self.nodes@[j],
                    m0.nodes@[j],
                ) by {
                    assert(same_structure(self.nodes@[j], m2.nodes@[j]));
                    assert(same_structure(m2.nodes@[j], m0.nodes@[j]));
                }
                assert(self.nodes@ == full);
            }
        } else if cc == 1 {
            let child = self.nodes[node].children[0];
            self.rec_layout(child, constraint, start, fuel - 1);
            proof {
                assert(self.nodes@ == full);
            }
        } else {
            self.nodes[node].layout_view(constraint);
            self.nodes[node].set_pos(start);
            proof {
                assert(self.nodes@ =~= m0.nodes@.update(
                    node as int,
                    spec_laid_node(m0.nodes@[node as int], constraint, start),
                ));
                assert(self.nodes@ == full);
                assert(structure_unchanged(m0, *self));
                lemma_structure_wf(m0, *self);
            }
        }
    }

    /// One layout pass over the whole rectangle: while zoomed only the
    /// focused node is measured and placed at the origin, otherwise the
    /// rectangle is distributed recursively from the root. Consumes the
    /// invalidation mark.
    pub fn layout(&mut self, constraint: XY)
        requires
            old(self).wf(),
        ensures
            final(self).wf(),
            structure_unchanged(*old(self), *final(self)),
            !final(self).invalidated,
            final(self).nodes@ == if old(self).zoomed {
                old(self).nodes@.update(
                    old(self).focus as int,
                    spec_laid_node(
                        old(self).nodes@[old(self).focus as int],
                        constraint,
                        XY { x: 0, y: 0 },
                    ),
                )
            } else {
                spec_rec_layout(
                    old(self).nodes@,
                    old(self).root,
                    constraint,
                    XY { x: 0, y: 0 },
                    old(self).nodes@.len() as nat,
                )
            },
    {
        self.invalidated = false;
        let ghost m0 = *self;
        if self.zoomed {
            let f = self.focus;
            self.nodes[f].layout_view(constraint);
            self.nodes[f].set_pos(XY { x: 0, y: 0 });
            proof {
                assert(self.nodes@ =~= m0.nodes@.update(
                    m0.focus as int,
                    spec_laid_node(
                        m0.nodes@[m0.focus as int],
                        constraint,
                        XY { x: 0, y: 0 },
                    ),
                ));
                assert(structure_unchanged(m0, *self));
                lemma_structure_wf(m0, *self);
            }
        } else {
            let r = self.root;
            let fuel = self.nodes.len();
            self.rec_layout(r, constraint, XY { x: 0, y: 0 }, fuel);
        }
    }

    /// The recursive paint walk behind [`Mux::render_plan`].
    fn rec_plan(&self, node: Id, constraint: XY, start: XY, cmds: &mut Vec<RenderCmd>, fuel: usize)
        requires
            self.wf(),
            (node as int) < self.nodes@.len(),
            self.is_attached(node),
            start.x + constraint.x <= usize::MAX,
            start.y + constraint.y <= usize::MAX,
        ensures
            final(cmds)@ == old(cmds)@ + spec_plan(
                self.nodes@,
                self.focus,
                node,
                constraint,
                start,
                fuel as nat,
            ),
            forall|k: int| 0 <= k < old(cmds)@.len() ==> final(cmds)@[k] == old(cmds)@[k],
            forall|k: int|
                old(cmds)@.len() <= k < final(cmds)@.len() ==> cmd_ok(
                    *self,
                    #[trigger] final(cmds)@[k],
                ),
        decreases fuel,
    {
        if fuel == 0 {
            proof {
                assert(cmds@ =~= cmds@ + spec_plan(
                    self.nodes@,
                    self.focus,
                    node,
                    constraint,
                    start,
                    0nat,
                ));
            }
            return ;
        }
        proof {
            assert(node_ok(self.nodes@, self.root, node as int));
        }
        let ghost base = cmds@;
        let ghost full = spec_plan(self.nodes@, self.focus, node, constraint, start, fuel as nat);
        let cc = self.nodes[node].children.len();
        if cc == 2 {
            let left = self.nodes[node].children[0];
            let right = self.nodes[node].children[1];
            proof {
                lemma_attached_step(self.nodes@, self.root, left);
                lemma_attached_step(self.nodes@, self.root, right);
                if left == self.root {
                    assert(reaches_root(self.nodes@, self.root, left, 0nat));
                }
                if right == self.root {
                    assert(reaches_root(self.nodes@, self.root, right, 0nat));
                }
            }
            let orit = self.nodes[node].orientation;
            let extent: usize = match orit {
                Orientation::Horizontal => constraint.x,
                Orientation::Vertical => constraint.y,
            };
            let extents = split_extents(extent, self.nodes[node].split_ratio_offset);
            let e1 = extents.0;
            let e2 = extents.1;
            match orit {
                Orientation::Horizontal => {
                    self.rec_plan(
                        left,
                        XY { x: e1, y: constraint.y },
                        start,
                        cmds,
                        fuel - 1,
                    );
                    self.rec_plan(
                        right,
                        XY { x: e2, y: constraint.y },
                        XY { x: start.x + e1, y: start.y },
                        cmds,
                        fuel - 1,
                    );
                    if extent > 1 {
                        cmds.push(
                            RenderCmd::VLine {
                                pos: XY { x: start.x + e1, y: start.y },
                                len: constraint.y,
                            },
                        );
                    }
                
                    proof {
                        assert(cmds@ =~= base + full);
                    }
                },
                Orientation::Vertical => {
                    self.rec_plan(
                        left,
                        XY { x: constraint.x, y: e1 },
                        start,
                        cmds,
                        fuel - 1,
                    );
                    self.rec_plan(
                        right,
                        XY { x: constraint.x, y: e2 },
                        XY { x: start.x, y: start.y + e1 },
                        cmds,
                        fuel - 1,
                    );
                    if extent > 1 {
                        cmds.push(
                            RenderCmd::HLine {
                                pos: XY { x: start.x, y: start.y + e1 },
                                len: constraint.x,
                            },
                        );
                    }
                
                    proof {
                        assert(cmds@ =~= base + full);
                    }
                },
            }
        } else if cc == 1 {
            let child = self.nodes[node].children[0];
            proof {
                lemma_attached_step(self.nodes@, self.root, child);
                if child == self.root {
                    assert(reaches_root(self.nodes@, self.root, child, 0nat));
                }
            }
            self.rec_plan(child, constraint, start, cmds, fuel - 1);
            proof {
                assert(cmds@ =~= base + full);
            }
        } else {
            if let Some(pane) = self.nodes[node].pane {
                let req = pane.measure(constraint);
                let w = if constraint.x <= req.x {
                    constraint.x
                } else {
                    req.x
                };
                let h = if constraint.y <= req.y {
                    constraint.y
                } else {
                    req.y
                };
                cmds.push(
                    RenderCmd::Pane {
                        id: node,
                        pos: start,
                        size: XY { x: w, y: h },
                        focused: node == self.focus,
                    },
                );
            }
            proof {
                assert(cmds@ =~= base + full);
            }
        }
    }

    /// The flat paint plan for the rectangle `size`: while zoomed a single
    /// full-rectangle command for the focused pane, otherwise one command
    /// per attached pane plus the separator lines between siblings.
    pub fn render_plan(&self, size: XY) -> (cmds: Vec<RenderCmd>)
        requires
            self.wf(),
        ensures
            cmds@ == if self.zoomed {
                if self.nodes@[self.focus as int].pane is Some {
                    seq![
                        RenderCmd::Pane {
                            id: self.focus,
                            pos: XY { x: 0, y: 0 },
                            size,
                            focused: true,
                        },
                    ]
                } else {
                    Seq::<RenderCmd>::empty()
                }
            } else {
                spec_plan(
                    self.nodes@,
                    self.focus,
                    self.root,
                    size,
                    XY { x: 0, y: 0 },
                    self.nodes@.len() as nat,
                )
            },
            forall|k: int| 0 <= k < cmds@.len() ==> cmd_ok(*self, #[trigger] cmds@[k]),
    {
        let mut cmds: Vec<RenderCmd> = Vec::new();
        if self.zoomed {
            if self.nodes[self.focus].pane.is_some() {
                cmds.push(
                    RenderCmd::Pane {
                        id: self.focus,
                        pos: XY { x: 0, y: 0 },
                        size,
                        focused: true,
                    },
                );
                proof {
                    assert(cmds@ =~= seq![
                        RenderCmd::Pane {
                            id: self.focus,
                            pos: XY { x: 0, y: 0 },
                            size,
                            focused: true,
                        },
                    ]);
                }
            } else {
                proof {
                    assert(cmds@ =~= Seq::<RenderCmd>::empty());
                }
            }
            return cmds;
        }
        let root = self.root;
        let fuel = self.nodes.len();
        proof {
            assert(reaches_root(self.nodes@, self.root, root, 0nat));
        }
        self.rec_plan(root, size, XY { x: 0, y: 0 }, &mut cmds, fuel);
        proof {
            assert(cmds@ =~= Seq::<RenderCmd>::empty() + spec_plan(
                self.nodes@,
                self.focus,
                self.root,
                size,
                XY { x: 0, y: 0 },
                self.nodes@.len() as nat,
            ));
        }
        cmds
    }
}

} // verus!
