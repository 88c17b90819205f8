//! One node of the multiplexer tree: either a split dividing its rectangle
//! between two ordered children, or a leaf hosting a pane, together with the
//! cached geometry of the last layout pass.

use vstd::prelude::*;

use crate::Dir;
use crate::Id;
use crate::Orientation;
use crate::RenderError;
use crate::XY;

verus! {

/// What the engine knows of a hosted component: whether it accepts focus,
/// and the size it asks for (`None` claims the full constraint).
#[derive(Clone, Copy, Debug, PartialEq, Eq, Structural)]
pub struct Pane {
    pub focusable: bool,
    pub size_request: Option<XY>,
}

impl Pane {
    /// The size this pane answers when measured against `constraint`.
    pub open spec fn spec_measure(self, constraint: XY) -> XY {
        match self.size_request {
            Some(req) => req,
            None => constraint,
        }
    }

    #[verifier::when_used_as_spec(spec_measure)]
    pub fn measure(self, constraint: XY) -> (r: XY)
        ensures
            r == self.spec_measure(constraint),
    {
        match self.size_request {
            Some(req) => req,
            None => constraint,
        }
    }
}

/// A node of the tree. `pane` is `Some` exactly on leaves; splits carry the
/// orientation and the resizable ratio offset; the three cached fields hold
/// what the last layout pass assigned.
#[derive(Debug)]
pub struct Node {
    pub parent: Option<Id>,
    pub children: Vec<Id>,
    pub pane: Option<Pane>,
    pub orientation: Orientation,
    pub split_ratio_offset: i16,
    pub total_position: Option<XY>,
    pub size: Option<XY>,
    pub total_size: Option<XY>,
}

/// The extent of `sz` along axis `o`.
pub open spec fn axis_extent(sz: XY, o: Orientation) -> int {
    match o {
        Orientation::Horizontal => sz.x as int,
        Orientation::Vertical => sz.y as int,
    }
}

/// Whether the ratio offset of a split of total extent `t` may move one
/// step towards the first (left or upper) child: always when it returns
/// towards the center, otherwise only while the shrinking side keeps more
/// than one cell.
pub open spec fn offset_dec_ok(t: int, off: int) -> bool {
    off > 0 || (t / 2 - vstd::math::abs(off) > 1 && off > i16::MIN)
}

/// Whether the ratio offset may move one step towards the second (right or
/// lower) child; the mirror of [`offset_dec_ok`].
pub open spec fn offset_inc_ok(t: int, off: int) -> bool {
    off < 0 || (t / 2 - vstd::math::abs(off) > 1 && off < i16::MAX)
}

impl Node {
    /// A fresh leaf hosting `pane`.
    pub fn new(pane: Pane, orientation: Orientation) -> (n: Node)
        ensures
            n.parent is None,
            n.children@.len() == 0,
            n.pane == Some(pane),
            n.orientation == orientation,
            n.split_ratio_offset == 0i16,
            n.total_position is None,
            n.size is None,
            n.total_size is None,
    {
        Node {
            parent: None,
            children: Vec::new(),
            pane: Some(pane),
            orientation,
            split_ratio_offset: 0,
            total_position: None,
            size: None,
            total_size: None,
        }
    }

    /// A fresh empty split.
    pub fn new_empty(orientation: Orientation) -> (n: Node)
        ensures
            n.parent is None,
            n.children@.len() == 0,
            n.pane is None,
            n.orientation == orientation,
            n.split_ratio_offset == 0i16,
            n.total_position is None,
            n.size is None,
            n.total_size is None,
    {
        Node {
            parent: None,
            children: Vec::new(),
            pane: None,
            orientation,
            split_ratio_offset: 0,
            total_position: None,
            size: None,
            total_size: None,
        }
    }

    /// Whether this node is a leaf hosting a pane.
    pub fn has_view(&self) -> (b: bool)
        ensures
            b == (self.pane is Some),
    {
        self.pane.is_some()
    }

    /// Whether the point `mp` falls in this node's laid-out rectangle. The
    /// rectangle's end is inclusive, and a point at or before the origin in
    /// both coordinates is excluded.
    pub open spec fn spec_click(&self, mp: XY) -> bool {
        match (self.total_position, self.total_size) {
            (Some(pos), Some(sz)) => {
                &&& !(pos.x >= mp.x && pos.y >= mp.y)
                &&& pos.x + sz.x >= mp.x
                &&& pos.y + sz.y >= mp.y
            },
            _ => false,
        }
    }

    #[verifier::when_used_as_spec(spec_click)]
    pub fn click(&self, mp: XY) -> (b: bool)
        ensures
            b == self.spec_click(mp),
    {
        match (self.total_position, self.total_size) {
            (Some(pos), Some(sz)) => {
                let end_x = pos.x.saturating_add(sz.x);
                let end_y = pos.y.saturating_add(sz.y);
                !(pos.x >= mp.x && pos.y >= mp.y) && end_x >= mp.x && end_y >= mp.y
            },
            _ => false,
        }
    }

    /// Records the position the layout pass assigned; only leaves keep one.
    pub fn set_pos(&mut self, pos: XY)
        ensures
            *final(self) == (Node {
                total_position: if old(self).pane is Some {
                    Some(pos)
                } else {
                    old(self).total_position
                },
                ..*old(self)
            }),
    {
        if self.pane.is_some() {
            self.total_position = Some(pos);
        }
    }

    /// Records the rectangle the layout pass allotted, and for a leaf the
    /// size its pane settles on within it.
    pub fn layout_view(&mut self, alloted: XY)
        ensures
            *final(self) == (Node {
                size: if old(self).pane is Some {
                    Some(
                        XY {
                            x: vstd::math::min(
                                alloted.x as int,
                                old(self).pane.unwrap().spec_measure(alloted).x as int,
                            ) as usize,
                            y: vstd::math::min(
                                alloted.y as int,
                                old(self).pane.unwrap().spec_measure(alloted).y as int,
                            ) as usize,
                        },
                    )
                } else {
                    old(self).size
                },
                total_size: Some(alloted),
                ..*old(self)
            }),
    {
        if let Some(pane) = self.pane {
            let req = pane.measure(alloted);
            let w = if alloted.x <= req.x {
                alloted.x
            } else {
                req.x
            };
            let h = if alloted.y <= req.y {
                alloted.y
            } else {
                req.y
            };
            self.size = Some(XY { x: w, y: h });
        }
        self.total_size = Some(alloted);
    }

    /// Moves the ratio offset one step in `direction`, guarded so that the
    /// shrinking side keeps at least one cell of extent against this
    /// split's last known total size; a step back towards the center is
    /// always allowed. Fails before any layout pass has run.
    pub fn move_offset(&mut self, direction: Dir) -> (r: Result<(), RenderError>)
        ensures
            match r {
                Ok(()) => {
                    &&& old(self).total_size is Some
                    &&& {
                        let t = axis_extent(
                            old(self).total_size.unwrap(),
                            direction.orientation(),
                        );
                        let off = old(self).split_ratio_offset as int;
                        if direction.is_forward() {
                            &&& offset_inc_ok(t, off)
                            &&& *final(self) == (Node {
                                split_ratio_offset: (off + 1) as i16,
                                ..*old(self)
                            })
                        } else {
                            &&& offset_dec_ok(t, off)
                            &&& *final(self) == (Node {
                                split_ratio_offset: (off - 1) as i16,
                                ..*old(self)
                            })
                        }
                    }
                },
                Err(e) => {
                    &&& e == (RenderError::Arithmetic {})
                    &&& *final(self) == *old(self)
                    &&& match old(self).total_size {
                        Some(sz) => {
                            let t = axis_extent(sz, direction.orientation());
                            let off = old(self).split_ratio_offset as int;
                            if direction.is_forward() {
                                !offset_inc_ok(t, off)
                            } else {
                                !offset_dec_ok(t, off)
                            }
                        },
                        None => true,
                    }
                },
            },
    {
        if let Some(total_size) = self.total_size {
            let t: usize = match direction.orientation() {
                Orientation::Horizontal => total_size.x,
                Orientation::Vertical => total_size.y,
            };
            let base: i64 = (t / 2) as i64;
            let off: i64 = self.split_ratio_offset as i64;
            let magnitude: i64 = if off < 0 {
                -off
            } else {
                off
            };
            if direction.is_forward() {
                if self.split_ratio_offset < 0
                    || (base - magnitude > 1 && self.split_ratio_offset < i16::MAX) {
                    self.split_ratio_offset = self.split_ratio_offset + 1;
                    Ok(())
                } else {
                    Err(RenderError::Arithmetic {})
                }
            } else {
                if self.split_ratio_offset > 0
                    || (base - magnitude > 1 && self.split_ratio_offset > i16::MIN) {
                    self.split_ratio_offset = self.split_ratio_offset - 1;
                    Ok(())
                } else {
                    Err(RenderError::Arithmetic {})
                }
            }
        } else {
            Err(RenderError::Arithmetic {})
        }
    }
}

} // verus!
